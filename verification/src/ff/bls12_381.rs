//! The scalar field of the BLS12-381 curve, `Z/pZ` with
//! `p = 52435875175126190479447740508185965837690552500527637822603658699938581184513`.
use rand::RngCore;
use vstd::arithmetic::div_mod::{
    lemma_add_mod_noop, lemma_fundamental_div_mod, lemma_mod_bound, lemma_mod_multiples_vanish, lemma_mod_twice,
    lemma_mul_mod_noop_general, lemma_mul_mod_noop_left, lemma_small_mod, lemma_sub_mod_noop,
};
use vstd::arithmetic::mul::{lemma_mul_is_distributive_sub, lemma_mul_is_associative};
use vstd::prelude::*;

use crate::algebra::{inv_mod, invertible, lemma_inv_unique};
use crate::ff::u256::{add_carry, shr1, sub_borrow, two_256, U256};
use crate::FiniteField;

verus! {

/// The field order `p`.
pub open spec fn modulus_p() -> int {
    52435875175126190479447740508185965837690552500527637822603658699938581184513int
}

/// `(p + 1) / 2`, the inverse of two.
pub open spec fn half_p() -> int {
    26217937587563095239723870254092982918845276250263818911301829349969290592257int
}

fn p_limbs() -> (r: U256)
    ensures
        r.value() == modulus_p(),
{
    U256 {
        l0: 18446744069414584321,
        l1: 6034159408538082302,
        l2: 3691218898639771653,
        l3: 8353516859464449352,
    }
}

/// A uniformly random 64-bit word from the operating system's generator
/// (`rand::rngs::OsRng`, `RngCore::next_u64`). Nothing is stated of the
/// word; the call panics only where the operating system cannot supply
/// randomness.
#[verifier::external_body]
fn os_random_u64() -> (r: u64) {
    rand::rngs::OsRng.next_u64()
}

/// `x % p` for `x` in `[0, 2p)`.
proof fn lemma_reduce_once(x: int)
    requires
        0 <= x < 2 * modulus_p(),
    ensures
        x % modulus_p() == (if x >= modulus_p() {
            x - modulus_p()
        } else {
            x
        }),
{
    let p = modulus_p();
    if x >= p {
        lemma_mod_multiples_vanish(1, x - p, p);
        lemma_small_mod((x - p) as nat, p as nat);
    } else {
        lemma_small_mod(x as nat, p as nat);
    }
}

/// `a + b mod p` on reduced operands.
fn add_mod(a: U256, b: U256) -> (r: U256)
    requires
        a.value() < modulus_p(),
        b.value() < modulus_p(),
    ensures
        r.value() == (a.value() + b.value()) % modulus_p(),
        r.value() < modulus_p(),
{
    let (s, c) = add_carry(a, b);
    proof {
        a.lemma_value_range();
        b.lemma_value_range();
        s.lemma_value_range();
        lemma_reduce_once(a.value() + b.value());
    }
    let (d, br) = sub_borrow(s, p_limbs());
    proof {
        d.lemma_value_range();
    }
    if br == 0 {
        d
    } else {
        s
    }
}

/// `a - b mod p` on reduced operands.
fn sub_mod(a: U256, b: U256) -> (r: U256)
    requires
        a.value() < modulus_p(),
        b.value() < modulus_p(),
    ensures
        r.value() == (a.value() - b.value()) % modulus_p(),
        r.value() < modulus_p(),
{
    let (d, br) = sub_borrow(a, b);
    proof {
        a.lemma_value_range();
        b.lemma_value_range();
        d.lemma_value_range();
    }
    if br == 0 {
        proof {
            lemma_small_mod((a.value() - b.value()) as nat, modulus_p() as nat);
        }
        d
    } else {
        let (r, c) = add_carry(d, p_limbs());
        proof {
            r.lemma_value_range();
            let x = a.value() - b.value();
            lemma_mod_multiples_vanish(-1, x + modulus_p(), modulus_p());
            lemma_small_mod((x + modulus_p()) as nat, modulus_p() as nat);
        }
        r
    }
}

/// `(acc * 2^64 + a * w) mod p`, by doubling and adding over the bits of `w`,
/// most significant first.
fn mul_word_acc(acc: U256, a: U256, w: u64) -> (r: U256)
    requires
        acc.value() < modulus_p(),
        a.value() < modulus_p(),
    ensures
        r.value() == (acc.value() * 0x1_0000_0000_0000_0000int + a.value() * w) % modulus_p(),
        r.value() < modulus_p(),
{
    let ghost p = modulus_p();
    let mut r = acc;
    let mut t = w;
    let ghost mut hi: int = 0;
    let ghost mut pw: int = 1;
    proof {
        lemma_small_mod(acc.value() as nat, p as nat);
        assert((w as u128) >> 64u128 == 0) by (bit_vector);
        assert(w << 0u64 == w) by (bit_vector);
        vstd::arithmetic::power2::lemma2_to64();
    }
    for j in 0..64u64
        invariant
            p == modulus_p(),
            acc.value() < p,
            a.value() < p,
            r.value() < p,
            r.value() == (acc.value() * pw + a.value() * hi) % p,
            hi == ((w as u128) >> ((64 - j) as u128)) as int,
            j < 64 ==> t == w << j,
            pw == vstd::arithmetic::power2::pow2(j as nat),
    {
        let bit = t >> 63u64;
        proof {
            assert(((w as u128) >> ((63 - j) as u128)) == (((w as u128) >> ((64 - j) as u128)) * 2)
                + ((w << j) >> 63u64) as u128) by (bit_vector)
                requires
                    j < 64,
            ;
            assert(((w << j) >> 63u64) <= 1) by (bit_vector);
            vstd::arithmetic::power2::lemma_pow2_unfold((j + 1) as nat);
        }
        let doubled = add_mod(r, r);
        proof {
            let x = acc.value() * pw + a.value() * hi;
            lemma_add_mod_noop(x, x, p);
            assert(doubled.value() == (acc.value() * (2 * pw) + a.value() * (2 * hi)) % p) by {
                assert(x + x == acc.value() * (2 * pw) + a.value() * (2 * hi)) by (nonlinear_arith)
                    requires
                        x == acc.value() * pw + a.value() * hi,
                ;
            }
        }
        if bit == 1 {
            r = add_mod(doubled, a);
            proof {
                let y = acc.value() * (2 * pw) + a.value() * (2 * hi);
                lemma_add_mod_noop(y, a.value(), p);
                lemma_mod_twice(y, p);
                lemma_small_mod(a.value() as nat, p as nat);
                assert(y + a.value() == acc.value() * (2 * pw) + a.value() * (2 * hi + 1))
                    by (nonlinear_arith)
                    requires
                        y == acc.value() * (2 * pw) + a.value() * (2 * hi),
                ;
            }
        } else {
            r = doubled;
        }
        proof {
            hi = 2 * hi + bit;
            pw = 2 * pw;
        }
        if j < 63 {
            t = t << 1u64;
            proof {
                assert((w << j) << 1u64 == w << ((j + 1) as u64)) by (bit_vector)
                    requires
                        j < 63,
                ;
            }
        }
    }
    proof {
        assert((w as u128) >> 0u128 == w as u128) by (bit_vector);
        vstd::arithmetic::power2::lemma2_to64();
    }
    r
}

/// `a * b mod p` on reduced operands.
fn mul_mod(a: U256, b: U256) -> (r: U256)
    requires
        a.value() < modulus_p(),
        b.value() < modulus_p(),
    ensures
        r.value() == (a.value() * b.value()) % modulus_p(),
        r.value() < modulus_p(),
{
    let ghost p = modulus_p();
    let ghost bb: int = 0x1_0000_0000_0000_0000int;
    let zero = U256::from_u64(0);
    let r3 = mul_word_acc(zero, a, b.l3);
    let r2 = mul_word_acc(r3, a, b.l2);
    let r1 = mul_word_acc(r2, a, b.l1);
    let r0 = mul_word_acc(r1, a, b.l0);
    proof {
        let av = a.value();
        let x3 = av * b.l3;
        let x2 = x3 * bb + av * b.l2;
        let x1 = x2 * bb + av * b.l1;
        let x0 = x1 * bb + av * b.l0;
        assert(r3.value() == x3 % p);
        lemma_mul_mod_noop_left(x3, bb, p);
        lemma_add_mod_noop(x3 * bb, av * b.l2, p);
        lemma_add_mod_noop((x3 % p) * bb, av * b.l2, p);
        assert(r2.value() == x2 % p);
        lemma_mul_mod_noop_left(x2, bb, p);
        lemma_add_mod_noop(x2 * bb, av * b.l1, p);
        lemma_add_mod_noop((x2 % p) * bb, av * b.l1, p);
        assert(r1.value() == x1 % p);
        lemma_mul_mod_noop_left(x1, bb, p);
        lemma_add_mod_noop(x1 * bb, av * b.l0, p);
        lemma_add_mod_noop((x1 % p) * bb, av * b.l0, p);
        assert(r0.value() == x0 % p);
        assert(x0 == av * b.value()) by (nonlinear_arith)
            requires
                x3 == av * b.l3,
                x2 == x3 * bb + av * b.l2,
                x1 == x2 * bb + av * b.l1,
                x0 == x1 * bb + av * b.l0,
                bb == 0x1_0000_0000_0000_0000int,
        ;
    }
    r0
}

proof fn lemma_halve_even(x: int, r: int)
    requires
        0 <= x < modulus_p(),
        x == 2 * r,
    ensures
        (x * half_p()) % modulus_p() == r,
        r < modulus_p(),
{
    let p = modulus_p();
    let h = half_p();
    assert(x * h == p * r + r) by (nonlinear_arith)
        requires
            x == 2 * r,
            2 * h == p + 1,
    ;
    lemma_mod_multiples_vanish(r, r, p);
    lemma_small_mod(r as nat, p as nat);
}

proof fn lemma_halve_odd(x: int, r: int)
    requires
        0 <= x < modulus_p(),
        2 * r == x + modulus_p(),
    ensures
        (x * half_p()) % modulus_p() == r,
        r < modulus_p(),
{
    let p = modulus_p();
    let h = half_p();
    assert(x * h == p * (r - h) + r) by (nonlinear_arith)
        requires
            2 * r == x + p,
            2 * h == p + 1,
    ;
    lemma_mod_multiples_vanish(r - h, r, p);
    lemma_small_mod(r as nat, p as nat);
}

proof fn lemma_sum_of_odds_even(x: int, s: int, c: int)
    requires
        x % 2 == 1,
        s == x + modulus_p() - c * two_256(),
    ensures
        s % 2 == 0,
{
    lemma_fundamental_div_mod(x, 2);
    let q = x / 2;
    let k = q + half_p() - c * 0x8000_0000_0000_0000_0000_0000_0000_0000_0000_0000_0000_0000_0000_0000_0000_0000int;
    assert(s == 2 * k);
    lemma_mod_multiples_vanish(k, 0, 2);
}

/// `x / 2 mod p`, that is `x * (p + 1) / 2 mod p`, on a reduced operand.
fn halve_mod(x: U256) -> (r: U256)
    requires
        x.value() < modulus_p(),
    ensures
        r.value() == (x.value() * half_p()) % modulus_p(),
        r.value() < modulus_p(),
{
    if x.is_even() {
        let r = shr1(x, 0);
        proof {
            x.lemma_value_range();
            lemma_halve_even(x.value(), r.value());
        }
        r
    } else {
        let (s, c) = add_carry(x, p_limbs());
        proof {
            x.lemma_value_range();
            lemma_sum_of_odds_even(x.value(), s.value(), c as int);
        }
        let r = shr1(s, c);
        proof {
            lemma_halve_odd(x.value(), r.value());
        }
        r
    }
}

/// A common divisor `g > 1` of `a` and `p` rules out an inverse of `a`.
proof fn lemma_common_divisor_not_invertible(a: int, p: int, g: int)
    requires
        p > 1,
        g > 1,
        a % g == 0,
        p % g == 0,
    ensures
        !invertible(a, p),
{
    if invertible(a, p) {
        let y = choose|y: int| 0 <= y < p && #[trigger] ((a * y) % p) == 1;
        lemma_fundamental_div_mod(a * y, p);
        lemma_fundamental_div_mod(a, g);
        lemma_fundamental_div_mod(p, g);
        let q = (a * y) / p;
        let k1 = a / g;
        let k2 = p / g;
        assert(g * (k1 * y - k2 * q) == 1) by (nonlinear_arith)
            requires
                a * y == p * q + 1,
                a == g * k1,
                p == g * k2,
        ;
        assert(false) by (nonlinear_arith)
            requires
                g > 1,
                g * (k1 * y - k2 * q) == 1,
        ;
    }
}

/// Halving one side of the binary inversion keeps `a * x == u (mod p)`.
proof fn lemma_halve_step(a: int, x: int, xn: int, u: int, un: int)
    requires
        (a * x) % modulus_p() == u % modulus_p(),
        xn == (x * half_p()) % modulus_p(),
        u == 2 * un,
    ensures
        (a * xn) % modulus_p() == un % modulus_p(),
{
    let p = modulus_p();
    let h = half_p();
    lemma_mul_mod_noop_general(a, x * h, p);
    lemma_mod_twice(x * h, p);
    lemma_mul_is_associative(a, x, h);
    lemma_mul_mod_noop_general(a * x, h, p);
    lemma_mul_mod_noop_general(u, h, p);
    assert(u * h == p * un + un) by (nonlinear_arith)
        requires
            u == 2 * un,
            2 * h == p + 1,
    ;
    lemma_mod_multiples_vanish(un, un, p);
}

/// Subtracting the two sides of the binary inversion keeps the invariant.
proof fn lemma_sub_step(a: int, x1: int, x2: int, u: int, v: int)
    requires
        (a * x1) % modulus_p() == u % modulus_p(),
        (a * x2) % modulus_p() == v % modulus_p(),
    ensures
        (a * ((x1 - x2) % modulus_p())) % modulus_p() == (u - v) % modulus_p(),
{
    let p = modulus_p();
    lemma_mul_mod_noop_general(a, x1 - x2, p);
    lemma_mul_is_distributive_sub(a, x1, x2);
    lemma_sub_mod_noop(a * x1, a * x2, p);
    lemma_sub_mod_noop(u, v, p);
}

/// The inverse of `a` modulo `p` (zero where there is none), by the binary
/// extended Euclidean algorithm.
#[verifier::spinoff_prover]
#[verifier::rlimit(40)]
fn inverse(a: U256) -> (r: U256)
    requires
        a.value() < modulus_p(),
    ensures
        r.value() == inv_mod(a.value(), modulus_p()),
        r.value() < modulus_p(),
{
    let ghost p = modulus_p();
    let ghost av = a.value();
    let mut u = a;
    let mut v = p_limbs();
    let mut x1 = U256::from_u64(1);
    let mut x2 = U256::from_u64(0);
    proof {
        lemma_small_mod(av as nat, p as nat);
        lemma_small_mod(0, p as nat);
        assert(p % p == 0);
    }
    while !(u.is_zero() || v.is_zero() || u.is_one() || v.is_one())
        invariant
            p == modulus_p(),
            av < p,
            u.value() <= p,
            v.value() <= p,
            x1.value() < p,
            x2.value() < p,
            (av * x1.value()) % p == u.value() % p,
            (av * x2.value()) % p == v.value() % p,
            forall|d: int|
                d > 0 && #[trigger] (u.value() % d) == 0 && v.value() % d == 0 ==> av % d == 0 && p
                    % d == 0,
        decreases u.value() + v.value(),
    {
        let ghost (u0, v0) = (u.value(), v.value());
        if u.is_even() {
            let un = shr1(u, 0);
            let xn = halve_mod(x1);
            proof {
                lemma_halve_step(av, x1.value(), xn.value(), u0, un.value());
                assert forall|d: int| d > 0 && #[trigger] (un.value() % d) == 0 && v0 % d == 0 implies av
                    % d == 0 && p % d == 0 by {
                    lemma_fundamental_div_mod(un.value(), d);
                    lemma_mod_multiples_vanish(2 * (un.value() / d), 0, d);
                    assert(u0 == d * (2 * (un.value() / d)) + 0) by (nonlinear_arith)
                        requires
                            u0 == 2 * un.value(),
                            un.value() == d * (un.value() / d),
                    ;
                }
            }
            u = un;
            x1 = xn;
        } else if v.is_even() {
            let vn = shr1(v, 0);
            let xn = halve_mod(x2);
            proof {
                lemma_halve_step(av, x2.value(), xn.value(), v0, vn.value());
                assert forall|d: int| d > 0 && #[trigger] (u0 % d) == 0 && vn.value() % d == 0 implies av
                    % d == 0 && p % d == 0 by {
                    lemma_fundamental_div_mod(vn.value(), d);
                    lemma_mod_multiples_vanish(2 * (vn.value() / d), 0, d);
                    assert(v0 == d * (2 * (vn.value() / d)) + 0) by (nonlinear_arith)
                        requires
                            v0 == 2 * vn.value(),
                            vn.value() == d * (vn.value() / d),
                    ;
                }
            }
            v = vn;
            x2 = xn;
        } else {
            let (d, br) = sub_borrow(u, v);
            proof {
                d.lemma_value_range();
            }
            if br == 0 {
                let xn = sub_mod(x1, x2);
                proof {
                    lemma_sub_step(av, x1.value(), x2.value(), u0, v0);
                    assert forall|g: int| g > 0 && #[trigger] (d.value() % g) == 0 && v0 % g == 0 implies av
                        % g == 0 && p % g == 0 by {
                        lemma_fundamental_div_mod(d.value(), g);
                        lemma_fundamental_div_mod(v0, g);
                        lemma_mod_multiples_vanish(d.value() / g + v0 / g, 0, g);
                        assert(u0 == g * (d.value() / g + v0 / g) + 0) by (nonlinear_arith)
                            requires
                                u0 == d.value() + v0,
                                d.value() == g * (d.value() / g),
                                v0 == g * (v0 / g),
                        ;
                    }
                }
                u = d;
                x1 = xn;
            } else {
                let (e, _) = sub_borrow(v, u);
                let xn = sub_mod(x2, x1);
                proof {
                    e.lemma_value_range();
                    lemma_sub_step(av, x2.value(), x1.value(), v0, u0);
                    assert forall|g: int| g > 0 && #[trigger] (u0 % g) == 0 && e.value() % g == 0 implies av
                        % g == 0 && p % g == 0 by {
                        lemma_fundamental_div_mod(e.value(), g);
                        lemma_fundamental_div_mod(u0, g);
                        lemma_mod_multiples_vanish(e.value() / g + u0 / g, 0, g);
                        assert(v0 == g * (e.value() / g + u0 / g) + 0) by (nonlinear_arith)
                            requires
                                v0 == e.value() + u0,
                                e.value() == g * (e.value() / g),
                                u0 == g * (u0 / g),
                        ;
                    }
                }
                v = e;
                x2 = xn;
            }
        }
    }
    if u.is_one() {
        proof {
            lemma_small_mod(1, p as nat);
            lemma_inv_unique(av, x1.value(), p);
        }
        x1
    } else if v.is_one() {
        proof {
            lemma_small_mod(1, p as nat);
            lemma_inv_unique(av, x2.value(), p);
        }
        x2
    } else {
        proof {
            let g = if u.value() == 0 {
                v.value()
            } else {
                u.value()
            };
            if g == 0 {
                lemma_small_mod(p as nat, (p + 1) as nat);
                assert(u.value() % (p + 1) == 0);
                assert(v.value() % (p + 1) == 0);
            } else {
                assert(g % g == 0);
                assert(0int % g == 0);
                lemma_common_divisor_not_invertible(av, p, g);
            }
        }
        U256::from_u64(0)
    }
}

/// An element of the BLS12-381 scalar field, held as its canonical
/// representative in `0 .. p`.
#[derive(Clone, Copy, Debug, PartialEq, Eq, Structural)]
pub struct Bls381K12Scalar {
    limbs: U256,
}

impl Bls381K12Scalar {
    #[verifier::type_invariant]
    spec fn canonical(self) -> bool {
        self.limbs.value() < modulus_p()
    }

    /// The integer of the limbs (equal to the field value).
    pub closed spec fn limbs_value(self) -> int {
        self.limbs.value()
    }

    proof fn lemma_canonical(self)
        requires
            self.limbs.value() < modulus_p(),
        ensures
            self.value() == self.limbs.value(),
    {
        self.limbs.lemma_value_range();
        lemma_small_mod(self.limbs.value() as nat, modulus_p() as nat);
    }

    fn from_reduced(limbs: U256) -> (r: Self)
        requires
            limbs.value() < modulus_p(),
        ensures
            r.value() == limbs.value(),
    {
        let r = Bls381K12Scalar { limbs };
        proof {
            r.lemma_canonical();
        }
        r
    }

    fn reduced(&self) -> (r: U256)
        ensures
            r.value() == self.value(),
            r.value() < modulus_p(),
    {
        proof {
            use_type_invariant(self);
            self.lemma_canonical();
        }
        self.limbs
    }

    /// The little-endian 64-bit limbs of the canonical representative.
    pub fn to_limbs(&self) -> (r: [u64; 4])
        ensures
            r[0] + r[1] * 0x1_0000_0000_0000_0000int + r[2]
                * 0x1_0000_0000_0000_0000_0000_0000_0000_0000int + r[3]
                * 0x1_0000_0000_0000_0000_0000_0000_0000_0000_0000_0000_0000_0000int
                == self.value(),
    {
        let l = self.reduced();
        [l.l0, l.l1, l.l2, l.l3]
    }

    /// The element with the given little-endian limbs, if they stand for an
    /// integer below `p`.
    pub fn from_limbs(limbs: [u64; 4]) -> (r: Option<Self>)
        ensures
            ({
                let x = limbs[0] + limbs[1] * 0x1_0000_0000_0000_0000int + limbs[2]
                    * 0x1_0000_0000_0000_0000_0000_0000_0000_0000int + limbs[3]
                    * 0x1_0000_0000_0000_0000_0000_0000_0000_0000_0000_0000_0000_0000int;
                match r {
                    Some(e) => x < modulus_p() && e.value() == x,
                    None => x >= modulus_p(),
                }
            }),
    {
        let l = U256 { l0: limbs[0], l1: limbs[1], l2: limbs[2], l3: limbs[3] };
        let (_, br) = sub_borrow(l, p_limbs());
        proof {
            l.lemma_value_range();
        }
        if br == 1 {
            Some(Self::from_reduced(l))
        } else {
            None
        }
    }

    /// The element that four drawn words give where the draw is accepted:
    /// the words taken as little-endian limbs with the top bit cleared, if
    /// that integer is below `p`; `None` (a rejected draw) otherwise.
    pub fn from_random_words(words: [u64; 4]) -> (r: Option<Self>)
        ensures
            match r {
                Some(e) => masked_words_value(words) < modulus_p() && e.value()
                    == masked_words_value(words),
                None => masked_words_value(words) >= modulus_p(),
            },
    {
        let c = masked_candidate(words);
        Self::from_limbs([c.l0, c.l1, c.l2, c.l3])
    }

    /// The element that four drawn words give when no draw was accepted: the
    /// words taken as little-endian limbs with the top bit cleared, reduced
    /// modulo `p`.
    pub fn reduce_random_words(words: [u64; 4]) -> (r: Self)
        ensures
            r.value() == masked_words_value(words) % modulus_p(),
    {
        let cand = masked_candidate(words);
        let (d, br) = sub_borrow(cand, p_limbs());
        proof {
            cand.lemma_value_range();
            d.lemma_value_range();
            lemma_reduce_once(cand.value());
        }
        if br == 1 {
            Self::from_reduced(cand)
        } else {
            Self::from_reduced(d)
        }
    }
}

/// The integer that four drawn words stand for: the words as little-endian
/// limbs, the top bit of the last one cleared.
pub open spec fn masked_words_value(words: [u64; 4]) -> int {
    words[0] + words[1] * 0x1_0000_0000_0000_0000int + words[2]
        * 0x1_0000_0000_0000_0000_0000_0000_0000_0000int + (words[3] % 0x8000_0000_0000_0000)
        * 0x1_0000_0000_0000_0000_0000_0000_0000_0000_0000_0000_0000_0000int
}

/// The limbs of the integer that four drawn words stand for.
fn masked_candidate(words: [u64; 4]) -> (r: U256)
    ensures
        r.value() == masked_words_value(words),
        r.value() < 2 * modulus_p(),
{
    let w3 = words[3];
    let top = w3 & 0x7fff_ffff_ffff_ffff;
    assert(top == w3 % 0x8000_0000_0000_0000u64) by (bit_vector)
        requires
            top == w3 & 0x7fff_ffff_ffff_ffffu64,
    ;
    U256 { l0: words[0], l1: words[1], l2: words[2], l3: top }
}

/// Four words from the operating system's generator.
fn draw_words() -> [u64; 4] {
    [os_random_u64(), os_random_u64(), os_random_u64(), os_random_u64()]
}

impl FiniteField for Bls381K12Scalar {
    open spec fn modulus() -> int {
        modulus_p()
    }

    closed spec fn value(&self) -> int {
        self.limbs.value() % modulus_p()
    }

    proof fn lemma_modulus() {
    }

    proof fn lemma_value_bound(x: Self) {
        lemma_mod_bound(x.limbs.value(), modulus_p());
    }

    /// Rejection sampling: up to 64 draws of four words, each read as an
    /// integer below `2^255` and kept if it is below `p`
    /// (`from_random_words`); where all are rejected (each with probability
    /// below one in ten), one more draw reduced modulo `p`
    /// (`reduce_random_words`).
    fn random() -> (r: Self) {
        let mut tries: u64 = 0;
        while tries < 64
            invariant
                tries <= 64,
            decreases 64 - tries,
        {
            if let Some(e) = Self::from_random_words(draw_words()) {
                return e;
            }
            tries = tries + 1;
        }
        Self::reduce_random_words(draw_words())
    }

    fn zero() -> (r: Self) {
        proof {
            lemma_small_mod(0, modulus_p() as nat);
        }
        Self::from_reduced(U256::from_u64(0))
    }

    fn one() -> (r: Self) {
        proof {
            lemma_small_mod(1, modulus_p() as nat);
        }
        Self::from_reduced(U256::from_u64(1))
    }

    fn from_usize(n: usize) -> (r: Self) {
        proof {
            lemma_small_mod(n as nat, modulus_p() as nat);
        }
        Self::from_reduced(U256::from_u64(n as u64))
    }

    fn horner_fold(partial: &Self, coef: &Self, point: &Self) -> (r: Self) {
        let r = partial.mul(point).add(coef);
        proof {
            let x = partial.value() * point.value();
            lemma_add_mod_noop(x, coef.value(), modulus_p());
            lemma_mod_twice(x, modulus_p());
            Self::lemma_value_bound(*coef);
            lemma_small_mod(coef.value() as nat, modulus_p() as nat);
        }
        r
    }

    fn add(&self, other: &Self) -> (r: Self) {
        Self::from_reduced(add_mod(self.reduced(), other.reduced()))
    }

    fn sub(&self, other: &Self) -> (r: Self) {
        Self::from_reduced(sub_mod(self.reduced(), other.reduced()))
    }

    fn mul(&self, other: &Self) -> (r: Self) {
        Self::from_reduced(mul_mod(self.reduced(), other.reduced()))
    }

    fn div(&self, other: &Self) -> (r: Self) {
        let inv = inverse(other.reduced());
        Self::from_reduced(mul_mod(self.reduced(), inv))
    }

    fn minus(&self) -> (r: Self) {
        let r = Self::from_reduced(sub_mod(U256::from_u64(0), self.reduced()));
        r
    }

    fn equals(&self, other: &Self) -> (r: bool) {
        self.reduced().equals(&other.reduced())
    }
}

} // verus!
