//! Polynomial interpolation over a field: a polynomial of degree below `n`
//! is determined by its values at `n` distinct points, and Lagrange's
//! formula reproduces it. From this follow the laws of secret sharing and
//! of Beaver multiplication.
use vstd::arithmetic::div_mod::{
    lemma_add_mod_noop, lemma_mod_twice, lemma_mul_mod_noop_general, lemma_small_mod,
    lemma_sub_mod_noop,
};
use vstd::arithmetic::mul::lemma_mul_is_associative;
use vstd::prelude::*;

use crate::algebra::{
    coeff, conv, invertible, inv_mod, lagrange_num, lemma_eval_congruent, lemma_eval_conv,
    lemma_eval_pad, lemma_inv_mod, lemma_mul_congruent, poly_eval,
};

verus! {

/// Every nonzero residue modulo `m` is invertible: `Z/mZ` is a field.
pub open spec fn is_field(m: int) -> bool {
    &&& m > 1
    &&& forall|x: int| x % m != 0 ==> #[trigger] invertible(x, m)
}

/// The residues of the points are pairwise distinct.
pub open spec fn distinct_mod(xs: Seq<int>, m: int) -> bool {
    forall|i: int, j: int|
        0 <= i < xs.len() && 0 <= j < xs.len() && i != j ==> #[trigger] (xs[i] % m) != #[trigger] (
        xs[j] % m)
}

/// `p` is prime: it has no divisor strictly between one and itself.
pub open spec fn is_prime(p: int) -> bool {
    &&& p > 1
    &&& forall|d: int| 1 < d < p ==> #[trigger] (p % d) != 0
}

/// The extended Euclidean algorithm: `(g, s, t)` with `g = a * s + b * t`.
pub open spec fn ext_gcd(a: int, b: int) -> (int, int, int)
    decreases b,
{
    if b <= 0 {
        (a, 1, 0)
    } else {
        let r = ext_gcd(b, a % b);
        (r.0, r.2, r.1 - (a / b) * r.2)
    }
}

proof fn lemma_ext_gcd(a: int, b: int)
    requires
        a >= 0,
        b >= 0,
        a > 0 || b > 0,
    ensures
        ext_gcd(a, b).0 > 0,
        ext_gcd(a, b).0 == a * ext_gcd(a, b).1 + b * ext_gcd(a, b).2,
        a % ext_gcd(a, b).0 == 0,
        b % ext_gcd(a, b).0 == 0,
    decreases b,
{
    if b == 0 {
        vstd::arithmetic::div_mod::lemma_mod_self_0(a);
        lemma_small_mod(0, a as nat);
    } else {
        let r = a % b;
        let q = a / b;
        vstd::arithmetic::div_mod::lemma_fundamental_div_mod(a, b);
        lemma_ext_gcd(b, r);
        let (g, s1, t1) = ext_gcd(b, r);
        assert(a * t1 + b * (s1 - q * t1) == g) by (nonlinear_arith)
            requires
                g == b * s1 + r * t1,
                a == b * q + r,
        ;
        vstd::arithmetic::div_mod::lemma_fundamental_div_mod(b, g);
        vstd::arithmetic::div_mod::lemma_fundamental_div_mod(r, g);
        let k1 = b / g;
        let k2 = r / g;
        assert(a == g * (q * k1 + k2)) by (nonlinear_arith)
            requires
                a == b * q + r,
                b == g * k1,
                r == g * k2,
        ;
        vstd::arithmetic::div_mod::lemma_mod_multiples_vanish(q * k1 + k2, 0, g);
        lemma_small_mod(0, g as nat);
    }
}

/// A divisor of a positive number is at most that number.
proof fn lemma_divisor_le(n: int, d: int)
    requires
        n > 0,
        d > 0,
        n % d == 0,
    ensures
        d <= n,
{
    vstd::arithmetic::div_mod::lemma_fundamental_div_mod(n, d);
    let q = n / d;
    assert(n == d * q);
    assert(d <= n) by (nonlinear_arith)
        requires
            n == d * q,
            d > 0,
            n > 0,
    ;
}

/// The integers modulo a prime form a field (Bezout's identity).
pub proof fn lemma_prime_is_field(p: int)
    requires
        is_prime(p),
    ensures
        is_field(p),
{
    assert forall|x: int| x % p != 0 implies #[trigger] invertible(x, p) by {
        let r = x % p;
        lemma_mod_bound_local(x, p);
        lemma_ext_gcd(r, p);
        let (g, s, t) = ext_gcd(r, p);
        lemma_divisor_le(p, g);
        lemma_divisor_le(r, g);
        assert(g == 1);
        let y = s % p;
        lemma_mod_bound_local(s, p);
        // (x * y) % p == (r * s) % p == (1 - p * t) % p == 1
        lemma_mul_mod_noop_general(x, s, p);
        assert((r * s) == 1 + p * (-t)) by (nonlinear_arith)
            requires
                1 == r * s + p * t,
        ;
        vstd::arithmetic::div_mod::lemma_mod_multiples_vanish(-t, 1, p);
        lemma_small_mod(1, p as nat);
        assert((x * y) % p == 1);
    }
}

/// A field has no zero divisors.
pub proof fn lemma_no_zero_divisors(a: int, b: int, m: int)
    requires
        is_field(m),
        (a * b) % m == 0,
    ensures
        a % m == 0 || b % m == 0,
{
    if a % m != 0 {
        assert(invertible(a, m));
        lemma_inv_mod(a, m);
        let y = inv_mod(a, m);
        lemma_mul_congruent(y, y, a * b, 0, m);
        lemma_mul_is_associative(y, a, b);
        vstd::arithmetic::mul::lemma_mul_is_commutative(y, a);
        lemma_small_mod(1, m as nat);
        lemma_mul_congruent(a * y, 1, b, b, m);
        lemma_small_mod(0, m as nat);
    }
}

/// `(x - y) mod m` is nonzero for points with distinct residues.
proof fn lemma_diff_nonzero(x: int, y: int, m: int)
    requires
        m > 0,
        x % m != y % m,
    ensures
        (x - y) % m != 0,
{
    if (x - y) % m == 0 {
        lemma_sub_mod_noop(x, y, m);
        lemma_mod_bound_local(x, m);
        lemma_mod_bound_local(y, m);
        let d = x % m - y % m;
        assert(d % m == 0);
        if d > 0 {
            lemma_small_mod(d as nat, m as nat);
        } else {
            vstd::arithmetic::div_mod::lemma_mod_multiples_vanish(1, d, m);
            lemma_small_mod((d + m) as nat, m as nat);
        }
    }
}

proof fn lemma_mod_bound_local(x: int, m: int)
    requires
        m > 0,
    ensures
        0 <= x % m < m,
{
}

/// The Lagrange denominators of distinct points are nonzero in a field.
pub proof fn lemma_den_nonzero(xs: Seq<int>, i: int, upto: int, m: int)
    requires
        is_field(m),
        distinct_mod(xs, m),
        0 <= i < xs.len(),
        upto <= xs.len(),
    ensures
        lagrange_num(xs, i, xs[i], upto) % m != 0,
    decreases upto,
{
    if upto <= 0 {
        lemma_small_mod(1, m as nat);
    } else {
        lemma_den_nonzero(xs, i, upto - 1, m);
        if upto - 1 != i {
            let prev = lagrange_num(xs, i, xs[i], upto - 1);
            lemma_diff_nonzero(xs[i], xs[upto - 1], m);
            if (prev * (xs[i] - xs[upto - 1])) % m == 0 {
                lemma_no_zero_divisors(prev, xs[i] - xs[upto - 1], m);
            }
        }
    }
}

// ---------------------------------------------------------------------------
// Synthetic division and counting roots
// ---------------------------------------------------------------------------

/// The quotient of `c` by `X - a` (synthetic division).
pub open spec fn quotient(c: Seq<int>, a: int) -> Seq<int>
    decreases c.len(),
{
    if c.len() <= 1 {
        Seq::empty()
    } else {
        seq![poly_eval(c.skip(1), a)] + quotient(c.skip(1), a)
    }
}

proof fn lemma_quotient_len(c: Seq<int>, a: int)
    ensures
        quotient(c, a).len() == (if c.len() == 0 {
            0
        } else {
            c.len() - 1
        }),
    decreases c.len(),
{
    if c.len() > 1 {
        lemma_quotient_len(c.skip(1), a);
    }
}

/// `c(X) = (X - a) q(X) + c(a)`.
proof fn lemma_quotient_eval(c: Seq<int>, a: int, x: int)
    ensures
        poly_eval(c, x) == (x - a) * poly_eval(quotient(c, a), x) + poly_eval(c, a),
    decreases c.len(),
{
    if c.len() == 0 {
    } else if c.len() == 1 {
        assert(c.skip(1).len() == 0);
        assert(poly_eval(c.skip(1), x) == 0);
        assert(poly_eval(c.skip(1), a) == 0);
        assert(poly_eval(quotient(c, a), x) == 0);
    } else {
        let c1 = c.skip(1);
        let q = quotient(c, a);
        let q1 = quotient(c1, a);
        let r1 = poly_eval(c1, a);
        lemma_quotient_eval(c1, a, x);
        assert(q.skip(1) =~= q1);
        assert(q[0] == r1);
        let eq1 = poly_eval(q1, x);
        let ec1 = poly_eval(c1, x);
        assert(poly_eval(q, x) == r1 + x * eq1);
        assert(x * ec1 + c[0] == (x - a) * (r1 + x * eq1) + (c[0] + a * r1)) by (nonlinear_arith)
            requires
                ec1 == (x - a) * eq1 + r1,
        ;
    }
}

/// The coefficients of `c = (X - a) q + c(a)`.
proof fn lemma_quotient_coeff(c: Seq<int>, a: int, k: int)
    requires
        0 <= k < c.len(),
    ensures
        c[k] == coeff(quotient(c, a), k - 1) - a * coeff(quotient(c, a), k) + (if k == 0 {
            poly_eval(c, a)
        } else {
            0
        }),
    decreases c.len(),
{
    let q = quotient(c, a);
    if c.len() == 1 {
        assert(c.skip(1).len() == 0);
        assert(poly_eval(c.skip(1), a) == 0);
    } else {
        let c1 = c.skip(1);
        let q1 = quotient(c1, a);
        lemma_quotient_len(c1, a);
        if k == 0 {
            assert(coeff(q, 0) == poly_eval(c1, a));
        } else {
            lemma_quotient_coeff(c1, a, k - 1);
            assert(c[k] == c1[k - 1]);
            assert(coeff(q, k) == coeff(q1, k - 1));
            if k == 1 {
                assert(coeff(q, 0) == poly_eval(c1, a));
            } else {
                assert(coeff(q, k - 1) == coeff(q1, k - 2));
            }
        }
    }
}

/// A polynomial with fewer coefficients than it has roots at points with
/// distinct residues has every coefficient divisible by `m`.
pub proof fn lemma_roots_force_zero(c: Seq<int>, xs: Seq<int>, m: int)
    requires
        is_field(m),
        distinct_mod(xs, m),
        c.len() <= xs.len(),
        forall|k: int| 0 <= k < xs.len() ==> #[trigger] poly_eval(c, xs[k]) % m == 0,
    ensures
        forall|k: int| 0 <= k < c.len() ==> #[trigger] (c[k] % m) == 0,
    decreases xs.len(),
{
    if c.len() > 0 {
        let n = xs.len();
        let a = xs[n - 1];
        let q = quotient(c, a);
        let ys = xs.take(n - 1);
        lemma_quotient_len(c, a);
        assert forall|k: int| 0 <= k < ys.len() implies #[trigger] poly_eval(q, ys[k]) % m == 0 by {
            let x = ys[k];
            assert(x == xs[k]);
            lemma_quotient_eval(c, a, x);
            let r = poly_eval(c, a);
            let qx = poly_eval(q, x);
            assert(poly_eval(c, xs[n - 1]) % m == 0);
            lemma_add_mod_noop((x - a) * qx, r, m);
            lemma_small_mod(0, m as nat);
            lemma_mod_twice((x - a) * qx, m);
            assert(((x - a) * qx) % m == 0);
            assert(xs[k] % m != xs[n - 1] % m);
            lemma_diff_nonzero(x, a, m);
            lemma_no_zero_divisors(x - a, qx, m);
        }
        assert(distinct_mod(ys, m));
        lemma_roots_force_zero(q, ys, m);
        assert forall|k: int| 0 <= k < c.len() implies #[trigger] (c[k] % m) == 0 by {
            lemma_quotient_coeff(c, a, k);
            let q0 = coeff(q, k - 1);
            let q1 = coeff(q, k);
            let r = if k == 0 {
                poly_eval(c, a)
            } else {
                0
            };
            assert(q0 % m == 0);
            assert(q1 % m == 0);
            assert(r % m == 0) by {
                if k == 0 {
                    assert(poly_eval(c, xs[n - 1]) % m == 0);
                } else {
                    lemma_small_mod(0, m as nat);
                }
            }
            lemma_mul_congruent(a, a, q1, 0, m);
            lemma_sub_mod_noop(q0, a * q1, m);
            lemma_add_mod_noop(q0 - a * q1, r, m);
            lemma_small_mod(0, m as nat);
        }
    }
}

// ---------------------------------------------------------------------------
// Lagrange's formula as a polynomial
// ---------------------------------------------------------------------------

/// The coefficients of `prod_{j < upto, j != i} (X - xs[j])`.
pub open spec fn num_poly(xs: Seq<int>, i: int, upto: int) -> Seq<int>
    decreases upto,
{
    if upto <= 0 {
        seq![1]
    } else if upto - 1 == i {
        num_poly(xs, i, upto - 1)
    } else {
        conv(num_poly(xs, i, upto - 1), seq![-xs[upto - 1], 1])
    }
}

proof fn lemma_num_poly(xs: Seq<int>, i: int, upto: int, e: int)
    requires
        0 <= upto <= xs.len(),
    ensures
        poly_eval(num_poly(xs, i, upto), e) == lagrange_num(xs, i, e, upto),
        num_poly(xs, i, upto).len() == 1 + upto - (if 0 <= i < upto {
            1int
        } else {
            0
        }),
    decreases upto,
{
    if upto == 0 {
        assert(seq![1int].skip(1).len() == 0);
        assert(poly_eval(seq![1int].skip(1), e) == 0);
    } else {
        lemma_num_poly(xs, i, upto - 1, e);
        if upto - 1 != i {
            let lin = seq![-xs[upto - 1], 1];
            assert(lin.skip(1).skip(1).len() == 0);
            assert(poly_eval(lin.skip(1).skip(1), e) == 0);
            assert(poly_eval(lin.skip(1), e) == 1);
            assert(lin[0] == -xs[upto - 1]);
            assert(e * 1 == e);
            assert(poly_eval(lin, e) == lin[0] + e * poly_eval(lin.skip(1), e));
            assert(poly_eval(lin, e) == e - xs[upto - 1]);
            lemma_eval_conv(num_poly(xs, i, upto - 1), lin, e);
            vstd::arithmetic::mul::lemma_mul_is_commutative(
                lagrange_num(xs, i, e, upto - 1),
                e - xs[upto - 1],
            );
        }
    }
}

/// The numerator of another node's basis polynomial vanishes at a node.
proof fn lemma_num_zero_at_node(xs: Seq<int>, i: int, k: int, upto: int)
    requires
        0 <= k < upto,
        k != i,
    ensures
        lagrange_num(xs, i, xs[k], upto) == 0,
    decreases upto,
{
    if upto - 1 != k {
        lemma_num_zero_at_node(xs, i, k, upto - 1);
    }
}

/// The weight of node `i` in Lagrange's formula: `ys[i] / den_i`.
pub open spec fn lagrange_weight(xs: Seq<int>, ys: Seq<int>, i: int, m: int) -> int {
    ys[i] * inv_mod(lagrange_num(xs, i, xs[i], xs.len() as int), m)
}

/// `sum_{i < upto} weight_i * num_i(e)`, the value of Lagrange's polynomial.
pub open spec fn weighted_sum(xs: Seq<int>, ys: Seq<int>, e: int, m: int, upto: int) -> int
    decreases upto,
{
    if upto <= 0 {
        0
    } else {
        weighted_sum(xs, ys, e, m, upto - 1) + lagrange_weight(xs, ys, upto - 1, m) * lagrange_num(
            xs,
            upto - 1,
            e,
            xs.len() as int,
        )
    }
}

/// The coefficients of `sum_{i < upto} weight_i * prod_{j != i} (X - xs[j])`.
pub open spec fn interp_poly(xs: Seq<int>, ys: Seq<int>, m: int, upto: int) -> Seq<int>
    decreases upto,
{
    if upto <= 0 {
        Seq::new(xs.len(), |k: int| 0)
    } else {
        let prev = interp_poly(xs, ys, m, upto - 1);
        let w = lagrange_weight(xs, ys, upto - 1, m);
        let np = num_poly(xs, upto - 1, xs.len() as int);
        Seq::new(xs.len(), |k: int| prev[k] + w * coeff(np, k))
    }
}

proof fn lemma_interp_poly(xs: Seq<int>, ys: Seq<int>, m: int, upto: int, e: int)
    requires
        0 <= upto <= xs.len(),
    ensures
        interp_poly(xs, ys, m, upto).len() == xs.len(),
        poly_eval(interp_poly(xs, ys, m, upto), e) == weighted_sum(xs, ys, e, m, upto),
    decreases upto,
{
    let n = xs.len();
    if upto == 0 {
        lemma_eval_pad(Seq::<int>::empty(), n, e);
        assert(Seq::new(n, |k: int| 0) =~= Seq::new(n, |k: int| coeff(Seq::<int>::empty(), k)));
    } else {
        lemma_interp_poly(xs, ys, m, upto - 1, e);
        let prev = interp_poly(xs, ys, m, upto - 1);
        let w = lagrange_weight(xs, ys, upto - 1, m);
        let np = num_poly(xs, upto - 1, n as int);
        lemma_num_poly(xs, upto - 1, n as int, e);
        let f = |k: int| prev[k];
        let cn = |k: int| coeff(np, k);
        let g = |k: int| w * cn(k);
        crate::algebra::lemma_eval_add(n, f, g, e);
        assert(Seq::new(n, |k: int| f(k) + g(k)) =~= interp_poly(xs, ys, m, upto));
        assert(Seq::new(n, f) =~= prev);
        crate::algebra::lemma_eval_scale(n, w, cn, e);
        assert(Seq::new(n, g) =~= Seq::new(n, |k: int| w * cn(k)));
        lemma_eval_pad(np, n, e);
        assert(Seq::new(n, cn) =~= Seq::new(n, |k: int| coeff(np, k)));
    }
}

/// Lagrange's sum with one inverse per node is congruent to the weighted sum.
proof fn lemma_lagrange_sum_weighted(xs: Seq<int>, ys: Seq<int>, e: int, m: int, upto: int)
    requires
        m > 0,
    ensures
        crate::algebra::lagrange_sum(xs, ys, e, m, upto) % m == weighted_sum(xs, ys, e, m, upto)
            % m,
    decreases upto,
{
    if upto > 0 {
        let i = upto - 1;
        lemma_lagrange_sum_weighted(xs, ys, e, m, upto - 1);
        let num = lagrange_num(xs, i, e, xs.len() as int);
        let inv = inv_mod(lagrange_num(xs, i, xs[i], xs.len() as int), m);
        let t1 = ys[i] * ((num * inv) % m);
        let t2 = lagrange_weight(xs, ys, i, m) * num;
        lemma_mul_mod_noop_general(ys[i], num * inv, m);
        assert(ys[i] * (num * inv) == t2) by (nonlinear_arith)
            requires
                t2 == (ys[i] * inv) * num,
        ;
        let a1 = crate::algebra::lagrange_sum(xs, ys, e, m, upto - 1);
        let a2 = weighted_sum(xs, ys, e, m, upto - 1);
        lemma_add_mod_noop(a1, t1, m);
        lemma_add_mod_noop(a2, t2, m);
    }
}

/// At a node, the weighted sum is the value given there.
proof fn lemma_weighted_sum_at_node(xs: Seq<int>, ys: Seq<int>, k: int, m: int, upto: int)
    requires
        0 <= k < xs.len(),
        0 <= upto <= xs.len(),
    ensures
        weighted_sum(xs, ys, xs[k], m, upto) == (if k < upto {
            lagrange_weight(xs, ys, k, m) * lagrange_num(xs, k, xs[k], xs.len() as int)
        } else {
            0
        }),
    decreases upto,
{
    if upto > 0 {
        lemma_weighted_sum_at_node(xs, ys, k, m, upto - 1);
        if upto - 1 != k {
            lemma_num_zero_at_node(xs, upto - 1, k, xs.len() as int);
        }
    }
}

/// Lagrange's interpolation theorem: the values at distinct points of a
/// polynomial of degree below their number determine its value everywhere,
/// and Lagrange's formula gives it.
pub proof fn lemma_lagrange_interpolation(f: Seq<int>, xs: Seq<int>, ys: Seq<int>, e: int, m: int)
    requires
        is_prime(m),
        distinct_mod(xs, m),
        f.len() <= xs.len(),
        ys.len() == xs.len(),
        forall|k: int| 0 <= k < xs.len() ==> #[trigger] ys[k] == poly_eval(f, xs[k]) % m,
    ensures
        crate::algebra::lagrange_interp(xs, ys, e, m) == poly_eval(f, e) % m,
{
    lemma_prime_is_field(m);
    let n = xs.len();
    let l = interp_poly(xs, ys, m, n as int);
    let cl = |k: int| l[k];
    let cf = |k: int| coeff(f, k);
    let cnf = |k: int| -1 * cf(k);
    let g = Seq::new(n, |k: int| cl(k) + cnf(k));
    assert forall|x: int| #[trigger] poly_eval(g, x) == poly_eval(l, x) - poly_eval(f, x) by {
        crate::algebra::lemma_eval_add(n, cl, cnf, x);
        crate::algebra::lemma_eval_scale(n, -1, cf, x);
        lemma_interp_poly(xs, ys, m, n as int, x);
        assert(Seq::new(n, cl) =~= l);
        assert(Seq::new(n, cnf) =~= Seq::new(n, |k: int| -1 * cf(k)));
        lemma_eval_pad(f, n, x);
        assert(Seq::new(n, cf) =~= Seq::new(n, |k: int| coeff(f, k)));
    }
    assert forall|k: int| 0 <= k < n implies #[trigger] poly_eval(g, xs[k]) % m == 0 by {
        let x = xs[k];
        lemma_interp_poly(xs, ys, m, n as int, x);
        lemma_weighted_sum_at_node(xs, ys, k, m, n as int);
        let den = lagrange_num(xs, k, xs[k], n as int);
        lemma_den_nonzero(xs, k, n as int, m);
        assert(invertible(den, m));
        lemma_inv_mod(den, m);
        let inv = inv_mod(den, m);
        assert(poly_eval(l, x) == ys[k] * inv * den);
        vstd::arithmetic::mul::lemma_mul_is_commutative(inv, den);
        lemma_small_mod(1, m as nat);
        lemma_mul_congruent(ys[k], ys[k], inv * den, 1, m);
        assert(ys[k] * (inv * den) == ys[k] * inv * den) by (nonlinear_arith);
        lemma_mod_twice(poly_eval(f, x), m);
        lemma_sub_mod_noop(poly_eval(l, x), poly_eval(f, x), m);
        lemma_small_mod(0, m as nat);
    }
    lemma_roots_force_zero(g, xs, m);
    let z = Seq::new(n, |k: int| coeff(Seq::<int>::empty(), k));
    assert forall|k: int| 0 <= k < g.len() implies #[trigger] (g[k] % m) == z[k] % m by {
        lemma_small_mod(0, m as nat);
    }
    lemma_eval_congruent(g, z, e, m);
    lemma_eval_pad(Seq::<int>::empty(), n, e);
    lemma_small_mod(0, m as nat);
    lemma_interp_poly(xs, ys, m, n as int, e);
    lemma_lagrange_sum_weighted(xs, ys, e, m, n as int);
    assert(poly_eval(g, e) % m == 0);
    lemma_sub_mod_noop(poly_eval(l, e), poly_eval(f, e), m);
    lemma_diff_zero_congruent(poly_eval(l, e), poly_eval(f, e), m);
}

proof fn lemma_diff_zero_congruent(a: int, b: int, m: int)
    requires
        m > 0,
        (a - b) % m == 0,
    ensures
        a % m == b % m,
{
    lemma_add_mod_noop(a - b, b, m);
    lemma_mod_twice(b, m);
    lemma_small_mod(0, m as nat);
}

/// Points with distinct residues are usable nodes in a field.
pub proof fn lemma_nodes_ok(xs: Seq<int>, m: int)
    requires
        is_field(m),
        distinct_mod(xs, m),
    ensures
        crate::algebra::nodes_ok(xs, m),
{
    assert forall|i: int| 0 <= i < xs.len() implies #[trigger] (crate::algebra::lagrange_den(
        xs,
        i,
        xs.len() as int,
    ) % m) != 0 by {
        lemma_den_nonzero(xs, i, xs.len() as int, m);
    }
}

/// Distinct indexes below `m` are distinct field points.
pub proof fn lemma_index_points_distinct(indexes: Seq<usize>, m: int)
    requires
        m > 1,
        forall|k: int| 0 <= k < indexes.len() ==> #[trigger] indexes[k] < m,
        forall|k: int, l: int|
            0 <= k < indexes.len() && 0 <= l < indexes.len() && k != l ==> #[trigger] indexes[k]
                != #[trigger] indexes[l],
    ensures
        distinct_mod(crate::algebra::index_points(indexes, m), m),
        forall|k: int|
            0 <= k < indexes.len() ==> #[trigger] crate::algebra::index_points(indexes, m)[k]
                == indexes[k],
{
    let xs = crate::algebra::index_points(indexes, m);
    assert forall|k: int| 0 <= k < indexes.len() implies #[trigger] xs[k] == indexes[k] by {
        lemma_small_mod(indexes[k] as nat, m as nat);
    }
    assert forall|i: int, j: int|
        0 <= i < xs.len() && 0 <= j < xs.len() && i != j implies #[trigger] (xs[i] % m) != #[trigger] (
        xs[j] % m) by {
        lemma_small_mod(indexes[i] as nat, m as nat);
        lemma_small_mod(indexes[j] as nat, m as nat);
    }
}

/// The shares held by the parties at the given indexes (counted from one).
pub open spec fn picked_shares(shares: Seq<int>, indexes: Seq<usize>) -> Seq<int> {
    Seq::new(indexes.len(), |k: int| shares[indexes[k] - 1])
}

/// Sharing then recovering gives back the secret: any `t` (or more) of the
/// shares of a secret shared with threshold `t`, taken with their distinct
/// indexes, interpolate at zero to the secret.
pub proof fn lemma_share_then_recover(
    shares: Seq<int>,
    secret: int,
    t: nat,
    indexes: Seq<usize>,
    m: int,
)
    requires
        is_prime(m),
        0 <= secret < m,
        shares.len() < m,
        crate::algebra::is_sharing(shares, secret, t, m),
        indexes.len() >= t,
        indexes.len() >= 1,
        forall|k: int| 0 <= k < indexes.len() ==> 1 <= #[trigger] indexes[k] <= shares.len(),
        forall|k: int, l: int|
            0 <= k < indexes.len() && 0 <= l < indexes.len() && k != l ==> #[trigger] indexes[k]
                != #[trigger] indexes[l],
    ensures
        crate::algebra::nodes_ok(crate::algebra::index_points(indexes, m), m),
        crate::algebra::lagrange_interp(
            crate::algebra::index_points(indexes, m),
            picked_shares(shares, indexes),
            0,
            m,
        ) == secret,
{
    lemma_prime_is_field(m);
    let poly = choose|poly: Seq<int>|
        #![trigger poly.len()]
        poly.len() == (if t == 0 {
            1
        } else {
            t
        }) && poly[0] == secret && (forall|k: int| 0 <= k < poly.len() ==> 0 <= #[trigger] poly[k] < m)
            && (forall|i: int|
            0 <= i < shares.len() ==> #[trigger] shares[i] == poly_eval(poly, i + 1) % m);
    let xs = crate::algebra::index_points(indexes, m);
    let ys = picked_shares(shares, indexes);
    lemma_index_points_distinct(indexes, m);
    lemma_nodes_ok(xs, m);
    assert forall|k: int| 0 <= k < xs.len() implies #[trigger] ys[k] == poly_eval(poly, xs[k]) % m by {
        let idx = indexes[k] - 1;
        assert(shares[idx] == poly_eval(poly, idx + 1) % m);
    }
    lemma_lagrange_interpolation(poly, xs, ys, 0, m);
    assert(poly_eval(poly, 0) == poly[0] + 0 * poly_eval(poly.skip(1), 0));
    lemma_small_mod(secret as nat, m as nat);
}

pub proof fn lemma_sum_congruent(xs: Seq<int>, ys: Seq<int>, zs: Seq<int>, e: int, m: int, upto: int)
    requires
        m > 0,
        forall|i: int| 0 <= i < upto ==> #[trigger] (ys[i] % m) == zs[i] % m,
    ensures
        crate::algebra::lagrange_sum(xs, ys, e, m, upto) % m == crate::algebra::lagrange_sum(
            xs,
            zs,
            e,
            m,
            upto,
        ) % m,
    decreases upto,
{
    if upto > 0 {
        lemma_sum_congruent(xs, ys, zs, e, m, upto - 1);
        let b = crate::algebra::lagrange_basis(xs, upto - 1, e, m);
        lemma_mul_congruent(ys[upto - 1], zs[upto - 1], b, b, m);
        let s1 = crate::algebra::lagrange_sum(xs, ys, e, m, upto - 1);
        let s2 = crate::algebra::lagrange_sum(xs, zs, e, m, upto - 1);
        lemma_add_mod_noop(s1, ys[upto - 1] * b, m);
        lemma_add_mod_noop(s2, zs[upto - 1] * b, m);
    }
}

proof fn lemma_sum_linear(
    xs: Seq<int>,
    y1: Seq<int>,
    y2: Seq<int>,
    ys: Seq<int>,
    c: int,
    e: int,
    m: int,
    upto: int,
)
    requires
        forall|i: int| 0 <= i < upto ==> #[trigger] ys[i] == y1[i] + c * y2[i],
    ensures
        crate::algebra::lagrange_sum(xs, ys, e, m, upto) == crate::algebra::lagrange_sum(
            xs,
            y1,
            e,
            m,
            upto,
        ) + c * crate::algebra::lagrange_sum(xs, y2, e, m, upto),
    decreases upto,
{
    if upto > 0 {
        lemma_sum_linear(xs, y1, y2, ys, c, e, m, upto - 1);
        let b = crate::algebra::lagrange_basis(xs, upto - 1, e, m);
        let s1 = crate::algebra::lagrange_sum(xs, y1, e, m, upto - 1);
        let s2 = crate::algebra::lagrange_sum(xs, y2, e, m, upto - 1);
        let a1 = y1[upto - 1];
        let a2 = y2[upto - 1];
        assert((a1 + c * a2) * b == a1 * b + c * (a2 * b)) by (nonlinear_arith);
        assert(c * (s2 + a2 * b) == c * s2 + c * (a2 * b)) by (nonlinear_arith);
    }
}

/// Recovery is linear: interpolating, at the same points, the shares
/// `(y1_i + c * y2_i) mod m` gives `interp(y1) + c * interp(y2)` modulo `m`.
/// So the sum of two sharings recovers to the sum of their secrets, and a
/// sharing scaled by a public `c` to the secret scaled by `c`.
pub proof fn lemma_interp_linear(xs: Seq<int>, y1: Seq<int>, y2: Seq<int>, c: int, e: int, m: int)
    requires
        m > 0,
        y1.len() == xs.len(),
        y2.len() == xs.len(),
    ensures
        crate::algebra::lagrange_interp(
            xs,
            Seq::new(xs.len(), |i: int| (y1[i] + c * y2[i]) % m),
            e,
            m,
        ) == (crate::algebra::lagrange_interp(xs, y1, e, m) + c * crate::algebra::lagrange_interp(
            xs,
            y2,
            e,
            m,
        )) % m,
{
    let n = xs.len() as int;
    let ys = Seq::new(xs.len(), |i: int| (y1[i] + c * y2[i]) % m);
    let zs = Seq::new(xs.len(), |i: int| y1[i] + c * y2[i]);
    assert forall|i: int| 0 <= i < n implies #[trigger] (ys[i] % m) == zs[i] % m by {
        lemma_mod_twice(zs[i], m);
    }
    lemma_sum_congruent(xs, ys, zs, e, m, n);
    lemma_sum_linear(xs, y1, y2, zs, c, e, m, n);
    let s1 = crate::algebra::lagrange_sum(xs, y1, e, m, n);
    let s2 = crate::algebra::lagrange_sum(xs, y2, e, m, n);
    lemma_add_mod_noop(s1, c * s2, m);
    vstd::arithmetic::div_mod::lemma_mul_mod_noop_right(c, s2, m);
    lemma_add_mod_noop(s1 % m, c * (s2 % m), m);
    lemma_mod_twice(s1, m);
}

/// Public constants pass through recovery: shares that all hold the
/// constant `d` interpolate, at every point, to `d` modulo a prime `m`.
pub proof fn lemma_interp_constant(xs: Seq<int>, d: int, e: int, m: int)
    requires
        is_prime(m),
        distinct_mod(xs, m),
        xs.len() >= 1,
    ensures
        crate::algebra::lagrange_interp(xs, Seq::new(xs.len(), |i: int| d % m), e, m) == d % m,
{
    let f = seq![d % m];
    assert forall|x: int| #[trigger] poly_eval(f, x) == d % m by {
        assert(f.skip(1).len() == 0);
        assert(poly_eval(f.skip(1), x) == 0);
    }
    let ys = Seq::new(xs.len(), |i: int| d % m);
    assert forall|k: int| 0 <= k < xs.len() implies #[trigger] ys[k] == poly_eval(f, xs[k]) % m by {
        assert(poly_eval(f, xs[k]) == d % m);
        lemma_mod_twice(d, m);
    }
    lemma_lagrange_interpolation(f, xs, ys, e, m);
    assert(poly_eval(f, e) == d % m);
    lemma_mod_twice(d, m);
}

/// The masked shares `x_i - alpha_i` that a worker broadcasts.
pub open spec fn masked_shares(x_sh: Seq<int>, a_sh: Seq<int>, m: int) -> Seq<int> {
    Seq::new(x_sh.len(), |i: int| (x_sh[i] - a_sh[i]) % m)
}

/// Every worker's share of a Beaver product, given the opened values.
pub open spec fn beaver_shares(
    d: int,
    e: int,
    a_sh: Seq<int>,
    b_sh: Seq<int>,
    g_sh: Seq<int>,
    m: int,
) -> Seq<int> {
    Seq::new(
        a_sh.len(),
        |i: int| crate::algebra::beaver_product(d, e, a_sh[i], b_sh[i], g_sh[i], m),
    )
}

/// Beaver multiplication is correct: when the workers hold shares of `x`,
/// `y` and of a triple `(alpha, beta, alpha * beta)`, open `d = x - alpha`
/// and `e = y - beta` from their masked shares, and each combine
/// `gamma_i + d * beta_i + e * alpha_i + d * e`, their results are shares
/// of `x * y`.
pub proof fn lemma_beaver_multiplication(
    xs: Seq<int>,
    x_sh: Seq<int>,
    y_sh: Seq<int>,
    a_sh: Seq<int>,
    b_sh: Seq<int>,
    g_sh: Seq<int>,
    m: int,
)
    requires
        is_prime(m),
        distinct_mod(xs, m),
        xs.len() >= 1,
        x_sh.len() == xs.len(),
        y_sh.len() == xs.len(),
        a_sh.len() == xs.len(),
        b_sh.len() == xs.len(),
        g_sh.len() == xs.len(),
        crate::algebra::lagrange_interp(xs, g_sh, 0, m) == (crate::algebra::lagrange_interp(
            xs,
            a_sh,
            0,
            m,
        ) * crate::algebra::lagrange_interp(xs, b_sh, 0, m)) % m,
    ensures
        ({
            let d = crate::algebra::lagrange_interp(xs, masked_shares(x_sh, a_sh, m), 0, m);
            let e = crate::algebra::lagrange_interp(xs, masked_shares(y_sh, b_sh, m), 0, m);
            crate::algebra::lagrange_interp(xs, beaver_shares(d, e, a_sh, b_sh, g_sh, m), 0, m)
                == (crate::algebra::lagrange_interp(xs, x_sh, 0, m)
                * crate::algebra::lagrange_interp(xs, y_sh, 0, m)) % m
        }),
{
    lemma_prime_is_field(m);
    let n = xs.len() as int;
    let sum = |ys: Seq<int>| crate::algebra::lagrange_sum(xs, ys, 0, m, n);
    let ma = masked_shares(x_sh, a_sh, m);
    let mb = masked_shares(y_sh, b_sh, m);
    // Opening the masked shares gives x - alpha and y - beta.
    let dx = Seq::new(xs.len(), |i: int| x_sh[i] + (-1) * a_sh[i]);
    let dy = Seq::new(xs.len(), |i: int| y_sh[i] + (-1) * b_sh[i]);
    lemma_sum_linear(xs, x_sh, a_sh, dx, -1, 0, m, n);
    lemma_sum_linear(xs, y_sh, b_sh, dy, -1, 0, m, n);
    assert forall|i: int| 0 <= i < n implies #[trigger] (ma[i] % m) == dx[i] % m by {
        lemma_mod_twice(x_sh[i] - a_sh[i], m);
    }
    assert forall|i: int| 0 <= i < n implies #[trigger] (mb[i] % m) == dy[i] % m by {
        lemma_mod_twice(y_sh[i] - b_sh[i], m);
    }
    lemma_sum_congruent(xs, ma, dx, 0, m, n);
    lemma_sum_congruent(xs, mb, dy, 0, m, n);
    let xv = sum(x_sh) % m;
    let yv = sum(y_sh) % m;
    let av = sum(a_sh) % m;
    let bv = sum(b_sh) % m;
    let gv = sum(g_sh) % m;
    let d = sum(ma) % m;
    let e = sum(mb) % m;
    lemma_sub_mod_noop(sum(x_sh), sum(a_sh), m);
    lemma_sub_mod_noop(sum(y_sh), sum(b_sh), m);
    assert(d == (xv - av) % m);
    assert(e == (yv - bv) % m);
    // The combined shares are an affine combination of the triple shares.
    let ones = Seq::new(xs.len(), |i: int| 1int);
    let u1 = Seq::new(xs.len(), |i: int| g_sh[i] + d * b_sh[i]);
    let u2 = Seq::new(xs.len(), |i: int| u1[i] + e * a_sh[i]);
    let u3 = Seq::new(xs.len(), |i: int| u2[i] + (d * e) * ones[i]);
    lemma_sum_linear(xs, g_sh, b_sh, u1, d, 0, m, n);
    lemma_sum_linear(xs, u1, a_sh, u2, e, 0, m, n);
    lemma_sum_linear(xs, u2, ones, u3, d * e, 0, m, n);
    let z = beaver_shares(d, e, a_sh, b_sh, g_sh, m);
    assert forall|i: int| 0 <= i < n implies #[trigger] (z[i] % m) == u3[i] % m by {
        lemma_mod_twice(g_sh[i] + d * b_sh[i] + e * a_sh[i] + d * e, m);
    }
    lemma_sum_congruent(xs, z, u3, 0, m, n);
    // The constant one interpolates to one.
    assert forall|k: int| 0 <= k < xs.len() implies #[trigger] ones[k] == poly_eval(seq![1int], xs[k])
        % m by {
        assert(seq![1int].skip(1).len() == 0);
        assert(poly_eval(seq![1int].skip(1), xs[k]) == 0);
        lemma_small_mod(1, m as nat);
    }
    lemma_lagrange_interpolation(seq![1int], xs, ones, 0, m);
    assert(seq![1int].skip(1).len() == 0);
    assert(poly_eval(seq![1int].skip(1), 0) == 0);
    lemma_small_mod(1, m as nat);
    assert(sum(ones) % m == 1);
    // Reduce every term and apply Beaver's identity.
    let sg = sum(g_sh);
    let sb = sum(b_sh);
    let sa = sum(a_sh);
    let s1 = sum(ones);
    lemma_mod_twice(sg, m);
    lemma_mod_twice(sb, m);
    lemma_mod_twice(sa, m);
    lemma_mul_congruent(d, d, sb, bv, m);
    lemma_mul_congruent(e, e, sa, av, m);
    lemma_mul_congruent(d * e, d * e, s1, 1, m);
    let t1 = sg + d * sb;
    let t2 = t1 + e * sa;
    let t3 = t2 + (d * e) * s1;
    lemma_add_mod_noop(sg, d * sb, m);
    lemma_add_mod_noop(gv, d * bv, m);
    assert(t1 % m == (gv + d * bv) % m);
    lemma_add_mod_noop(t1, e * sa, m);
    lemma_add_mod_noop(gv + d * bv, e * av, m);
    assert(t2 % m == (gv + d * bv + e * av) % m);
    lemma_add_mod_noop(t2, (d * e) * s1, m);
    lemma_add_mod_noop(gv + d * bv + e * av, (d * e) * 1, m);
    assert(t3 % m == (gv + d * bv + e * av + d * e) % m);
    crate::algebra::lemma_beaver_identity(xv, yv, av, bv, m);
}

proof fn lemma_factors_other_node(xs: Seq<int>, i: int, k: int, m: int, upto: int)
    requires
        0 <= k < upto,
        k != i,
    ensures
        crate::algebra::lagrange_factors(xs, i, xs[k], m, upto) == 0,
    decreases upto,
{
    if upto - 1 != k {
        lemma_factors_other_node(xs, i, k, m, upto - 1);
    } else {
        let prev = crate::algebra::lagrange_factors(xs, i, xs[k], m, upto - 1);
        let inv = inv_mod(xs[i] - xs[upto - 1], m);
        assert((xs[k] - xs[upto - 1]) * inv == 0);
        assert(prev * ((xs[k] - xs[upto - 1]) * inv) == 0);
    }
}

proof fn lemma_factors_own_node(xs: Seq<int>, i: int, m: int, upto: int)
    requires
        is_field(m),
        distinct_mod(xs, m),
        0 <= i < xs.len(),
        upto <= xs.len(),
    ensures
        crate::algebra::lagrange_factors(xs, i, xs[i], m, upto) % m == 1,
    decreases upto,
{
    lemma_small_mod(1, m as nat);
    if upto > 0 {
        lemma_factors_own_node(xs, i, m, upto - 1);
        if upto - 1 != i {
            let d = xs[i] - xs[upto - 1];
            lemma_diff_nonzero(xs[i], xs[upto - 1], m);
            assert(invertible(d, m));
            lemma_inv_mod(d, m);
            let prev = crate::algebra::lagrange_factors(xs, i, xs[i], m, upto - 1);
            lemma_mul_congruent(prev, 1, d * inv_mod(d, m), 1, m);
        }
    }
}

proof fn lemma_factor_sum_at_node(xs: Seq<int>, ys: Seq<int>, k: int, m: int, upto: int)
    requires
        0 <= k < xs.len(),
        0 <= upto <= xs.len(),
    ensures
        crate::algebra::lagrange_factor_sum(xs, ys, xs[k], m, upto) == (if k < upto {
            ys[k] * crate::algebra::lagrange_factors(xs, k, xs[k], m, xs.len() as int)
        } else {
            0
        }),
    decreases upto,
{
    if upto > 0 {
        lemma_factor_sum_at_node(xs, ys, k, m, upto - 1);
        if upto - 1 != k {
            lemma_factors_other_node(xs, upto - 1, k, m, xs.len() as int);
        }
    }
}

/// The points `1 ..= n` are distinct below the modulus.
pub proof fn lemma_share_points_distinct(n: nat, m: int)
    requires
        n < m,
    ensures
        distinct_mod(crate::algebra::share_points(n), m),
{
    let xs = crate::algebra::share_points(n);
    assert forall|i: int, j: int|
        0 <= i < xs.len() && 0 <= j < xs.len() && i != j implies #[trigger] (xs[i] % m) != #[trigger] (
        xs[j] % m) by {
        lemma_small_mod((i + 1) as nat, m as nat);
        lemma_small_mod((j + 1) as nat, m as nat);
    }
}

/// Interpolation undoes evaluation: coefficients in `0 .. m` that take, at
/// every point `1 ..= n`, the values of Lagrange's formula for the values of
/// `f` there, are the coefficients of `f` (padded with zeros to `n`), for
/// `f` of degree below `n`.
pub proof fn lemma_interpolate_evaluations(f: Seq<int>, ys: Seq<int>, p: Seq<int>, n: nat, m: int)
    requires
        is_prime(m),
        n < m,
        f.len() <= n,
        forall|k: int| 0 <= k < f.len() ==> 0 <= #[trigger] f[k] < m,
        ys.len() == n,
        forall|k: int| 0 <= k < n ==> #[trigger] ys[k] == poly_eval(f, k + 1) % m,
        p.len() == n,
        forall|k: int| 0 <= k < n ==> 0 <= #[trigger] p[k] < m,
        forall|e: int|
            #![trigger poly_eval(p, e)]
            poly_eval(p, e) % m == crate::algebra::lagrange_factor_sum(
                crate::algebra::share_points(n),
                ys,
                e,
                m,
                n as int,
            ) % m,
    ensures
        p == Seq::new(n, |k: int| coeff(f, k)),
{
    lemma_prime_is_field(m);
    let xs = crate::algebra::share_points(n);
    lemma_share_points_distinct(n, m);
    let cp = |k: int| p[k];
    let cf = |k: int| coeff(f, k);
    let cnf = |k: int| -1 * cf(k);
    let g = Seq::new(n, |k: int| cp(k) + cnf(k));
    assert forall|x: int| #[trigger] poly_eval(g, x) == poly_eval(p, x) - poly_eval(f, x) by {
        crate::algebra::lemma_eval_add(n, cp, cnf, x);
        crate::algebra::lemma_eval_scale(n, -1, cf, x);
        assert(Seq::new(n, cp) =~= p);
        assert(Seq::new(n, cnf) =~= Seq::new(n, |k: int| -1 * cf(k)));
        lemma_eval_pad(f, n, x);
        assert(Seq::new(n, cf) =~= Seq::new(n, |k: int| coeff(f, k)));
    }
    assert forall|k: int| 0 <= k < n implies #[trigger] poly_eval(g, xs[k]) % m == 0 by {
        let x = xs[k];
        assert(x == k + 1);
        lemma_factor_sum_at_node(xs, ys, k, m, n as int);
        lemma_factors_own_node(xs, k, m, n as int);
        let fk = crate::algebra::lagrange_factors(xs, k, x, m, n as int);
        lemma_small_mod(1, m as nat);
        lemma_mul_congruent(ys[k], ys[k], fk, 1, m);
        lemma_mod_twice(poly_eval(f, x), m);
        assert(poly_eval(p, x) % m == poly_eval(f, x) % m);
        lemma_sub_mod_noop(poly_eval(p, x), poly_eval(f, x), m);
        lemma_small_mod(0, m as nat);
    }
    lemma_roots_force_zero(g, xs, m);
    assert forall|k: int| 0 <= k < n implies #[trigger] p[k] == coeff(f, k) by {
        assert(g[k] % m == 0);
        assert(g[k] == p[k] - coeff(f, k));
        lemma_diff_zero_congruent(p[k], coeff(f, k), m);
        lemma_small_mod(p[k] as nat, m as nat);
        if k < f.len() {
            lemma_small_mod(f[k] as nat, m as nat);
        } else {
            lemma_small_mod(0, m as nat);
        }
    }
    assert(p =~= Seq::new(n, |k: int| coeff(f, k)));
}

/// Multiplying polynomials point by point: interpolating, at `n` points,
/// the products of the values of `a` and `b` gives the coefficients of
/// `a * b`, padded with zeros to `n`, when `n` is at least its number of
/// coefficients; at exactly that number, `a * b` itself.
pub proof fn lemma_interpolate_products(a: Seq<int>, b: Seq<int>, ys: Seq<int>, p: Seq<int>, m: int)
    requires
        is_prime(m),
        a.len() >= 1,
        b.len() >= 1,
        ys.len() < m,
        ys.len() >= a.len() + b.len() - 1,
        forall|k: int|
            0 <= k < ys.len() ==> #[trigger] ys[k] == (poly_eval(a, k + 1) * poly_eval(b, k + 1)) % m,
        p.len() == ys.len(),
        forall|k: int| 0 <= k < p.len() ==> 0 <= #[trigger] p[k] < m,
        forall|e: int|
            #![trigger poly_eval(p, e)]
            poly_eval(p, e) % m == crate::algebra::lagrange_factor_sum(
                crate::algebra::share_points(ys.len()),
                ys,
                e,
                m,
                ys.len() as int,
            ) % m,
    ensures
        p == Seq::new(ys.len(), |k: int| coeff(crate::algebra::poly_mul(a, b, m), k)),
        ys.len() == a.len() + b.len() - 1 ==> p == crate::algebra::poly_mul(a, b, m),
{
    lemma_prime_is_field(m);
    let f = crate::algebra::poly_mul(a, b, m);
    let n = ys.len();
    assert forall|k: int| 0 <= k < n implies #[trigger] ys[k] == poly_eval(f, k + 1) % m by {
        crate::algebra::lemma_eval_poly_mul(a, b, k + 1, m);
    }
    assert forall|k: int| 0 <= k < f.len() implies 0 <= #[trigger] f[k] < m by {
    }
    lemma_interpolate_evaluations(f, ys, p, n, m);
    if n == a.len() + b.len() - 1 {
        assert(Seq::new(n, |k: int| coeff(f, k)) =~= f);
    }
}

/// Interpolation takes the given values: coefficients whose polynomial
/// agrees everywhere with Lagrange's formula for the values `ys` at the
/// points `1 ..= n` take the value `ys[k]` at `k + 1`.
pub proof fn lemma_interpolation_takes_values(ys: Seq<int>, p: Seq<int>, m: int)
    requires
        is_prime(m),
        ys.len() < m,
        forall|e: int|
            #![trigger poly_eval(p, e)]
            poly_eval(p, e) % m == crate::algebra::lagrange_factor_sum(
                crate::algebra::share_points(ys.len()),
                ys,
                e,
                m,
                ys.len() as int,
            ) % m,
    ensures
        forall|k: int| 0 <= k < ys.len() ==> #[trigger] poly_eval(p, k + 1) % m == ys[k] % m,
{
    lemma_prime_is_field(m);
    let n = ys.len();
    let xs = crate::algebra::share_points(n);
    lemma_share_points_distinct(n, m);
    assert forall|k: int| 0 <= k < n implies #[trigger] poly_eval(p, k + 1) % m == ys[k] % m by {
        let x = xs[k];
        assert(x == k + 1);
        assert(poly_eval(p, x) % m == crate::algebra::lagrange_factor_sum(xs, ys, x, m, n as int)
            % m);
        lemma_factor_sum_at_node(xs, ys, k, m, n as int);
        lemma_factors_own_node(xs, k, m, n as int);
        let fk = crate::algebra::lagrange_factors(xs, k, x, m, n as int);
        lemma_small_mod(1, m as nat);
        lemma_mul_congruent(ys[k], ys[k], fk, 1, m);
    }
}
/// The workers' Lagrange sum of zeros is zero.
proof fn lemma_sum_zero(xs: Seq<int>, zs: Seq<int>, e: int, m: int, upto: int)
    requires
        forall|j: int| 0 <= j < upto ==> #[trigger] zs[j] == 0,
    ensures
        crate::algebra::lagrange_sum(xs, zs, e, m, upto) == 0,
    decreases upto,
{
    if upto > 0 {
        lemma_sum_zero(xs, zs, e, m, upto - 1);
        assert(zs[upto - 1] == 0);
    }
}

/// Recovery commutes with evaluation: the Lagrange sum over the parties of
/// the values at `x` of their polynomials `ps[j]` (all of `l` coefficients)
/// is the value at `x` of the polynomial of the Lagrange sums of their
/// coefficients.
pub proof fn lemma_sum_of_evals(xs: Seq<int>, ps: Seq<Seq<int>>, l: nat, x: int, e: int, m: int, k: int)
    requires
        0 <= k <= ps.len(),
        forall|j: int| 0 <= j < ps.len() ==> (#[trigger] ps[j]).len() == l,
    ensures
        crate::algebra::lagrange_sum(xs, Seq::new(ps.len(), |j: int| poly_eval(ps[j], x)), e, m, k)
            == poly_eval(
            Seq::new(l, |c: int| crate::algebra::lagrange_sum(xs, Seq::new(ps.len(), |j: int| ps[j][c]), e, m, k)),
            x,
        ),
    decreases l,
{
    let ev = Seq::new(ps.len(), |j: int| poly_eval(ps[j], x));
    let s = Seq::new(l, |c: int| crate::algebra::lagrange_sum(xs, Seq::new(ps.len(), |j: int| ps[j][c]), e, m, k));
    if l == 0 {
        assert forall|j: int| 0 <= j < k implies #[trigger] ev[j] == 0 by {
            assert(ps[j].len() == 0);
        }
        lemma_sum_zero(xs, ev, e, m, k);
    } else {
        let tails = Seq::new(ps.len(), |j: int| ps[j].skip(1));
        assert forall|j: int| 0 <= j < tails.len() implies (#[trigger] tails[j]).len() == (l - 1) as nat by {
            assert(ps[j].len() == l);
        }
        lemma_sum_of_evals(xs, tails, (l - 1) as nat, x, e, m, k);
        let heads = Seq::new(ps.len(), |j: int| ps[j][0]);
        let tail_ev = Seq::new(tails.len(), |j: int| poly_eval(tails[j], x));
        assert forall|j: int| 0 <= j < k implies #[trigger] ev[j] == heads[j] + x * tail_ev[j] by {
            assert(ps[j].len() == l);
        }
        lemma_sum_linear(xs, heads, tail_ev, ev, x, e, m, k);
        let st = Seq::new((l - 1) as nat, |c: int| crate::algebra::lagrange_sum(xs, Seq::new(tails.len(), |j: int| tails[j][c]), e, m, k));
        assert forall|c: int| 0 <= c < l - 1 implies #[trigger] s.skip(1)[c] == st[c] by {
            assert(Seq::new(ps.len(), |j: int| ps[j][c + 1]) =~= Seq::new(tails.len(), |j: int| tails[j][c]));
        }
        assert(s.skip(1) =~= st);
        assert(Seq::new(ps.len(), |j: int| ps[j][0]) =~= heads);
    }
}

/// Recovery commutes with Lagrange's formula at the points: the Lagrange
/// sum over the parties of `lagrange_factor_sum(points, ys[j], ..)` is
/// `lagrange_factor_sum` of the parties' Lagrange sums at each point.
pub proof fn lemma_sum_of_factor_sums(
    xs: Seq<int>,
    points: Seq<int>,
    ys: Seq<Seq<int>>,
    e: int,
    m: int,
    k: int,
    u: int,
)
    requires
        0 <= k <= ys.len(),
        0 <= u <= points.len(),
    ensures
        crate::algebra::lagrange_sum(
            xs,
            Seq::new(ys.len(), |j: int| crate::algebra::lagrange_factor_sum(points, ys[j], e, m, u)),
            0,
            m,
            k,
        ) == crate::algebra::lagrange_factor_sum(
            points,
            Seq::new(
                points.len(),
                |i: int| crate::algebra::lagrange_sum(xs, Seq::new(ys.len(), |j: int| ys[j][i]), 0, m, k),
            ),
            e,
            m,
            u,
        ),
    decreases u,
{
    let lhs_terms = Seq::new(ys.len(), |j: int| crate::algebra::lagrange_factor_sum(points, ys[j], e, m, u));
    let sy = Seq::new(
        points.len(),
        |i: int| crate::algebra::lagrange_sum(xs, Seq::new(ys.len(), |j: int| ys[j][i]), 0, m, k),
    );
    if u == 0 {
        lemma_sum_zero(xs, lhs_terms, 0, m, k);
    } else {
        lemma_sum_of_factor_sums(xs, points, ys, e, m, k, u - 1);
        let prev = Seq::new(ys.len(), |j: int| crate::algebra::lagrange_factor_sum(points, ys[j], e, m, u - 1));
        let col = Seq::new(ys.len(), |j: int| ys[j][u - 1]);
        let f = crate::algebra::lagrange_factors(points, u - 1, e, m, points.len() as int);
        assert forall|j: int| 0 <= j < k implies #[trigger] lhs_terms[j] == prev[j] + f * col[j] by {
            vstd::arithmetic::mul::lemma_mul_is_commutative(ys[j][u - 1], f);
        }
        lemma_sum_linear(xs, prev, col, lhs_terms, f, 0, m, k);
        let sc = crate::algebra::lagrange_sum(xs, col, 0, m, k);
        vstd::arithmetic::mul::lemma_mul_is_commutative(sc, f);
        assert(sy[u - 1] == sc);
    }
}

/// Lagrange's formula at the points only sees its values modulo `m`.
pub proof fn lemma_factor_sum_congruent(points: Seq<int>, ys: Seq<int>, zs: Seq<int>, e: int, m: int, u: int)
    requires
        m > 0,
        forall|i: int| 0 <= i < u ==> #[trigger] (ys[i] % m) == zs[i] % m,
    ensures
        crate::algebra::lagrange_factor_sum(points, ys, e, m, u) % m
            == crate::algebra::lagrange_factor_sum(points, zs, e, m, u) % m,
    decreases u,
{
    if u > 0 {
        lemma_factor_sum_congruent(points, ys, zs, e, m, u - 1);
        let f = crate::algebra::lagrange_factors(points, u - 1, e, m, points.len() as int);
        lemma_mul_congruent(ys[u - 1], zs[u - 1], f, f, m);
        let s1 = crate::algebra::lagrange_factor_sum(points, ys, e, m, u - 1);
        let s2 = crate::algebra::lagrange_factor_sum(points, zs, e, m, u - 1);
        lemma_add_mod_noop(s1, ys[u - 1] * f, m);
        lemma_add_mod_noop(s2, zs[u - 1] * f, m);
    }
}

} // verus!
