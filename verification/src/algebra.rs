//! The mathematical model: integers modulo `m`, polynomials as coefficient
//! sequences (lowest degree first), and the lemmas that relate them.
use vstd::arithmetic::div_mod::*;
use vstd::arithmetic::mul::*;
use vstd::prelude::*;

use crate::FiniteField;

verus! {

/// `x` has a multiplicative inverse modulo `m`.
pub open spec fn invertible(x: int, m: int) -> bool {
    exists|y: int| 0 <= y < m && #[trigger] ((x * y) % m) == 1
}

/// The inverse of `x` modulo `m` in `0 .. m`, or `0` where there is none.
pub open spec fn inv_mod(x: int, m: int) -> int {
    if invertible(x, m) {
        choose|y: int| 0 <= y < m && #[trigger] ((x * y) % m) == 1
    } else {
        0
    }
}

/// The canonical representatives of a sequence of field elements.
pub open spec fn vals<T: FiniteField>(s: Seq<T>) -> Seq<int> {
    s.map_values(|x: T| x.value())
}

/// The value at `x` of the polynomial with coefficients `c`, lowest first.
pub open spec fn poly_eval(c: Seq<int>, x: int) -> int
    decreases c.len(),
{
    if c.len() == 0 {
        0
    } else {
        c[0] + x * poly_eval(c.skip(1), x)
    }
}

/// The coefficient of degree `i` of `c`, zero beyond its length.
pub open spec fn coeff(c: Seq<int>, i: int) -> int {
    if 0 <= i < c.len() {
        c[i]
    } else {
        0
    }
}

/// `sum_{i < upto} a[i] * b[k - i]`: the part of the coefficient of degree
/// `k` of the product `a * b` that comes from the first `upto` terms of `a`.
pub open spec fn mul_coeff(a: Seq<int>, b: Seq<int>, k: int, upto: int) -> int
    decreases upto,
{
    if upto <= 0 {
        0
    } else {
        mul_coeff(a, b, k, upto - 1) + coeff(a, upto - 1) * coeff(b, k - (upto - 1))
    }
}

/// The coefficients of the product of two polynomials, reduced modulo `m`.
pub open spec fn poly_mul(a: Seq<int>, b: Seq<int>, m: int) -> Seq<int> {
    Seq::new(
        (a.len() + b.len() - 1) as nat,
        |k: int| mul_coeff(a, b, k, a.len() as int) % m,
    )
}

/// The coefficients of the sum of two polynomials, reduced modulo `m`.
pub open spec fn poly_add(a: Seq<int>, b: Seq<int>, m: int) -> Seq<int> {
    Seq::new(
        if a.len() >= b.len() {
            a.len()
        } else {
            b.len()
        },
        |k: int| (coeff(a, k) + coeff(b, k)) % m,
    )
}

/// `prod_{j < upto, j != i} (e - xs[j])`: the numerator of the Lagrange
/// basis polynomial of node `i`, taken at `e`.
pub open spec fn lagrange_num(xs: Seq<int>, i: int, e: int, upto: int) -> int
    decreases upto,
{
    if upto <= 0 {
        1
    } else if upto - 1 == i {
        lagrange_num(xs, i, e, upto - 1)
    } else {
        lagrange_num(xs, i, e, upto - 1) * (e - xs[upto - 1])
    }
}

/// `prod_{j < upto, j != i} (xs[i] - xs[j])`: the denominator of the
/// Lagrange basis polynomial of node `i`.
pub open spec fn lagrange_den(xs: Seq<int>, i: int, upto: int) -> int {
    lagrange_num(xs, i, xs[i], upto)
}

/// The Lagrange basis polynomial of node `i` among `xs`, taken at `e`, modulo `m`.
pub open spec fn lagrange_basis(xs: Seq<int>, i: int, e: int, m: int) -> int {
    (lagrange_num(xs, i, e, xs.len() as int) * inv_mod(
        lagrange_den(xs, i, xs.len() as int),
        m,
    )) % m
}

/// `sum_{i < upto} ys[i] * L_i(e)`.
pub open spec fn lagrange_sum(xs: Seq<int>, ys: Seq<int>, e: int, m: int, upto: int) -> int
    decreases upto,
{
    if upto <= 0 {
        0
    } else {
        lagrange_sum(xs, ys, e, m, upto - 1) + ys[upto - 1] * lagrange_basis(xs, upto - 1, e, m)
    }
}

/// The value at `e` of the polynomial of degree below `xs.len()` that takes
/// the value `ys[i]` at `xs[i]` (Lagrange's formula), modulo `m`.
pub open spec fn lagrange_interp(xs: Seq<int>, ys: Seq<int>, e: int, m: int) -> int {
    lagrange_sum(xs, ys, e, m, xs.len() as int) % m
}

/// The points `1, 2, ..., n` at which shares are taken.
pub open spec fn share_points(n: nat) -> Seq<int> {
    Seq::new(n, |k: int| k + 1)
}

/// `prod_{j < upto, j != i} (e - xs[j]) * (xs[i] - xs[j])^-1`: the Lagrange
/// basis polynomial of node `i` at `e`, with one inverse per factor.
pub open spec fn lagrange_factors(xs: Seq<int>, i: int, e: int, m: int, upto: int) -> int
    decreases upto,
{
    if upto <= 0 {
        1
    } else if upto - 1 == i {
        lagrange_factors(xs, i, e, m, upto - 1)
    } else {
        lagrange_factors(xs, i, e, m, upto - 1) * ((e - xs[upto - 1]) * inv_mod(
            xs[i] - xs[upto - 1],
            m,
        ))
    }
}

/// `sum_{i < upto} ys[i] * prod_{j != i} (e - xs[j]) * (xs[i] - xs[j])^-1`.
pub open spec fn lagrange_factor_sum(
    xs: Seq<int>,
    ys: Seq<int>,
    e: int,
    m: int,
    upto: int,
) -> int
    decreases upto,
{
    if upto <= 0 {
        0
    } else {
        lagrange_factor_sum(xs, ys, e, m, upto - 1) + ys[upto - 1] * lagrange_factors(
            xs,
            upto - 1,
            e,
            m,
            xs.len() as int,
        )
    }
}

/// A worker's share of a Beaver product: `gamma + d * beta + e * alpha + d * e`
/// modulo `m`, where `(d, e)` are the opened masked values.
pub open spec fn beaver_product(d: int, e: int, alpha: int, beta: int, gamma: int, m: int) -> int {
    (gamma + d * beta + e * alpha + d * e) % m
}

/// The field points of the share indexes.
pub open spec fn index_points(indexes: Seq<usize>, m: int) -> Seq<int> {
    indexes.map_values(|i: usize| i as int % m)
}

/// `shares` are the values at `1, 2, ...` of a polynomial with coefficients
/// in `0 .. m`, of degree below `t` (a constant where `t` is zero), whose
/// constant term is `secret`.
pub open spec fn is_sharing(shares: Seq<int>, secret: int, t: nat, m: int) -> bool {
    exists|poly: Seq<int>|
        #![trigger poly.len()]
        poly.len() == (if t == 0 {
            1
        } else {
            t
        }) && poly[0] == secret && (forall|k: int| 0 <= k < poly.len() ==> 0 <= #[trigger] poly[k] < m)
            && (forall|i: int|
            0 <= i < shares.len() ==> #[trigger] shares[i] == poly_eval(poly, i + 1) % m)
}

/// The nodes of a Lagrange interpolation can be used: they are pairwise
/// distinct modulo `m` and every denominator is invertible.
pub open spec fn nodes_ok(xs: Seq<int>, m: int) -> bool {
    &&& forall|i: int, j: int|
        0 <= i < xs.len() && 0 <= j < xs.len() && i != j ==> #[trigger] (xs[i] % m) != #[trigger] (
        xs[j] % m)
    &&& forall|i: int|
        0 <= i < xs.len() ==> #[trigger] (lagrange_den(xs, i, xs.len() as int) % m) != 0
}

/// The inverse found for `x` is one.
pub proof fn lemma_inv_mod(x: int, m: int)
    requires
        m > 1,
        invertible(x, m),
    ensures
        0 <= inv_mod(x, m) < m,
        (x * inv_mod(x, m)) % m == 1,
{
}

/// An inverse modulo `m` is unique among `0 .. m`.
pub proof fn lemma_inv_unique(x: int, y: int, m: int)
    requires
        m > 1,
        0 <= y < m,
        (x * y) % m == 1,
    ensures
        invertible(x, m),
        inv_mod(x, m) == y,
{
    assert(invertible(x, m));
    let z = inv_mod(x, m);
    lemma_mul_mod_noop_right(y, x * z, m);
    assert((y * (x * z)) % m == (y * 1) % m);
    lemma_small_mod(y as nat, m as nat);
    lemma_mul_is_associative(y, x, z);
    lemma_mul_is_commutative(y, x);
    assert(y * (x * z) == (x * y) * z);
    lemma_mul_mod_noop_left(x * y, z, m);
    assert(((x * y) * z) % m == (1 * z) % m);
    lemma_small_mod(z as nat, m as nat);
}

/// One Horner step computed on reduced values gives the reduced value.
pub proof fn lemma_horner_step(a: int, x: int, c: int, m: int)
    requires
        m > 0,
    ensures
        ((a % m) * x + c) % m == (c + x * a) % m,
{
    lemma_mul_mod_noop_left(a, x, m);
    lemma_add_mod_noop((a % m) * x, c, m);
    lemma_add_mod_noop(a * x, c, m);
    lemma_mul_is_commutative(a, x);
}

/// The inverse modulo `m` depends only on the residue.
pub proof fn lemma_inv_mod_residue(x: int, m: int)
    requires
        m > 1,
    ensures
        inv_mod(x % m, m) == inv_mod(x, m),
{
    if invertible(x, m) {
        let y = inv_mod(x, m);
        lemma_mul_mod_noop_left(x, y, m);
        lemma_inv_unique(x % m, y, m);
    } else if invertible(x % m, m) {
        let y = inv_mod(x % m, m);
        lemma_mul_mod_noop_left(x, y, m);
        lemma_inv_unique(x, y, m);
    }
}

/// Polynomial values are congruent at congruent points.
pub proof fn lemma_poly_eval_mod(c: Seq<int>, x: int, y: int, m: int)
    requires
        m > 0,
        x % m == y % m,
    ensures
        poly_eval(c, x) % m == poly_eval(c, y) % m,
    decreases c.len(),
{
    if c.len() > 0 {
        let a = poly_eval(c.skip(1), x);
        let b = poly_eval(c.skip(1), y);
        lemma_poly_eval_mod(c.skip(1), x, y, m);
        lemma_mul_mod_noop_general(x, a, m);
        lemma_mul_mod_noop_general(y, b, m);
        lemma_add_mod_noop_right(c[0], x * a, m);
        lemma_add_mod_noop_right(c[0], y * b, m);
    }
}

/// The integer coefficients of the product `a * b`, unreduced.
pub open spec fn conv(a: Seq<int>, b: Seq<int>) -> Seq<int> {
    Seq::new((a.len() + b.len() - 1) as nat, |k: int| mul_coeff(a, b, k, a.len() as int))
}

proof fn lemma_eval_tabulate_skip(n: nat, f: spec_fn(int) -> int, e: int)
    requires
        n > 0,
    ensures
        poly_eval(Seq::new(n, f), e) == f(0) + e * poly_eval(
            Seq::new((n - 1) as nat, |k: int| f(k + 1)),
            e,
        ),
{
    assert(Seq::new(n, f).skip(1) =~= Seq::new((n - 1) as nat, |k: int| f(k + 1)));
}

/// Evaluation is additive in the coefficients.
pub proof fn lemma_eval_add(n: nat, f: spec_fn(int) -> int, g: spec_fn(int) -> int, e: int)
    ensures
        poly_eval(Seq::new(n, |k: int| f(k) + g(k)), e) == poly_eval(Seq::new(n, f), e)
            + poly_eval(Seq::new(n, g), e),
    decreases n,
{
    if n > 0 {
        let h = |k: int| f(k) + g(k);
        let f1 = |k: int| f(k + 1);
        let g1 = |k: int| g(k + 1);
        lemma_eval_tabulate_skip(n, h, e);
        lemma_eval_tabulate_skip(n, f, e);
        lemma_eval_tabulate_skip(n, g, e);
        lemma_eval_add((n - 1) as nat, f1, g1, e);
        assert(Seq::new((n - 1) as nat, |k: int| h(k + 1)) =~= Seq::new(
            (n - 1) as nat,
            |k: int| f1(k) + g1(k),
        ));
        lemma_mul_is_distributive_add(
            e,
            poly_eval(Seq::new((n - 1) as nat, f1), e),
            poly_eval(Seq::new((n - 1) as nat, g1), e),
        );
    } else {
        assert(Seq::new(n, |k: int| f(k) + g(k)).len() == 0);
    }
}

/// Evaluation commutes with scaling the coefficients.
pub proof fn lemma_eval_scale(n: nat, s: int, f: spec_fn(int) -> int, e: int)
    ensures
        poly_eval(Seq::new(n, |k: int| s * f(k)), e) == s * poly_eval(Seq::new(n, f), e),
    decreases n,
{
    if n > 0 {
        let h = |k: int| s * f(k);
        let f1 = |k: int| f(k + 1);
        lemma_eval_tabulate_skip(n, h, e);
        lemma_eval_tabulate_skip(n, f, e);
        lemma_eval_scale((n - 1) as nat, s, f1, e);
        assert(Seq::new((n - 1) as nat, |k: int| h(k + 1)) =~= Seq::new(
            (n - 1) as nat,
            |k: int| s * f1(k),
        ));
        let r = poly_eval(Seq::new((n - 1) as nat, f1), e);
        assert(s * (f(0) + e * r) == s * f(0) + e * (s * r)) by (nonlinear_arith);
    }
}

/// Padding with zero coefficients does not change the value.
pub proof fn lemma_eval_pad(c: Seq<int>, n: nat, e: int)
    requires
        n >= c.len(),
    ensures
        poly_eval(Seq::new(n, |k: int| coeff(c, k)), e) == poly_eval(c, e),
    decreases n,
{
    let f = |k: int| coeff(c, k);
    if n > 0 {
        lemma_eval_tabulate_skip(n, f, e);
        if c.len() > 0 {
            lemma_eval_pad(c.skip(1), (n - 1) as nat, e);
            assert(Seq::new((n - 1) as nat, |k: int| f(k + 1)) =~= Seq::new(
                (n - 1) as nat,
                |k: int| coeff(c.skip(1), k),
            ));
        } else {
            lemma_eval_pad(c, (n - 1) as nat, e);
            assert(Seq::new((n - 1) as nat, |k: int| f(k + 1)) =~= Seq::new(
                (n - 1) as nat,
                |k: int| coeff(c, k),
            ));
        }
    } else {
        assert(Seq::new(n, f).len() == 0);
    }
}

/// Coefficient-wise congruent polynomials take congruent values.
pub proof fn lemma_eval_congruent(c: Seq<int>, d: Seq<int>, e: int, m: int)
    requires
        m > 0,
        c.len() == d.len(),
        forall|k: int| 0 <= k < c.len() ==> #[trigger] (c[k] % m) == d[k] % m,
    ensures
        poly_eval(c, e) % m == poly_eval(d, e) % m,
    decreases c.len(),
{
    if c.len() > 0 {
        assert forall|k: int| 0 <= k < c.skip(1).len() implies #[trigger] (c.skip(1)[k] % m) == d.skip(
            1,
        )[k] % m by {
            assert(c.skip(1)[k] == c[k + 1]);
            assert(d.skip(1)[k] == d[k + 1]);
        }
        lemma_eval_congruent(c.skip(1), d.skip(1), e, m);
        let a = poly_eval(c.skip(1), e);
        let b = poly_eval(d.skip(1), e);
        lemma_mul_mod_noop_right(e, a, m);
        lemma_mul_mod_noop_right(e, b, m);
        lemma_add_mod_noop(c[0], e * a, m);
        lemma_add_mod_noop(d[0], e * b, m);
        assert(c[0] % m == d[0] % m);
    }
}

/// One more term of `a` adds `a[i] * b[k - i]` to the coefficient.
pub proof fn lemma_mul_coeff_next(a: Seq<int>, b: Seq<int>, k: int, i: int)
    requires
        0 <= i < a.len(),
    ensures
        mul_coeff(a, b, k, i + 1) == mul_coeff(a, b, k, i) + (if i <= k < i + b.len() {
            a[i] * b[k - i]
        } else {
            0
        }),
{
    assert(mul_coeff(a, b, k, i + 1) == mul_coeff(a, b, k, i) + coeff(a, i) * coeff(b, k - i));
}

proof fn lemma_mul_coeff_split(a: Seq<int>, b: Seq<int>, k: int, u: int)
    requires
        u >= 1,
        a.len() >= 1,
    ensures
        mul_coeff(a, b, k, u) == coeff(a, 0) * coeff(b, k) + mul_coeff(a.skip(1), b, k - 1, u - 1),
    decreases u,
{
    if u > 1 {
        lemma_mul_coeff_split(a, b, k, u - 1);
        assert(coeff(a.skip(1), u - 2) == coeff(a, u - 1));
        assert(mul_coeff(a.skip(1), b, k - 1, u - 1) == mul_coeff(a.skip(1), b, k - 1, u - 2)
            + coeff(a.skip(1), u - 2) * coeff(b, k - (u - 1)));
    } else {
        assert(mul_coeff(a, b, k, 0) == 0);
        assert(mul_coeff(a.skip(1), b, k - 1, 0) == 0);
    }
}

proof fn lemma_mul_coeff_empty(a: Seq<int>, b: Seq<int>, k: int, u: int)
    requires
        a.len() == 0 || b.len() == 0,
    ensures
        mul_coeff(a, b, k, u) == 0,
    decreases u,
{
    if u > 0 {
        lemma_mul_coeff_empty(a, b, k, u - 1);
    }
}

/// The value of a product is the product of the values (over the integers).
pub proof fn lemma_eval_conv(a: Seq<int>, b: Seq<int>, e: int)
    requires
        a.len() + b.len() >= 1,
    ensures
        poly_eval(conv(a, b), e) == poly_eval(a, e) * poly_eval(b, e),
    decreases a.len(),
{
    let n = (a.len() + b.len() - 1) as nat;
    if a.len() == 0 || b.len() == 0 {
        assert forall|k: int| 0 <= k < n implies #[trigger] conv(a, b)[k] == coeff(
            Seq::<int>::empty(),
            k,
        ) by {
            lemma_mul_coeff_empty(a, b, k, a.len() as int);
        }
        assert(conv(a, b) =~= Seq::new(n, |k: int| coeff(Seq::<int>::empty(), k)));
        lemma_eval_pad(Seq::<int>::empty(), n, e);
        if a.len() == 0 {
            assert(poly_eval(a, e) == 0);
        } else {
            assert(poly_eval(b, e) == 0);
        }
    } else {
        let a1 = a.skip(1);
        let a0 = a[0];
        let f = |k: int| a0 * coeff(b, k);
        let g = |k: int| if k == 0 { 0 } else { coeff(conv(a1, b), k - 1) };
        assert forall|k: int| 0 <= k < n implies #[trigger] conv(a, b)[k] == f(k) + g(k) by {
            lemma_mul_coeff_split(a, b, k, a.len() as int);
            if k == 0 {
                assert(mul_coeff(a1, b, -1, a1.len() as int) == 0) by {
                    lemma_mul_coeff_neg(a1, b, -1, a1.len() as int);
                }
            }
        }
        assert(conv(a, b) =~= Seq::new(n, |k: int| f(k) + g(k)));
        lemma_eval_add(n, f, g, e);
        let cb = |k: int| coeff(b, k);
        lemma_eval_scale(n, a0, cb, e);
        assert(Seq::new(n, f) =~= Seq::new(n, |k: int| a0 * cb(k)));
        lemma_eval_pad(b, n, e);
        assert(Seq::new(n, cb) =~= Seq::new(n, |k: int| coeff(b, k)));
        lemma_eval_tabulate_skip(n, g, e);
        lemma_eval_pad(conv(a1, b), (n - 1) as nat, e);
        assert(Seq::new((n - 1) as nat, |k: int| g(k + 1)) =~= Seq::new(
            (n - 1) as nat,
            |k: int| coeff(conv(a1, b), k),
        ));
        lemma_eval_conv(a1, b, e);
        assert(poly_eval(conv(a, b), e) == poly_eval(Seq::new(n, f), e) + poly_eval(Seq::new(n, g), e));
        assert(poly_eval(Seq::new(n, f), e) == a0 * poly_eval(b, e));
        assert(poly_eval(Seq::new(n, g), e) == e * poly_eval(conv(a1, b), e));
        assert(poly_eval(conv(a, b), e) == a0 * poly_eval(b, e) + e * poly_eval(conv(a1, b), e));
        assert(poly_eval(a, e) == a0 + e * poly_eval(a1, e));
        let pa1 = poly_eval(a1, e);
        let pb = poly_eval(b, e);
        assert(a0 * pb + e * (pa1 * pb) == (a0 + e * pa1) * pb) by (nonlinear_arith);
    }
}

proof fn lemma_mul_coeff_neg(a: Seq<int>, b: Seq<int>, k: int, u: int)
    requires
        k < 0,
    ensures
        mul_coeff(a, b, k, u) == 0,
    decreases u,
{
    if u > 0 {
        lemma_mul_coeff_neg(a, b, k, u - 1);
    }
}

/// The value of the reduced product polynomial is the reduced product of the values.
pub proof fn lemma_eval_poly_mul(a: Seq<int>, b: Seq<int>, e: int, m: int)
    requires
        m > 0,
        a.len() + b.len() >= 1,
    ensures
        poly_eval(poly_mul(a, b, m), e) % m == (poly_eval(a, e) * poly_eval(b, e)) % m,
{
    assert forall|k: int| 0 <= k < poly_mul(a, b, m).len() implies #[trigger] (poly_mul(a, b, m)[k]
        % m) == conv(a, b)[k] % m by {
        lemma_mod_twice(mul_coeff(a, b, k, a.len() as int), m);
    }
    lemma_eval_congruent(poly_mul(a, b, m), conv(a, b), e, m);
    lemma_eval_conv(a, b, e);
}

/// Past `a`'s last coefficient, or past degree `k`, the partial sums of the
/// coefficient of degree `k` of `a * b` no longer change.
proof fn lemma_mul_coeff_stable(a: Seq<int>, b: Seq<int>, k: int, u: int, v: int)
    requires
        0 <= u <= v,
        u >= a.len() || u > k,
    ensures
        mul_coeff(a, b, k, v) == mul_coeff(a, b, k, u),
    decreases v - u,
{
    if v > u {
        lemma_mul_coeff_stable(a, b, k, u, v - 1);
        assert(coeff(a, v - 1) == 0 || coeff(b, k - (v - 1)) == 0);
    }
}

/// The first `u` terms of `sum_i a_i b_(k-i)` and the last `k + 1 - u` terms
/// of `sum_j b_j a_(k-j)`, in which they reappear reversed, make up the
/// whole of the latter.
proof fn lemma_mul_coeff_reverse(a: Seq<int>, b: Seq<int>, k: int, u: int)
    requires
        0 <= u <= k + 1,
    ensures
        mul_coeff(a, b, k, u) + mul_coeff(b, a, k, k + 1 - u) == mul_coeff(b, a, k, k + 1),
    decreases u,
{
    if u > 0 {
        lemma_mul_coeff_reverse(a, b, k, u - 1);
        lemma_mul_is_commutative(coeff(a, u - 1), coeff(b, k - (u - 1)));
        assert(k - (k + 1 - u) == u - 1);
    }
}

/// Polynomial multiplication commutes.
pub proof fn lemma_poly_mul_commutes(a: Seq<int>, b: Seq<int>, m: int)
    ensures
        poly_mul(a, b, m) == poly_mul(b, a, m),
{
    assert forall|k: int| 0 <= k < poly_mul(a, b, m).len() implies #[trigger] poly_mul(a, b, m)[k]
        == poly_mul(b, a, m)[k] by {
        if a.len() <= k + 1 {
            lemma_mul_coeff_stable(a, b, k, a.len() as int, k + 1);
        } else {
            lemma_mul_coeff_stable(a, b, k, k + 1, a.len() as int);
        }
        if b.len() <= k + 1 {
            lemma_mul_coeff_stable(b, a, k, b.len() as int, k + 1);
        } else {
            lemma_mul_coeff_stable(b, a, k, k + 1, b.len() as int);
        }
        lemma_mul_coeff_reverse(a, b, k, k + 1);
    }
    assert(poly_mul(a, b, m) =~= poly_mul(b, a, m));
}

/// Below degree `k`, no term of the coefficient of degree `k` of `a * 1` is
/// reached.
proof fn lemma_mul_coeff_one_below(a: Seq<int>, k: int, u: int)
    requires
        0 <= u <= k,
    ensures
        mul_coeff(a, seq![1int], k, u) == 0,
    decreases u,
{
    if u > 0 {
        lemma_mul_coeff_one_below(a, k, u - 1);
        assert(coeff(seq![1int], k - (u - 1)) == 0);
    }
}

/// One is the unit of polynomial multiplication: `a * 1 = a` for reduced
/// coefficients.
pub proof fn lemma_poly_mul_one(a: Seq<int>, m: int)
    requires
        m > 0,
        forall|k: int| 0 <= k < a.len() ==> 0 <= #[trigger] a[k] < m,
    ensures
        poly_mul(a, seq![1int], m) == a,
{
    let one = seq![1int];
    assert forall|k: int| 0 <= k < a.len() implies #[trigger] poly_mul(a, one, m)[k] == a[k] by {
        lemma_mul_coeff_stable(a, one, k, k + 1, a.len() as int);
        lemma_mul_coeff_one_below(a, k, k);
        assert(coeff(one, 0) == 1);
        assert(mul_coeff(a, one, k, k + 1) == a[k]);
        lemma_small_mod(a[k] as nat, m as nat);
    }
    assert(poly_mul(a, one, m) =~= a);
}

/// The value of the reduced sum polynomial is the reduced sum of the values.
pub proof fn lemma_eval_poly_add(a: Seq<int>, b: Seq<int>, e: int, m: int)
    requires
        m > 0,
    ensures
        poly_eval(poly_add(a, b, m), e) % m == (poly_eval(a, e) + poly_eval(b, e)) % m,
{
    let n = poly_add(a, b, m).len();
    let f = |k: int| coeff(a, k);
    let g = |k: int| coeff(b, k);
    assert forall|k: int| 0 <= k < n implies #[trigger] (poly_add(a, b, m)[k] % m) == Seq::new(
        n,
        |k: int| f(k) + g(k),
    )[k] % m by {
        lemma_mod_twice(coeff(a, k) + coeff(b, k), m);
    }
    lemma_eval_congruent(poly_add(a, b, m), Seq::new(n, |k: int| f(k) + g(k)), e, m);
    lemma_eval_add(n, f, g, e);
    lemma_eval_pad(a, n, e);
    lemma_eval_pad(b, n, e);
}

/// A nonzero residue stays nonzero when negated.
pub proof fn lemma_mod_neg_nonzero(d: int, m: int)
    requires
        0 < d < m,
    ensures
        (-d) % m != 0,
{
    lemma_fundamental_div_mod(-d, m);
    if (-d) % m == 0 {
        let q = (-d) / m;
        assert(-d == m * q);
        if q >= 0 {
            lemma_mul_nonnegative(m, q);
        } else {
            lemma_mul_inequality(1, -q, m);
            lemma_mul_unary_negation(m, q);
            lemma_mul_is_commutative(m, -q);
        }
    }
}

/// Congruence is preserved by multiplication.
pub proof fn lemma_mul_congruent(a: int, b: int, c: int, d: int, m: int)
    requires
        m > 0,
        a % m == b % m,
        c % m == d % m,
    ensures
        (a * c) % m == (b * d) % m,
{
    lemma_mul_mod_noop_general(a, c, m);
    lemma_mul_mod_noop_general(b, d, m);
}

/// Scaling every coefficient modulo `m` scales the value.
pub proof fn lemma_eval_scale_mod(p: Seq<int>, q: Seq<int>, s: int, e: int, m: int)
    requires
        m > 0,
        q.len() == p.len(),
        forall|k: int| 0 <= k < p.len() ==> #[trigger] q[k] == (p[k] * s) % m,
    ensures
        poly_eval(q, e) % m == (s * poly_eval(p, e)) % m,
{
    let f = |k: int| p[k];
    let sc = Seq::new(p.len(), |k: int| s * f(k));
    assert forall|k: int| 0 <= k < q.len() implies #[trigger] (q[k] % m) == sc[k] % m by {
        lemma_mod_twice(p[k] * s, m);
        lemma_mul_is_commutative(p[k], s);
    }
    lemma_eval_congruent(q, sc, e, m);
    lemma_eval_scale(p.len(), s, f, e);
    assert(Seq::new(p.len(), f) =~= p);
}

/// One step of building a Lagrange basis polynomial: multiplying by the
/// linear factor `X - x_j` and dividing by `x_i - x_j` multiplies the value
/// by `(e - x_j) * (x_i - x_j)^-1`.
pub proof fn lemma_interpolate_factor(
    t: Seq<int>,
    l: Seq<int>,
    p: Seq<int>,
    q: Seq<int>,
    dv: int,
    y: int,
    xs: Seq<int>,
    i: int,
    j: int,
    m: int,
)
    requires
        m > 1,
        0 <= i < xs.len(),
        0 <= j < xs.len(),
        i != j,
        xs == share_points(xs.len()),
        l.len() == 2,
        l[0] == (-((j + 1) % m)) % m,
        l[1] == 1,
        p == poly_mul(t, l, m),
        q.len() == p.len(),
        forall|k: int| 0 <= k < p.len() ==> #[trigger] q[k] == (p[k] * inv_mod(dv, m)) % m,
        dv == (i - j) % m,
        forall|e: int|
            #![trigger poly_eval(t, e)]
            poly_eval(t, e) % m == (y * lagrange_factors(xs, i, e, m, j)) % m,
    ensures
        q.len() == t.len() + 1,
        forall|e: int|
            #![trigger poly_eval(q, e)]
            poly_eval(q, e) % m == (y * lagrange_factors(xs, i, e, m, j + 1)) % m,
{
    let inv = inv_mod(dv, m);
    lemma_inv_mod_residue(i - j, m);
    assert(inv == inv_mod(xs[i] - xs[j], m));
    assert forall|e: int| #![trigger poly_eval(q, e)]
        poly_eval(q, e) % m == (y * lagrange_factors(xs, i, e, m, j + 1)) % m by {
        let et = poly_eval(t, e);
        let el = poly_eval(l, e);
        let ep = poly_eval(p, e);
        let f = lagrange_factors(xs, i, e, m, j);
        assert(poly_eval(l.skip(1).skip(1), e) == 0);
        assert(poly_eval(l.skip(1), e) == 1 + e * 0);
        assert(el == l[0] + e * 1);
        lemma_mod_twice(-((j + 1) % m), m);
        lemma_add_mod_noop(l[0], e, m);
        lemma_sub_mod_noop(0, j + 1, m);
        lemma_mod_twice(j + 1, m);
        lemma_add_mod_noop(-(j + 1), e, m);
        assert(el % m == (e - xs[j]) % m);
        lemma_eval_poly_mul(t, l, e, m);
        lemma_eval_scale_mod(p, q, inv, e, m);
        lemma_mul_congruent(et, y * f, el, e - xs[j], m);
        lemma_mul_congruent(inv, inv, ep, et * el, m);
        lemma_mul_congruent(inv, inv, et * el, (y * f) * (e - xs[j]), m);
        assert(inv * ((y * f) * (e - xs[j])) == y * (f * ((e - xs[j]) * inv))) by (nonlinear_arith);
    }
}

/// Adding the reduced terms one at a time gives the reduced sum.
pub proof fn lemma_beaver_product_steps(d: int, e: int, alpha: int, beta: int, gamma: int, m: int)
    requires
        m > 0,
        0 <= gamma < m,
    ensures
        ((((gamma + (d * beta) % m) % m + (e * alpha) % m) % m + (d * e) % m) % m) == beaver_product(
            d,
            e,
            alpha,
            beta,
            gamma,
            m,
        ),
{
    lemma_small_mod(gamma as nat, m as nat);
    lemma_add_mod_noop(gamma, d * beta, m);
    lemma_add_mod_noop(gamma + d * beta, e * alpha, m);
    lemma_mod_twice(gamma + d * beta, m);
    lemma_add_mod_noop(gamma + d * beta + e * alpha, d * e, m);
    lemma_mod_twice(gamma + d * beta + e * alpha, m);
    lemma_mod_twice(d * e, m);
    lemma_mod_twice(e * alpha, m);
    lemma_mod_twice(d * beta, m);
}

/// Beaver's identity: with `gamma = alpha * beta`, `d = x - alpha` and
/// `e = y - beta`, the combination `gamma + d * beta + e * alpha + d * e`
/// is `x * y`.
pub proof fn lemma_beaver_identity(x: int, y: int, alpha: int, beta: int, m: int)
    requires
        m > 0,
    ensures
        beaver_product((x - alpha) % m, (y - beta) % m, alpha, beta, (alpha * beta) % m, m) == (x
            * y) % m,
{
    let d = (x - alpha) % m;
    let e = (y - beta) % m;
    let g = (alpha * beta) % m;
    lemma_mod_twice(x - alpha, m);
    lemma_mod_twice(y - beta, m);
    lemma_mod_twice(alpha * beta, m);
    lemma_mul_congruent(d, x - alpha, beta, beta, m);
    lemma_mul_congruent(e, y - beta, alpha, alpha, m);
    lemma_mul_congruent(d, x - alpha, e, y - beta, m);
    let s1 = g + d * beta + e * alpha + d * e;
    let s2 = alpha * beta + (x - alpha) * beta + (y - beta) * alpha + (x - alpha) * (y - beta);
    lemma_add_mod_noop(g + d * beta + e * alpha, d * e, m);
    lemma_add_mod_noop(alpha * beta + (x - alpha) * beta + (y - beta) * alpha, (x - alpha) * (y
        - beta), m);
    lemma_add_mod_noop(g + d * beta, e * alpha, m);
    lemma_add_mod_noop(alpha * beta + (x - alpha) * beta, (y - beta) * alpha, m);
    lemma_add_mod_noop(g, d * beta, m);
    lemma_add_mod_noop(alpha * beta, (x - alpha) * beta, m);
    assert(s2 == x * y) by (nonlinear_arith)
        requires
            s2 == alpha * beta + (x - alpha) * beta + (y - beta) * alpha + (x - alpha) * (y - beta),
    ;
}

} // verus!
