//! Polynomial evaluation, interpolation and coefficient arithmetic over a
//! finite field.
use vstd::arithmetic::power2::is_pow2;
use vstd::arithmetic::div_mod::{
    lemma_add_mod_noop, lemma_mod_twice, lemma_mul_mod_noop_general, lemma_mul_mod_noop_left,
    lemma_small_mod, lemma_sub_mod_noop,
};
use vstd::prelude::*;

use crate::algebra::{
    coeff, inv_mod, lagrange_basis, lagrange_factor_sum, lagrange_factors, lemma_eval_poly_add,
    lemma_interpolate_factor, lemma_mod_neg_nonzero, share_points, lagrange_den, lagrange_interp, lagrange_num, lagrange_sum,
    lemma_horner_step, lemma_inv_mod_residue, lemma_mul_coeff_next, nodes_ok, lemma_poly_eval_mod, mul_coeff, poly_add, poly_eval, poly_mul,
    vals,
};
use crate::FiniteField;

verus! {

proof fn lemma_bit_trick(n: usize)
    ensures
        (n > 0 && (n & ((n - 1) as usize)) == 0) == is_pow2(n as int),
    decreases n,
{
    reveal(is_pow2);
    if n == 0 {
    } else if n == 1 {
        assert((1usize & 0usize) == 0) by (bit_vector);
    } else if n % 2 == 1 {
        assert((n & ((n - 1) as usize)) == ((n - 1) as usize)) by (bit_vector)
            requires
                n > 1,
                n % 2 == 1,
        ;
    } else {
        let h = n / 2;
        assert(((n & ((n - 1) as usize)) == 0) == ((h & ((h - 1) as usize)) == 0)) by (bit_vector)
            requires
                n > 1,
                n % 2 == 0,
                h == n / 2,
        ;
        lemma_bit_trick(h);
    }
}

/// Whether `n` is a power of two.
pub fn is_power_of_two(n: usize) -> (r: bool)
    ensures
        r == is_pow2(n as int),
{
    proof {
        lemma_bit_trick(n);
    }
    n > 0 && (n & (n - 1)) == 0
}

/// The values of the polynomial `poly` (coefficients lowest first) at the
/// points `1, 2, ..., n`, by Horner's method.
pub fn evaluations<T: FiniteField>(poly: &[T], n: usize) -> (r: Vec<T>)
    requires
        !is_pow2(n as int),
        n > 0 ==> poly.len() > 0,
    ensures
        r.len() == n,
        forall|i: int|
            0 <= i < n ==> #[trigger] r[i].value() == poly_eval(vals(poly@), i + 1) % T::modulus(),
{
    let ghost c = vals(poly@);
    let mut evals: Vec<T> = Vec::new();
    for i in 0..n
        invariant
            n > 0 ==> poly.len() > 0,
            c == vals(poly@),
            evals.len() == i,
            forall|k: int|
                0 <= k < i ==> #[trigger] evals[k].value() == poly_eval(c, k + 1) % T::modulus(),
    {
        let x = T::from_usize(i + 1);
        let last = poly.len() - 1;
        let mut eval = poly[last];
        proof {
            T::lemma_value_bound(poly[last as int]);
            T::lemma_value_bound(x);
            assert(c.skip(last as int).skip(1).len() == 0);
            assert(poly_eval(c.skip(last as int).skip(1), x.value()) == 0);
            assert(poly_eval(c.skip(last as int), x.value()) == c[last as int]);
            lemma_small_mod(c[last as int] as nat, T::modulus() as nat);
        }
        let mut j = last;
        while j > 0
            invariant
                j <= last < poly.len(),
                c == vals(poly@),
                T::modulus() > 1,
                eval.value() == poly_eval(c.skip(j as int), x.value()) % T::modulus(),
            decreases j,
        {
            j = j - 1;
            let ghost prev = poly_eval(c.skip(j + 1), x.value());
            eval = T::horner_fold(&eval, &poly[j], &x);
            proof {
                lemma_horner_step(prev, x.value(), c[j as int], T::modulus());
                assert(c.skip(j as int).skip(1) =~= c.skip(j + 1));
            }
        }
        proof {
            assert(c.skip(0) =~= c);
            lemma_mod_twice(i + 1, T::modulus());
            lemma_poly_eval_mod(c, x.value(), i + 1, T::modulus());
        }
        evals.push(eval);
    }
    evals
}

fn zeros<T: FiniteField>(n: usize) -> (r: Vec<T>)
    ensures
        r.len() == n,
        forall|k: int| 0 <= k < n ==> #[trigger] r[k].value() == 0,
{
    let mut r: Vec<T> = Vec::new();
    for i in 0..n
        invariant
            r.len() == i,
            forall|k: int| 0 <= k < i ==> #[trigger] r[k].value() == 0,
    {
        r.push(T::zero());
    }
    r
}

/// The coefficient-wise product of two polynomials (schoolbook method).
pub fn naive_mul<T: FiniteField>(poly1: &[T], poly2: &[T]) -> (r: Vec<T>)
    requires
        1 <= poly1.len() + poly2.len() <= usize::MAX,
    ensures
        vals(r@) == poly_mul(vals(poly1@), vals(poly2@), T::modulus()),
{
    let ghost a = vals(poly1@);
    let ghost b = vals(poly2@);
    let ghost m = T::modulus();
    let n = poly1.len() + poly2.len() - 1;
    let mut result: Vec<T> = zeros(n);
    proof {
        T::lemma_modulus();
        assert forall|k: int| 0 <= k < n implies #[trigger] result[k].value() == (mul_coeff(
            a,
            b,
            k,
            0,
        ) + 0) % m by {
            lemma_small_mod(0, m as nat);
        }
    }
    for i in 0..poly1.len()
        invariant
            n == poly1.len() + poly2.len() - 1,
            a == vals(poly1@),
            b == vals(poly2@),
            m == T::modulus(),
            m > 1,
            result.len() == n,
            forall|k: int|
                0 <= k < n ==> #[trigger] result[k].value() == (mul_coeff(a, b, k, i as int) + 0)
                    % m,
    {
        for j in 0..poly2.len()
            invariant
                i < poly1.len(),
                n == poly1.len() + poly2.len() - 1,
                a == vals(poly1@),
                b == vals(poly2@),
                m == T::modulus(),
                m > 1,
                result.len() == n,
                forall|k: int|
                    0 <= k < n ==> #[trigger] result[k].value() == (mul_coeff(a, b, k, i as int) + (
                    if i <= k < i + j {
                        a[i as int] * b[k - i]
                    } else {
                        0
                    })) % m,
        {
            let k = i + j;
            let prod = poly1[i].mul(&poly2[j]);
            let sum = result[k].add(&prod);
            proof {
                let old_total = mul_coeff(a, b, k as int, i as int) + (if i <= k < i + j {
                    a[i as int] * b[k - i]
                } else {
                    0
                });
                lemma_add_mod_noop(old_total, a[i as int] * b[j as int], m);
                lemma_mod_twice(old_total, m);
                lemma_mod_twice(a[i as int] * b[j as int], m);
            }
            result.set(k, sum);
        }
        proof {
            assert forall|k: int| 0 <= k < n implies #[trigger] result[k].value() == (mul_coeff(
                a,
                b,
                k,
                i + 1,
            ) + 0) % m by {
                lemma_mul_coeff_next(a, b, k, i as int);
            }
        }
    }
    proof {
        assert(vals(result@) =~= poly_mul(a, b, m));
    }
    result
}

/// The coefficient-wise sum of two polynomials.
pub fn naive_add<T: FiniteField>(poly1: &[T], poly2: &[T]) -> (r: Vec<T>)
    ensures
        vals(r@) == poly_add(vals(poly1@), vals(poly2@), T::modulus()),
{
    let ghost a = vals(poly1@);
    let ghost b = vals(poly2@);
    let ghost m = T::modulus();
    let n = if poly1.len() >= poly2.len() {
        poly1.len()
    } else {
        poly2.len()
    };
    let mut result: Vec<T> = zeros(n);
    proof {
        T::lemma_modulus();
    }
    for i in 0..poly1.len()
        invariant
            n >= poly1.len(),
            n >= poly2.len(),
            a == vals(poly1@),
            m == T::modulus(),
            m > 1,
            result.len() == n,
            forall|k: int|
                0 <= k < n ==> #[trigger] result[k].value() == (if k < i {
                    a[k] % m
                } else {
                    0
                }),
    {
        let v = result[i].add(&poly1[i]);
        result.set(i, v);
    }
    proof {
        assert forall|k: int| 0 <= k < n implies #[trigger] result[k].value() == (coeff(a, k) + (
        if k < 0 {
            b[k]
        } else {
            0
        })) % m by {
            if k < poly1.len() {
                T::lemma_value_bound(poly1@[k]);
                lemma_small_mod(a[k] as nat, m as nat);
            } else {
                lemma_small_mod(0, m as nat);
            }
        }
    }
    for i in 0..poly2.len()
        invariant
            n >= poly1.len(),
            n >= poly2.len(),
            a == vals(poly1@),
            b == vals(poly2@),
            m == T::modulus(),
            m > 1,
            result.len() == n,
            forall|k: int|
                0 <= k < n ==> #[trigger] result[k].value() == (coeff(a, k) + (if k < i {
                    b[k]
                } else {
                    0
                })) % m,
    {
        proof {
            T::lemma_value_bound(poly2@[i as int]);
            if i < poly1.len() {
                T::lemma_value_bound(poly1@[i as int]);
                lemma_small_mod(a[i as int] as nat, m as nat);
            }
            lemma_add_mod_noop(coeff(a, i as int), b[i as int], m);
            lemma_mod_twice(coeff(a, i as int), m);
            lemma_small_mod(b[i as int] as nat, m as nat);
        }
        let v = result[i].add(&poly2[i]);
        result.set(i, v);
    }
    proof {
        assert forall|k: int| 0 <= k < n implies #[trigger] result[k].value() == (coeff(a, k) + coeff(
            b,
            k,
        )) % m by {
        }
        assert(vals(result@) =~= poly_add(a, b, m));
    }
    result
}

/// Multiplies every coefficient by `scalar`.
pub fn scalar_mul<T: FiniteField>(poly: &[T], scalar: &T) -> (r: Vec<T>)
    ensures
        r.len() == poly.len(),
        forall|i: int|
            0 <= i < poly.len() ==> #[trigger] r[i].value() == (poly[i].value() * scalar.value())
                % T::modulus(),
{
    let mut r: Vec<T> = Vec::new();
    for i in 0..poly.len()
        invariant
            r.len() == i,
            forall|k: int|
                0 <= k < i ==> #[trigger] r[k].value() == (poly[k].value() * scalar.value())
                    % T::modulus(),
    {
        r.push(poly[i].mul(scalar));
    }
    r
}

/// Divides every coefficient by `scalar`.
pub fn scalar_div<T: FiniteField>(poly: &[T], scalar: &T) -> (r: Vec<T>)
    requires
        poly.len() > 0 ==> scalar.value() != 0,
    ensures
        r.len() == poly.len(),
        forall|i: int|
            0 <= i < poly.len() ==> #[trigger] r[i].value() == (poly[i].value() * inv_mod(
                scalar.value(),
                T::modulus(),
            )) % T::modulus(),
{
    let mut r: Vec<T> = Vec::new();
    for i in 0..poly.len()
        invariant
            poly.len() > 0 ==> scalar.value() != 0,
            r.len() == i,
            forall|k: int|
                0 <= k < i ==> #[trigger] r[k].value() == (poly[k].value() * inv_mod(
                    scalar.value(),
                    T::modulus(),
                )) % T::modulus(),
    {
        r.push(poly[i].div(scalar));
    }
    r
}

/// The value at `eval_point` of the polynomial of degree below `values.len()`
/// that takes `values[i]` at `interpolate_points[i]` (Lagrange's formula).
pub fn interpolate_eval<T: FiniteField>(
    interpolate_points: &[T],
    values: &[T],
    eval_point: &T,
) -> (r: T)
    requires
        interpolate_points.len() == values.len(),
        nodes_ok(vals(interpolate_points@), T::modulus()),
    ensures
        r.value() == lagrange_interp(
            vals(interpolate_points@),
            vals(values@),
            eval_point.value(),
            T::modulus(),
        ),
{
    let ghost xs = vals(interpolate_points@);
    let ghost ys = vals(values@);
    let ghost e = eval_point.value();
    let ghost m = T::modulus();
    let len = values.len();
    proof {
        T::lemma_modulus();
    }
    let mut result = T::zero();
    for i in 0..len
        invariant
            len == values.len(),
            interpolate_points.len() == len,
            xs == vals(interpolate_points@),
            ys == vals(values@),
            e == eval_point.value(),
            m == T::modulus(),
            m > 1,
            nodes_ok(xs, m),
            result.value() == lagrange_sum(xs, ys, e, m, i as int) % m,
    {
        let original_index_i = interpolate_points[i];
        let mut num = T::one();
        let mut den = T::one();
        proof {
            lemma_small_mod(1, m as nat);
        }
        for j in 0..len
            invariant
                i < len,
                len == values.len(),
                interpolate_points.len() == len,
                xs == vals(interpolate_points@),
                m == T::modulus(),
                m > 1,
                e == eval_point.value(),
                original_index_i == interpolate_points[i as int],
                num.value() == lagrange_num(xs, i as int, e, j as int) % m,
                den.value() == lagrange_num(xs, i as int, xs[i as int], j as int) % m,
        {
            if i != j {
                let original_index_j = interpolate_points[j];
                let ghost n0 = lagrange_num(xs, i as int, e, j as int);
                let ghost d0 = lagrange_num(xs, i as int, xs[i as int], j as int);
                num = num.mul(&eval_point.sub(&original_index_j));
                den = den.mul(&original_index_i.sub(&original_index_j));
                proof {
                    lemma_mul_mod_noop_general(n0, e - xs[j as int], m);
                    lemma_mul_mod_noop_general(d0, xs[i as int] - xs[j as int], m);
                }
            }
        }
        let ghost num_all = lagrange_num(xs, i as int, e, len as int);
        let ghost den_all = lagrange_den(xs, i as int, len as int);
        proof {
            assert(den_all % m != 0);
        }
        let ratio = num.div(&den);
        let term = values[i].mul(&ratio);
        proof {
            lemma_inv_mod_residue(den_all, m);
            lemma_mul_mod_noop_left(num_all, inv_mod(den_all, m), m);
            assert(ratio.value() == lagrange_basis(xs, i as int, e, m));
            let prev = lagrange_sum(xs, ys, e, m, i as int);
            lemma_add_mod_noop(prev, ys[i as int] * ratio.value(), m);
            lemma_mod_twice(prev, m);
        }
        result = result.add(&term);
    }
    result
}

/// The coefficients (lowest first) of the polynomial of degree below `n`
/// that takes the value `evaluations[i]` at the point `i + 1`, built as
/// the sum of the Lagrange basis polynomials.
pub fn interpolate<T: FiniteField>(evaluations: &[T], n: usize) -> (r: Vec<T>)
    requires
        evaluations.len() == n,
        !is_pow2(n as int),
        n < usize::MAX,
        n <= T::modulus(),
    ensures
        r.len() == n,
        forall|e: int|
            #![trigger poly_eval(vals(r@), e)]
            poly_eval(vals(r@), e) % T::modulus() == lagrange_factor_sum(
                share_points(n as nat),
                vals(evaluations@),
                e,
                T::modulus(),
                n as int,
            ) % T::modulus(),
        crate::lagrange::is_prime(T::modulus()) && n < T::modulus() ==> forall|k: int|
            0 <= k < n ==> #[trigger] poly_eval(vals(r@), k + 1) % T::modulus()
                == evaluations[k].value(),
{
    let ghost xs = share_points(n as nat);
    let ghost ys = vals(evaluations@);
    let ghost m = T::modulus();
    proof {
        T::lemma_modulus();
    }
    let mut poly: Vec<T> = Vec::new();
    for i in 0..n
        invariant
            evaluations.len() == n,
            n < usize::MAX,
            n <= m,
            xs == share_points(n as nat),
            ys == vals(evaluations@),
            m == T::modulus(),
            m > 1,
            poly.len() == (if i == 0 {
                0
            } else {
                n
            }),
            forall|e: int|
                #![trigger poly_eval(vals(poly@), e)]
                poly_eval(vals(poly@), e) % m == lagrange_factor_sum(xs, ys, e, m, i as int) % m,
    {
        let mut term: Vec<T> = Vec::new();
        term.push(evaluations[i]);
        proof {
            assert forall|e: int| #![trigger poly_eval(vals(term@), e)]
                poly_eval(vals(term@), e) % m == (ys[i as int] * lagrange_factors(xs, i as int, e, m, 0)) % m by {
                assert(vals(term@).skip(1).len() == 0);
                assert(poly_eval(vals(term@).skip(1), e) == 0);
                assert(vals(term@)[0] == ys[i as int]);
                assert(poly_eval(vals(term@), e) == ys[i as int]);
                assert(lagrange_factors(xs, i as int, e, m, 0) == 1);
            }
        }
        for j in 0..n
            invariant
                i < n,
                evaluations.len() == n,
                n < usize::MAX,
                n <= m,
                xs == share_points(n as nat),
                ys == vals(evaluations@),
                m == T::modulus(),
                m > 1,
                term.len() == (if j <= i {
                    j + 1
                } else {
                    j as int
                }),
                forall|e: int|
                    #![trigger poly_eval(vals(term@), e)]
                    poly_eval(vals(term@), e) % m == (ys[i as int] * lagrange_factors(
                        xs,
                        i as int,
                        e,
                        m,
                        j as int,
                    )) % m,
        {
            if j != i {
                let den = T::from_usize(i + 1).sub(&T::from_usize(j + 1));
                let mut lin: Vec<T> = Vec::new();
                lin.push(T::from_usize(j + 1).minus());
                lin.push(T::one());
                proof {
                    lemma_sub_mod_noop(i + 1, j + 1, m);
                    lemma_small_mod((if i > j { i - j } else { j - i }) as nat, m as nat);
                    if i < j {
                        lemma_mod_neg_nonzero(j - i, m);
                    }
                    assert(den.value() != 0);
                }
                let prod = naive_mul(&term, &lin);
                let next = scalar_div(&prod, &den);
                proof {
                    lemma_interpolate_factor(
                        vals(term@),
                        vals(lin@),
                        vals(prod@),
                        vals(next@),
                        den.value(),
                        ys[i as int],
                        xs,
                        i as int,
                        j as int,
                        m,
                    );
                }
                term = next;
            }
        }
        let ghost prev_poly = vals(poly@);
        assert(term.len() == n);
        poly = naive_add(&poly, &term);
        proof {
            assert(vals(poly@).len() == poly.len());
            assert(poly.len() == n);
            assert forall|e: int| #![trigger poly_eval(vals(poly@), e)]
                poly_eval(vals(poly@), e) % m == lagrange_factor_sum(xs, ys, e, m, i + 1) % m by {
                lemma_eval_poly_add(prev_poly, vals(term@), e, m);
                let a = poly_eval(prev_poly, e);
                let b = poly_eval(vals(term@), e);
                let s = lagrange_factor_sum(xs, ys, e, m, i as int);
                let t = ys[i as int] * lagrange_factors(xs, i as int, e, m, n as int);
                lemma_add_mod_noop(a, b, m);
                lemma_add_mod_noop(s, t, m);
            }
        }
    }
    proof {
        if crate::lagrange::is_prime(m) && n < m {
            crate::lagrange::lemma_interpolation_takes_values(ys, vals(poly@), m);
            assert forall|k: int| 0 <= k < n implies #[trigger] poly_eval(vals(poly@), k + 1) % m
                == evaluations[k].value() by {
                T::lemma_value_bound(evaluations[k]);
                lemma_small_mod(evaluations[k].value() as nat, m as nat);
                assert(ys[k] == evaluations[k].value());
            }
        }
    }
    poly
}

} // verus!
