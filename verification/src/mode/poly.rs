//! Multiplying secret-shared polynomials: the shares are evaluated at
//! enough points, multiplied point by point with Beaver triples, and the
//! product is interpolated back to coefficients.
use vstd::arithmetic::div_mod::lemma_sub_mod_noop;
use vstd::arithmetic::power2::is_pow2;
use vstd::prelude::*;

use crate::algebra::{
    beaver_product, index_points, is_sharing, lagrange_factor_sum, lagrange_interp, nodes_ok,
    poly_eval, share_points, vals,
};
use crate::algebra::{coeff, lemma_beaver_identity, poly_mul};
use crate::lagrange::{
    beaver_shares, distinct_mod, is_prime, lemma_beaver_multiplication, lemma_factor_sum_congruent,
    lemma_interpolate_products, lemma_interpolation_takes_values, lemma_sum_congruent,
    lemma_sum_of_evals, lemma_sum_of_factor_sums, masked_shares,
};
use crate::mode::scalar::{beaver_combine, beaver_shift, is_triple};
use crate::util::{evaluations, interpolate, is_power_of_two};
use crate::FiniteField;
use std::sync::Arc;

verus! {

/// What every worker offers: its index and the computation it performs on
/// its shares.
pub trait Base<T: FiniteField> {
    fn index(&self) -> usize;

    fn work(
        &self,
        beaver_triple_shares: Vec<(T, T, T)>,
        poly1_shares: Vec<T>,
        poly2_shares: Vec<T>,
    ) -> Vec<T>;
}

/// The number of evaluation points used to multiply polynomials with `a_len`
/// and `b_len` coefficients: one more where `a_len` is a power of two.
pub open spec fn product_points(a_len: int, b_len: int) -> int {
    if is_pow2(a_len) {
        a_len + b_len
    } else {
        a_len + b_len - 1
    }
}

/// The worker's shares of the products at each point, from the opened
/// masked values and its triple shares.
pub open spec fn beaver_products<T: FiniteField>(
    recovered: Seq<(T, T)>,
    rs: Seq<(T, T, T)>,
) -> Seq<int> {
    Seq::new(
        recovered.len(),
        |i: int|
            beaver_product(
                recovered[i].0.value(),
                recovered[i].1.value(),
                rs[i].0.value(),
                rs[i].1.value(),
                rs[i].2.value(),
                T::modulus(),
            ),
    )
}

/// The first half of a polynomial Beaver multiplication: the number `n` of
/// points, and for each point `i + 1` the masked values
/// `(a(i + 1) - alpha_i, b(i + 1) - beta_i)` that the worker broadcasts.
pub fn masked_evaluations<T: FiniteField>(
    a_poly_shares: &[T],
    b_poly_shares: &[T],
    rs: &[(T, T, T)],
) -> (res: (usize, Vec<(T, T)>))
    requires
        a_poly_shares.len() >= 1,
        b_poly_shares.len() >= 1,
        a_poly_shares.len() + b_poly_shares.len() <= usize::MAX,
        !is_pow2(product_points(a_poly_shares.len() as int, b_poly_shares.len() as int)),
        rs.len() >= product_points(a_poly_shares.len() as int, b_poly_shares.len() as int),
    ensures
        res.0 == product_points(a_poly_shares.len() as int, b_poly_shares.len() as int),
        res.1.len() == res.0,
        forall|i: int|
            0 <= i < res.0 ==> {
                &&& (#[trigger] res.1[i]).0.value() == (poly_eval(vals(a_poly_shares@), i + 1)
                    - rs[i].0.value()) % T::modulus()
                &&& res.1[i].1.value() == (poly_eval(vals(b_poly_shares@), i + 1) - rs[i].1.value())
                    % T::modulus()
            },
{
    let use_fft = b_poly_shares.len() == b_poly_shares.len() && is_power_of_two(
        a_poly_shares.len(),
    );
    let n = if use_fft {
        a_poly_shares.len() + b_poly_shares.len()
    } else {
        a_poly_shares.len() + b_poly_shares.len() - 1
    };
    let a_evaluations = evaluations(a_poly_shares, n);
    let b_evaluations = evaluations(b_poly_shares, n);
    let mut to_broadcast: Vec<(T, T)> = Vec::new();
    for i in 0..n
        invariant
            a_evaluations.len() == n,
            b_evaluations.len() == n,
            rs.len() >= n,
            forall|k: int|
                0 <= k < n ==> #[trigger] a_evaluations[k].value() == poly_eval(
                    vals(a_poly_shares@),
                    k + 1,
                ) % T::modulus(),
            forall|k: int|
                0 <= k < n ==> #[trigger] b_evaluations[k].value() == poly_eval(
                    vals(b_poly_shares@),
                    k + 1,
                ) % T::modulus(),
            to_broadcast.len() == i,
            forall|k: int|
                0 <= k < i ==> {
                    &&& (#[trigger] to_broadcast[k]).0.value() == (poly_eval(
                        vals(a_poly_shares@),
                        k + 1,
                    ) - rs[k].0.value()) % T::modulus()
                    &&& to_broadcast[k].1.value() == (poly_eval(vals(b_poly_shares@), k + 1)
                        - rs[k].1.value()) % T::modulus()
                },
    {
        let a_share = a_evaluations[i];
        let b_share = b_evaluations[i];
        let shifted = beaver_shift(a_share, b_share, &rs[i]);
        proof {
            T::lemma_modulus();
            T::lemma_value_bound(rs[i as int].0);
            T::lemma_value_bound(rs[i as int].1);
            let ea = poly_eval(vals(a_poly_shares@), i + 1);
            let eb = poly_eval(vals(b_poly_shares@), i + 1);
            lemma_sub_mod_noop(ea, rs[i as int].0.value(), T::modulus());
            lemma_sub_mod_noop(eb, rs[i as int].1.value(), T::modulus());
            vstd::arithmetic::div_mod::lemma_mod_twice(ea, T::modulus());
            vstd::arithmetic::div_mod::lemma_mod_twice(eb, T::modulus());
            vstd::arithmetic::div_mod::lemma_small_mod(rs[i as int].0.value() as nat, T::modulus() as nat);
            vstd::arithmetic::div_mod::lemma_small_mod(rs[i as int].1.value() as nat, T::modulus() as nat);
        }
        to_broadcast.push(shifted);
    }
    (n, to_broadcast)
}

/// The second half of a polynomial Beaver multiplication: the worker's
/// shares of the products at the points `1 ..= n`, interpolated to the
/// coefficients of its share of the product polynomial.
pub fn beaver_interpolate<T: FiniteField>(
    recovered_shares: &[(T, T)],
    rs: &[(T, T, T)],
    n: usize,
) -> (r: Vec<T>)
    requires
        recovered_shares.len() == n,
        rs.len() >= n,
        !is_pow2(n as int),
        n < usize::MAX,
        n <= T::modulus(),
    ensures
        r.len() == n,
        forall|e: int|
            #![trigger poly_eval(vals(r@), e)]
            poly_eval(vals(r@), e) % T::modulus() == lagrange_factor_sum(
                share_points(n as nat),
                beaver_products(recovered_shares@, rs@),
                e,
                T::modulus(),
                n as int,
            ) % T::modulus(),
{
    let mut products: Vec<T> = Vec::new();
    for i in 0..n
        invariant
            recovered_shares.len() == n,
            rs.len() >= n,
            products.len() == i,
            forall|k: int|
                0 <= k < i ==> #[trigger] products[k].value() == beaver_products(
                    recovered_shares@,
                    rs@,
                )[k],
    {
        let r = &rs[i];
        products.push(beaver_combine(&recovered_shares[i], r));
    }
    proof {
        assert(vals(products@) =~= beaver_products(recovered_shares@, rs@));
    }
    interpolate(&products, n)
}

/// The values that the parties hold of coefficient `c`.
pub open spec fn coefficient_column<T: FiniteField>(rows: Seq<Vec<T>>, c: int) -> Seq<int> {
    Seq::new(rows.len(), |w: int| rows[w]@[c].value())
}

fn copy_indexes(indexes: &Vec<usize>) -> (r: Vec<usize>)
    ensures
        r@ == indexes@,
{
    let mut r: Vec<usize> = Vec::new();
    for i in 0..indexes.len()
        invariant
            r@ == indexes@.take(i as int),
    {
        r.push(indexes[i]);
        proof {
            assert(indexes@.take(i + 1) =~= indexes@.take(i as int).push(indexes@[i as int]));
        }
    }
    proof {
        assert(indexes@.take(indexes.len() as int) =~= indexes@);
    }
    r
}

/// Shares every coefficient of `poly` among `workers` parties (threshold
/// `workers`): `r[w][c]` is party `w`'s share of coefficient `c`.
pub fn share_polynomial<T: FiniteField>(poly: &[T], workers: usize) -> (r: Vec<Vec<T>>)
    requires
        !is_pow2(workers as int),
    ensures
        r.len() == workers,
        forall|w: int| 0 <= w < workers ==> #[trigger] r[w].len() == poly.len(),
        forall|c: int|
            0 <= c < poly.len() ==> #[trigger] is_sharing(
                coefficient_column(r@, c),
                poly[c].value(),
                workers as nat,
                T::modulus(),
            ),
{
    let mut columns: Vec<Vec<T>> = Vec::new();
    for c in 0..poly.len()
        invariant
            !is_pow2(workers as int),
            columns.len() == c,
            forall|i: int| 0 <= i < c ==> (#[trigger] columns[i]).len() == workers,
            forall|i: int|
                0 <= i < c ==> #[trigger] is_sharing(
                    vals(columns[i]@),
                    poly[i].value(),
                    workers as nat,
                    T::modulus(),
                ),
    {
        let shares = <crate::secret_sharing::SecretSharing<T> as crate::SecretSharing<T>>::share(
            poly[c],
            workers,
            workers,
        );
        let ghost prev = columns@;
        columns.push(shares);
        proof {
            assert forall|i: int| 0 <= i < c + 1 implies (#[trigger] columns[i]).len() == workers by {
                if i < c {
                    assert(columns[i] == prev[i]);
                } else {
                    assert(columns[i]@ == shares@);
                }
            }
            assert forall|i: int| 0 <= i < c + 1 implies #[trigger] is_sharing(
                vals(columns[i]@),
                poly[i].value(),
                workers as nat,
                T::modulus(),
            ) by {
                if i < c {
                    assert(columns[i] == prev[i]);
                } else {
                    assert(columns[i]@ == shares@);
                }
            }
        }
    }
    let mut result: Vec<Vec<T>> = Vec::new();
    for w in 0..workers
        invariant
            columns.len() == poly.len(),
            forall|i: int| 0 <= i < poly.len() ==> (#[trigger] columns[i]).len() == workers,
            result.len() == w,
            forall|v: int|
                0 <= v < w ==> {
                    &&& (#[trigger] result[v]).len() == poly.len()
                    &&& forall|i: int|
                        0 <= i < poly.len() ==> #[trigger] result[v]@[i] == columns[i]@[v]
                },
    {
        let mut row: Vec<T> = Vec::new();
        for c in 0..poly.len()
            invariant
                w < workers,
                columns.len() == poly.len(),
                forall|i: int| 0 <= i < poly.len() ==> (#[trigger] columns[i]).len() == workers,
                row.len() == c,
                forall|i: int| 0 <= i < c ==> #[trigger] row@[i] == columns[i]@[w as int],
        {
            row.push(columns[c][w]);
        }
        result.push(row);
    }
    proof {
        assert forall|c: int| 0 <= c < poly.len() implies #[trigger] is_sharing(
            coefficient_column(result@, c),
            poly[c].value(),
            workers as nat,
            T::modulus(),
        ) by {
            assert(coefficient_column(result@, c) =~= vals(columns[c]@));
        }
    }
    result
}

/// Recovers coefficients `0 .. count` from the parties' shares of them,
/// taken at the points `indexes`.
pub fn recover_polynomial<T: FiniteField>(
    output_shares: &Vec<Vec<T>>,
    indexes: &Vec<usize>,
    count: usize,
) -> (r: Vec<T>)
    requires
        output_shares.len() == indexes.len(),
        forall|w: int| 0 <= w < output_shares.len() ==> (#[trigger] output_shares[w]).len() >= count,
        forall|w: int| 0 <= w < indexes.len() ==> #[trigger] indexes[w] <= indexes.len(),
        nodes_ok(index_points(indexes@, T::modulus()), T::modulus()),
    ensures
        r.len() == count,
        forall|c: int|
            0 <= c < count ==> #[trigger] r[c].value() == lagrange_interp(
                index_points(indexes@, T::modulus()),
                coefficient_column(output_shares@, c),
                0,
                T::modulus(),
            ),
{
    let workers = output_shares.len();
    let mut result: Vec<T> = Vec::new();
    for coeff_index in 0..count
        invariant
            workers == output_shares.len(),
            output_shares.len() == indexes.len(),
            forall|w: int| 0 <= w < output_shares.len() ==> (#[trigger] output_shares[w]).len() >= count,
            forall|w: int| 0 <= w < indexes.len() ==> #[trigger] indexes[w] <= indexes.len(),
            nodes_ok(index_points(indexes@, T::modulus()), T::modulus()),
            result.len() == coeff_index,
            forall|c: int|
                0 <= c < coeff_index ==> #[trigger] result[c].value() == lagrange_interp(
                    index_points(indexes@, T::modulus()),
                    coefficient_column(output_shares@, c),
                    0,
                    T::modulus(),
                ),
    {
        let mut coeff_shares: Vec<T> = Vec::new();
        for w in 0..workers
            invariant
                workers == output_shares.len(),
                coeff_index < count,
                forall|v: int| 0 <= v < output_shares.len() ==> (#[trigger] output_shares[v]).len() >= count,
                coeff_shares.len() == w,
                forall|v: int|
                    0 <= v < w ==> #[trigger] coeff_shares[v] == output_shares[v]@[coeff_index as int],
        {
            coeff_shares.push(output_shares[w][coeff_index]);
        }
        proof {
            assert(vals(coeff_shares@) =~= coefficient_column(output_shares@, coeff_index as int));
        }
        let value = <crate::secret_sharing::SecretSharing<T> as crate::SecretSharing<T>>::recover(
            coeff_shares,
            copy_indexes(indexes),
            workers,
            workers,
        );
        result.push(value);
    }
    result
}

/// Opens the masked values of every point: `all_shares[j]` are the masked
/// pairs that the party at point `indexes[j]` broadcast, one per point.
pub fn recover_shifted_poly<T: FiniteField>(
    all_shares: &Vec<Vec<(T, T)>>,
    indexes: &Vec<usize>,
) -> (r: Vec<(T, T)>)
    requires
        all_shares.len() >= 1,
        all_shares.len() == indexes.len(),
        forall|j: int|
            0 <= j < all_shares.len() ==> (#[trigger] all_shares[j]).len() >= all_shares[0].len(),
        forall|j: int| 0 <= j < indexes.len() ==> #[trigger] indexes[j] <= indexes.len(),
        nodes_ok(index_points(indexes@, T::modulus()), T::modulus()),
    ensures
        r.len() == all_shares[0].len(),
        forall|i: int|
            0 <= i < r.len() ==> {
                &&& (#[trigger] r[i]).0.value() == lagrange_interp(
                    index_points(indexes@, T::modulus()),
                    Seq::new(all_shares.len() as nat, |j: int| all_shares[j]@[i].0.value()),
                    0,
                    T::modulus(),
                )
                &&& r[i].1.value() == lagrange_interp(
                    index_points(indexes@, T::modulus()),
                    Seq::new(all_shares.len() as nat, |j: int| all_shares[j]@[i].1.value()),
                    0,
                    T::modulus(),
                )
            },
{
    let n = all_shares.len();
    let points = all_shares[0].len();
    let mut result: Vec<(T, T)> = Vec::new();
    for i in 0..points
        invariant
            n == all_shares.len(),
            points == all_shares[0].len(),
            all_shares.len() == indexes.len(),
            forall|j: int| 0 <= j < all_shares.len() ==> (#[trigger] all_shares[j]).len() >= points,
            forall|j: int| 0 <= j < indexes.len() ==> #[trigger] indexes[j] <= indexes.len(),
            nodes_ok(index_points(indexes@, T::modulus()), T::modulus()),
            result.len() == i,
            forall|k: int|
                0 <= k < i ==> {
                    &&& (#[trigger] result[k]).0.value() == lagrange_interp(
                        index_points(indexes@, T::modulus()),
                        Seq::new(all_shares.len() as nat, |j: int| all_shares[j]@[k].0.value()),
                        0,
                        T::modulus(),
                    )
                    &&& result[k].1.value() == lagrange_interp(
                        index_points(indexes@, T::modulus()),
                        Seq::new(all_shares.len() as nat, |j: int| all_shares[j]@[k].1.value()),
                        0,
                        T::modulus(),
                    )
                },
    {
        let mut shifted_a_shares: Vec<T> = Vec::new();
        let mut shifted_b_shares: Vec<T> = Vec::new();
        for j in 0..n
            invariant
                n == all_shares.len(),
                i < points,
                forall|v: int| 0 <= v < all_shares.len() ==> (#[trigger] all_shares[v]).len() >= points,
                shifted_a_shares.len() == j,
                shifted_b_shares.len() == j,
                forall|v: int| 0 <= v < j ==> #[trigger] shifted_a_shares[v] == all_shares[v]@[i as int].0,
                forall|v: int| 0 <= v < j ==> #[trigger] shifted_b_shares[v] == all_shares[v]@[i as int].1,
        {
            let ab_shares_from_j = &all_shares[j];
            shifted_a_shares.push(ab_shares_from_j[i].0);
            shifted_b_shares.push(ab_shares_from_j[i].1);
        }
        proof {
            assert(vals(shifted_a_shares@) =~= Seq::new(
                all_shares.len() as nat,
                |j: int| all_shares[j]@[i as int].0.value(),
            ));
            assert(vals(shifted_b_shares@) =~= Seq::new(
                all_shares.len() as nat,
                |j: int| all_shares[j]@[i as int].1.value(),
            ));
        }
        let a = <crate::secret_sharing::SecretSharing<T> as crate::SecretSharing<T>>::recover(
            shifted_a_shares,
            copy_indexes(indexes),
            n,
            n,
        );
        let b = <crate::secret_sharing::SecretSharing<T> as crate::SecretSharing<T>>::recover(
            shifted_b_shares,
            copy_indexes(indexes),
            n,
            n,
        );
        result.push((a, b));
    }
    result
}

/// The values of the opened pairs.
pub open spec fn pair_values<T: FiniteField>(s: Seq<(T, T)>) -> Seq<(int, int)> {
    s.map_values(|p: (T, T)| (p.0.value(), p.1.value()))
}

/// A single party's own masked evaluations of `a` and `b`:
/// `(a(k + 1) - alpha_k, b(k + 1) - beta_k)` at each of the `n` points.
pub open spec fn own_masked_evaluations<T: FiniteField>(
    a: Seq<int>,
    b: Seq<int>,
    rs: Seq<(T, T, T)>,
    n: nat,
) -> Seq<(int, int)> {
    Seq::new(
        n,
        |k: int|
            (
                (poly_eval(a, k + 1) - rs[k].0.value()) % T::modulus(),
                (poly_eval(b, k + 1) - rs[k].1.value()) % T::modulus(),
            ),
    )
}

/// A worker that exchanges masked evaluations with its peers.
pub trait Worker<T: FiniteField>: Base<T> {
    /// The pairs, one per point, that the masked evaluations broadcast at
    /// `stage` by all the workers open to.
    spec fn opened_poly(&self, stage: usize) -> Vec<(T, T)>;

    /// Holds of each list of masked evaluations that this worker may have
    /// broadcast at `stage`: at least of every list handed to
    /// `broadcast_poly` there (where an implementation does not say more, of
    /// every list).
    closed spec fn sent_poly(&self, stage: usize, pairs: Seq<(T, T)>) -> bool {
        true
    }

    /// Multiplies the polynomials whose coefficient shares are given, with
    /// one Beaver triple per evaluation point `1 ..= n`: broadcasts the
    /// masked evaluations (`masked_evaluations`), waits for the opened pairs
    /// (one per point) and interpolates the worker's shares of the products
    /// (`beaver_interpolate`). Over a prime field the result takes the
    /// worker's share of each product at its point; for a single party,
    /// whose opened pairs are its own masked evaluations, with true triples,
    /// it is the product of the two polynomials, padded to `n`.
    fn multiply_poly(
        &self,
        stage: usize,
        a_poly_shares: Vec<T>,
        b_poly_shares: Vec<T>,
        rs: &[(T, T, T)],
    ) -> (r: Vec<T>)
        requires
            a_poly_shares.len() >= 1,
            b_poly_shares.len() >= 1,
            a_poly_shares.len() + b_poly_shares.len() < usize::MAX,
            !is_pow2(product_points(a_poly_shares.len() as int, b_poly_shares.len() as int)),
            rs.len() >= product_points(a_poly_shares.len() as int, b_poly_shares.len() as int),
            product_points(a_poly_shares.len() as int, b_poly_shares.len() as int)
                <= T::modulus(),
            self.opened_poly(stage)@.len() == product_points(
                a_poly_shares.len() as int,
                b_poly_shares.len() as int,
            ),
        ensures
            r.len() == product_points(a_poly_shares.len() as int, b_poly_shares.len() as int),
            forall|e: int|
                #![trigger poly_eval(vals(r@), e)]
                poly_eval(vals(r@), e) % T::modulus() == lagrange_factor_sum(
                    share_points(r.len() as nat),
                    beaver_products(self.opened_poly(stage)@, rs@),
                    e,
                    T::modulus(),
                    r.len() as int,
                ) % T::modulus(),
            ({
                let n = product_points(a_poly_shares.len() as int, b_poly_shares.len() as int);
                let m = T::modulus();
                is_prime(m) && n < m ==> forall|k: int|
                    0 <= k < n ==> #[trigger] poly_eval(vals(r@), k + 1) % m == beaver_products(
                        self.opened_poly(stage)@,
                        rs@,
                    )[k]
            }),
            exists|p: Seq<(T, T)>|
                #[trigger] self.sent_poly(stage, p) && pair_values(p) == own_masked_evaluations(
                    vals(a_poly_shares@),
                    vals(b_poly_shares@),
                    rs@,
                    product_points(a_poly_shares.len() as int, b_poly_shares.len() as int) as nat,
                ),
            ({
                let n = product_points(a_poly_shares.len() as int, b_poly_shares.len() as int);
                let m = T::modulus();
                &&& is_prime(m)
                &&& n < m
                &&& forall|k: int| 0 <= k < n ==> #[trigger] is_triple(rs[k])
                &&& pair_values(self.opened_poly(stage)@) == own_masked_evaluations(
                    vals(a_poly_shares@),
                    vals(b_poly_shares@),
                    rs@,
                    n as nat,
                )
            }) ==> vals(r@) == Seq::new(
                product_points(a_poly_shares.len() as int, b_poly_shares.len() as int) as nat,
                |k: int|
                    coeff(poly_mul(vals(a_poly_shares@), vals(b_poly_shares@), T::modulus()), k),
            ),
    {
        let (n, to_broadcast) = masked_evaluations(&a_poly_shares, &b_poly_shares, rs);
        let ghost sent = to_broadcast@;
        self.broadcast_poly(to_broadcast, stage);
        proof {
            assert(pair_values(sent) =~= own_masked_evaluations(
                vals(a_poly_shares@),
                vals(b_poly_shares@),
                rs@,
                n as nat,
            ));
            assert(self.sent_poly(stage, sent));
        }
        let recovered_shares = self.wait_for_broadcast_poly(stage);
        let r = beaver_interpolate(&recovered_shares, rs, n);
        proof {
            let m = T::modulus();
            let opened = self.opened_poly(stage)@;
            let ys = beaver_products(opened, rs@);
            T::lemma_modulus();
            if is_prime(m) && n < m {
                lemma_interpolation_takes_values(ys, vals(r@), m);
                assert forall|k: int| 0 <= k < n implies #[trigger] poly_eval(vals(r@), k + 1) % m
                    == ys[k] by {
                    let d = opened[k].0.value();
                    let e = opened[k].1.value();
                    vstd::arithmetic::div_mod::lemma_mod_twice(
                        rs[k].2.value() + d * rs[k].1.value() + e * rs[k].0.value() + d * e,
                        m,
                    );
                }
            }
            let av = vals(a_poly_shares@);
            let bv = vals(b_poly_shares@);
            if is_prime(m) && n < m && (forall|k: int| 0 <= k < n ==> #[trigger] is_triple(rs[k]))
                && pair_values(opened) == own_masked_evaluations(av, bv, rs@, n as nat) {
                assert(pair_values(opened).len() == opened.len());
                assert(opened.len() == n);
                assert forall|k: int| 0 <= k < n implies #[trigger] ys[k] == (poly_eval(av, k + 1)
                    * poly_eval(bv, k + 1)) % m by {
                    assert(pair_values(opened)[k] == own_masked_evaluations(av, bv, rs@, n as nat)[k]);
                    assert(is_triple(rs[k]));
                    lemma_beaver_identity(
                        poly_eval(av, k + 1),
                        poly_eval(bv, k + 1),
                        rs[k].0.value(),
                        rs[k].1.value(),
                        m,
                    );
                }
                assert forall|k: int| 0 <= k < vals(r@).len() implies 0 <= #[trigger] vals(r@)[k]
                    < m by {
                    T::lemma_value_bound(r@[k]);
                }
                lemma_interpolate_products(av, bv, ys, vals(r@), m);
            }
        }
        r
    }

    /// Hands this worker's masked evaluations of `stage` to its peers.
    fn broadcast_poly(&self, a_b_share_shifted: Vec<(T, T)>, stage: usize)
        ensures
            self.sent_poly(stage, a_b_share_shifted@),
    ;

    /// Waits until every worker has broadcast at `stage`, and returns the
    /// pairs that their masked evaluations open to.
    fn wait_for_broadcast_poly(&self, stage: usize) -> (r: Vec<(T, T)>)
        ensures
            r@ == self.opened_poly(stage)@,
    ;
}

/// What a worker's peers may ask of it: to take the masked values that
/// another worker broadcast, and to hand over its own.
pub trait Peer<T: FiniteField>: Base<T> + Send + Sync {
    fn send_share(&self, from_worker: usize, a_b_share_shifted: Vec<(T, T)>, stage: usize);

    fn receive_share(&self, stage: usize) -> Vec<(T, T)>;
}

/// The delegator's handle on a worker, which also tells the worker its
/// peers.
pub trait WorkerClient<T: FiniteField>: Peer<T> {
    fn set_peer_workers(&self, peer_workers: Vec<Arc<dyn Peer<T>>>);
}

/// Hands a polynomial multiplication out to workers and recovers the
/// product.
pub trait Delegator<T: FiniteField>: Sized {
    fn new(workers: Vec<Arc<dyn WorkerClient<T>>>) -> Self;

    fn delegate(&self, poly1: Vec<T>, poly2: Vec<T>) -> Vec<T>;
}

/// What a polynomial Beaver multiplication at `stage` does
/// (`Worker::multiply_poly`): the worker broadcast the masked evaluations
/// `(a(k + 1) - alpha_k, b(k + 1) - beta_k)` of its shares for the triple
/// shares `rs[k]` of each point, and `r` holds the `n` coefficients whose
/// polynomial agrees everywhere with Lagrange's formula for the Beaver
/// combinations, with the same `rs[k]`, of the pairs opened at `stage`.
pub open spec fn multiply_poly_outcome<T: FiniteField, W: Worker<T>>(
    worker: &W,
    stage: usize,
    a: Seq<T>,
    b: Seq<T>,
    rs: Seq<(T, T, T)>,
    r: Seq<T>,
) -> bool {
    let n = product_points(a.len() as int, b.len() as int);
    &&& exists|p: Seq<(T, T)>|
        #[trigger] worker.sent_poly(stage, p) && pair_values(p) == own_masked_evaluations(
            vals(a),
            vals(b),
            rs,
            n as nat,
        )
    &&& r.len() == n
    &&& forall|e: int|
        #![trigger poly_eval(vals(r), e)]
        poly_eval(vals(r), e) % T::modulus() == lagrange_factor_sum(
            share_points(n as nat),
            beaver_products(worker.opened_poly(stage)@, rs),
            e,
            T::modulus(),
            n,
        ) % T::modulus()
}

/// A single party multiplies polynomials: when what opens at `stage` is
/// exactly what the worker broadcast there and every point's triple shares
/// are a triple, the result of `multiply_poly` is the product of the two
/// polynomials, padded with zeros to `n` coefficients, over a prime field.
pub proof fn lemma_multiply_poly_alone<T: FiniteField, W: Worker<T>>(
    worker: &W,
    stage: usize,
    a: Seq<T>,
    b: Seq<T>,
    rs: Seq<(T, T, T)>,
    r: Seq<T>,
)
    requires
        is_prime(T::modulus()),
        a.len() >= 1,
        b.len() >= 1,
        product_points(a.len() as int, b.len() as int) < T::modulus(),
        rs.len() >= product_points(a.len() as int, b.len() as int),
        multiply_poly_outcome(worker, stage, a, b, rs, r),
        forall|p: Seq<(T, T)>| #[trigger] worker.sent_poly(stage, p) ==> worker.opened_poly(stage)@ == p,
        forall|k: int|
            0 <= k < product_points(a.len() as int, b.len() as int) ==> #[trigger] is_triple(rs[k]),
    ensures
        vals(r) == Seq::new(
            product_points(a.len() as int, b.len() as int) as nat,
            |k: int| coeff(poly_mul(vals(a), vals(b), T::modulus()), k),
        ),
{
    let m = T::modulus();
    let n = product_points(a.len() as int, b.len() as int);
    let av = vals(a);
    let bv = vals(b);
    T::lemma_modulus();
    let p = choose|p: Seq<(T, T)>|
        #[trigger] worker.sent_poly(stage, p) && pair_values(p) == own_masked_evaluations(
            av,
            bv,
            rs,
            n as nat,
        );
    let opened = worker.opened_poly(stage)@;
    assert(opened == p);
    assert(pair_values(opened).len() == opened.len());
    let ys = beaver_products(opened, rs);
    assert forall|k: int| 0 <= k < n implies #[trigger] ys[k] == (poly_eval(av, k + 1)
        * poly_eval(bv, k + 1)) % m by {
        assert(pair_values(opened)[k] == own_masked_evaluations(av, bv, rs, n as nat)[k]);
        assert(is_triple(rs[k]));
        lemma_beaver_identity(
            poly_eval(av, k + 1),
            poly_eval(bv, k + 1),
            rs[k].0.value(),
            rs[k].1.value(),
            m,
        );
    }
    assert forall|k: int| 0 <= k < vals(r).len() implies 0 <= #[trigger] vals(r)[k] < m by {
        T::lemma_value_bound(r[k]);
    }
    lemma_interpolate_products(av, bv, ys, vals(r), m);
}

/// The values that the parties hold at position `c` of their vectors.
pub open spec fn column<T: FiniteField>(ps: Seq<Seq<T>>, c: int) -> Seq<int> {
    Seq::new(ps.len(), |j: int| ps[j][c].value())
}

/// The `l` coefficients that the parties' coefficient shares `ps` recover
/// to at zero, the parties sitting at the points `xs`.
pub open spec fn recovered_coeffs<T: FiniteField>(xs: Seq<int>, ps: Seq<Seq<T>>, l: nat) -> Seq<
    int,
> {
    Seq::new(l, |c: int| lagrange_interp(xs, column(ps, c), 0, T::modulus()))
}

/// The values of the first (`first`) or second components of the parties'
/// pairs at point `i`.
pub open spec fn pair_column<T: FiniteField>(pairs: Seq<Seq<(T, T)>>, i: int, first: bool) -> Seq<
    int,
> {
    Seq::new(
        pairs.len(),
        |j: int|
            if first {
                pairs[j][i].0.value()
            } else {
                pairs[j][i].1.value()
            },
    )
}

/// The values of component `c` (0, 1 or 2) of the parties' triple shares
/// at point `i`.
pub open spec fn point_triples<T: FiniteField>(rs: Seq<Seq<(T, T, T)>>, i: int, c: int) -> Seq<
    int,
> {
    Seq::new(
        rs.len(),
        |j: int|
            if c == 0 {
                rs[j][i].0.value()
            } else if c == 1 {
                rs[j][i].1.value()
            } else {
                rs[j][i].2.value()
            },
    )
}

/// The pairs opened to a party are, at every one of the `n` points, the
/// recovery at zero of what all the parties broadcast there.
pub open spec fn opens_to_recovery<T: FiniteField>(
    opened: Seq<(T, T)>,
    xs: Seq<int>,
    pairs: Seq<Seq<(T, T)>>,
    n: int,
) -> bool {
    &&& opened.len() == n
    &&& forall|i: int|
        0 <= i < n ==> {
            &&& (#[trigger] opened[i]).0.value() == lagrange_interp(
                xs,
                pair_column(pairs, i, true),
                0,
                T::modulus(),
            )
            &&& opened[i].1.value() == lagrange_interp(
                xs,
                pair_column(pairs, i, false),
                0,
                T::modulus(),
            )
        }
}

/// The values at `x` of the parties' polynomials `ps`.
pub open spec fn evals_at(ps: Seq<Seq<int>>, x: int) -> Seq<int> {
    Seq::new(ps.len(), |j: int| poly_eval(ps[j], x))
}

/// The parties' entries at position `i` of their sequences `ys`.
pub open spec fn col_at(ys: Seq<Seq<int>>, i: int) -> Seq<int> {
    Seq::new(ys.len(), |j: int| ys[j][i])
}

/// Polynomial Beaver multiplication by all the workers of a stage: when
/// worker `j`, at point `xs[j]`, has run `multiply_poly` at `stage` on its
/// shares `a_sh[j]`, `b_sh[j]` of the coefficients of `a` and `b` with its
/// triple shares `rs[j]` (one per point), each worker broadcast one list
/// there (`pairs[j]`), every worker was opened, at each point, the recovery
/// at zero of what all broadcast there, and each point's triple shares
/// recover to a triple, then the results are shares of the coefficients of
/// `a * b`: they recover, coefficient by coefficient, to the product of the
/// recovered polynomials (padded to `n`), over a prime field.
pub proof fn lemma_multiply_poly_over_workers<T: FiniteField, W: Worker<T>>(
    workers: Seq<W>,
    stage: usize,
    xs: Seq<int>,
    a_sh: Seq<Seq<T>>,
    b_sh: Seq<Seq<T>>,
    rs: Seq<Seq<(T, T, T)>>,
    res: Seq<Seq<T>>,
    pairs: Seq<Seq<(T, T)>>,
    la: nat,
    lb: nat,
)
    requires
        is_prime(T::modulus()),
        distinct_mod(xs, T::modulus()),
        xs.len() >= 1,
        la >= 1,
        lb >= 1,
        product_points(la as int, lb as int) < T::modulus(),
        workers.len() == xs.len(),
        a_sh.len() == xs.len(),
        b_sh.len() == xs.len(),
        rs.len() == xs.len(),
        res.len() == xs.len(),
        pairs.len() == xs.len(),
        forall|j: int|
            0 <= j < xs.len() ==> {
                &&& (#[trigger] a_sh[j]).len() == la
                &&& b_sh[j].len() == lb
                &&& rs[j].len() >= product_points(la as int, lb as int)
            },
        forall|j: int|
            0 <= j < xs.len() ==> #[trigger] multiply_poly_outcome(
                &workers[j],
                stage,
                a_sh[j],
                b_sh[j],
                rs[j],
                res[j],
            ),
        forall|j: int, p: Seq<(T, T)>|
            0 <= j < xs.len() && #[trigger] workers[j].sent_poly(stage, p) ==> p == pairs[j],
        forall|j: int|
            0 <= j < xs.len() ==> #[trigger] opens_to_recovery(
                workers[j].opened_poly(stage)@,
                xs,
                pairs,
                product_points(la as int, lb as int),
            ),
        forall|i: int|
            0 <= i < product_points(la as int, lb as int) ==> lagrange_interp(
                xs,
                #[trigger] point_triples(rs, i, 2),
                0,
                T::modulus(),
            ) == (lagrange_interp(xs, point_triples(rs, i, 0), 0, T::modulus()) * lagrange_interp(
                xs,
                point_triples(rs, i, 1),
                0,
                T::modulus(),
            )) % T::modulus(),
    ensures
        recovered_coeffs(xs, res, product_points(la as int, lb as int) as nat) == Seq::new(
            product_points(la as int, lb as int) as nat,
            |c: int|
                coeff(
                    poly_mul(
                        recovered_coeffs(xs, a_sh, la),
                        recovered_coeffs(xs, b_sh, lb),
                        T::modulus(),
                    ),
                    c,
                ),
        ),
{
    let m = T::modulus();
    let k = xs.len() as int;
    let n = product_points(la as int, lb as int);
    T::lemma_modulus();
    let av = Seq::new(a_sh.len(), |j: int| vals(a_sh[j]));
    let bv = Seq::new(b_sh.len(), |j: int| vals(b_sh[j]));
    let big_a = recovered_coeffs(xs, a_sh, la);
    let big_b = recovered_coeffs(xs, b_sh, lb);
    let ys = Seq::new(res.len(), |j: int| beaver_products(workers[j].opened_poly(stage)@, rs[j]));
    // What each worker broadcast: its own masked evaluations.
    assert forall|j: int| 0 <= j < k implies pair_values(#[trigger] pairs[j])
        == own_masked_evaluations(vals(a_sh[j]), vals(b_sh[j]), rs[j], n as nat) by {
        assert(multiply_poly_outcome(&workers[j], stage, a_sh[j], b_sh[j], rs[j], res[j]));
        let p = choose|p: Seq<(T, T)>|
            #[trigger] workers[j].sent_poly(stage, p) && pair_values(p) == own_masked_evaluations(
                vals(a_sh[j]),
                vals(b_sh[j]),
                rs[j],
                n as nat,
            );
        assert(p == pairs[j]);
    }
    // Recovering the parties' values of their shares at a point gives the
    // value there of the recovered polynomial.
    assert forall|i: int| 0 <= i < n implies #[trigger] lagrange_interp(
        xs,
        evals_at(av, i + 1),
        0,
        m,
    ) == poly_eval(big_a, i + 1) % m && lagrange_interp(
        xs,
        evals_at(bv, i + 1),
        0,
        m,
    ) == poly_eval(big_b, i + 1) % m by {
        assert forall|j: int| 0 <= j < av.len() implies (#[trigger] av[j]).len() == la by {
            assert(a_sh[j].len() == la);
        }
        assert forall|j: int| 0 <= j < bv.len() implies (#[trigger] bv[j]).len() == lb by {
            assert(a_sh[j].len() == la);
            assert(b_sh[j].len() == lb);
        }
        lemma_sum_of_evals(xs, av, la, i + 1, 0, m, k);
        lemma_sum_of_evals(xs, bv, lb, i + 1, 0, m, k);
        let sa = Seq::new(la, |c: int| crate::algebra::lagrange_sum(xs, Seq::new(av.len(), |j: int| av[j][c]), 0, m, k));
        let sb = Seq::new(lb, |c: int| crate::algebra::lagrange_sum(xs, Seq::new(bv.len(), |j: int| bv[j][c]), 0, m, k));
        assert forall|c: int| 0 <= c < la implies #[trigger] (big_a[c] % m) == sa[c] % m by {
            assert(Seq::new(av.len(), |j: int| av[j][c]) =~= column(a_sh, c));
            vstd::arithmetic::div_mod::lemma_mod_twice(sa[c], m);
        }
        assert forall|c: int| 0 <= c < lb implies #[trigger] (big_b[c] % m) == sb[c] % m by {
            assert(Seq::new(bv.len(), |j: int| bv[j][c]) =~= column(b_sh, c));
            vstd::arithmetic::div_mod::lemma_mod_twice(sb[c], m);
        }
        crate::algebra::lemma_eval_congruent(big_a, sa, i + 1, m);
        crate::algebra::lemma_eval_congruent(big_b, sb, i + 1, m);
    }
    // At every point, the workers' shares of the product recover to the
    // product of the recovered values.
    let big_y = Seq::new(n as nat, |i: int| lagrange_interp(xs, col_at(ys, i), 0, m));
    assert forall|i: int| 0 <= i < n implies #[trigger] big_y[i] == (poly_eval(big_a, i + 1)
        * poly_eval(big_b, i + 1)) % m by {
        let xa = evals_at(av, i + 1);
        let xb = evals_at(bv, i + 1);
        let al = point_triples(rs, i, 0);
        let be = point_triples(rs, i, 1);
        let ga = point_triples(rs, i, 2);
        assert forall|j: int| 0 <= j < k implies #[trigger] pair_column(pairs, i, true)[j]
            == masked_shares(xa, al, m)[j] && pair_column(pairs, i, false)[j] == masked_shares(
            xb,
            be,
            m,
        )[j] by {
            assert(pair_values(pairs[j]) == own_masked_evaluations(vals(a_sh[j]), vals(b_sh[j]), rs[j], n as nat));
            assert(pair_values(pairs[j])[i] == own_masked_evaluations(vals(a_sh[j]), vals(b_sh[j]), rs[j], n as nat)[i]);
        }
        assert(pair_column(pairs, i, true) =~= masked_shares(xa, al, m));
        assert forall|j: int| 0 <= j < k implies pair_column(pairs, i, false)[j] == #[trigger] masked_shares(
            xb,
            be,
            m,
        )[j] by {
            assert(pair_values(pairs[j]) == own_masked_evaluations(vals(a_sh[j]), vals(b_sh[j]), rs[j], n as nat));
            assert(pair_values(pairs[j])[i] == own_masked_evaluations(vals(a_sh[j]), vals(b_sh[j]), rs[j], n as nat)[i]);
        }
        assert(pair_column(pairs, i, false) =~= masked_shares(xb, be, m));
        let d = lagrange_interp(xs, masked_shares(xa, al, m), 0, m);
        let e = lagrange_interp(xs, masked_shares(xb, be, m), 0, m);
        assert forall|j: int| 0 <= j < k implies #[trigger] col_at(ys, i)[j]
            == beaver_shares(d, e, al, be, ga, m)[j] by {
            assert(opens_to_recovery(workers[j].opened_poly(stage)@, xs, pairs, n));
            assert(workers[j].opened_poly(stage)@[i].0.value() == d);
        }
        assert(col_at(ys, i) =~= beaver_shares(d, e, al, be, ga, m));
        lemma_beaver_multiplication(xs, xa, xb, al, be, ga, m);
        vstd::arithmetic::div_mod::lemma_mul_mod_noop_general(poly_eval(big_a, i + 1), poly_eval(big_b, i + 1), m);
    }
    // The recovered coefficients agree everywhere with Lagrange's formula
    // for those products.
    let big_r = recovered_coeffs(xs, res, n as nat);
    let rv = Seq::new(res.len(), |j: int| vals(res[j]));
    assert forall|j: int| 0 <= j < rv.len() implies (#[trigger] rv[j]).len() == n as nat by {
        assert(multiply_poly_outcome(&workers[j], stage, a_sh[j], b_sh[j], rs[j], res[j]));
    }
    let sr = Seq::new(n as nat, |c: int| crate::algebra::lagrange_sum(xs, Seq::new(rv.len(), |j: int| rv[j][c]), 0, m, k));
    assert forall|c: int| 0 <= c < n implies #[trigger] (big_r[c] % m) == sr[c] % m by {
        assert(Seq::new(rv.len(), |j: int| rv[j][c]) =~= column(res, c));
        vstd::arithmetic::div_mod::lemma_mod_twice(sr[c], m);
    }
    let sp = share_points(n as nat);
    assert forall|e: int| #![trigger poly_eval(big_r, e)] poly_eval(big_r, e) % m
        == crate::algebra::lagrange_factor_sum(sp, big_y, e, m, n) % m by {
        crate::algebra::lemma_eval_congruent(big_r, sr, e, m);
        lemma_sum_of_evals(xs, rv, n as nat, e, 0, m, k);
        let evs = Seq::new(rv.len(), |j: int| poly_eval(rv[j], e));
        assert(sr =~= Seq::new(
            n as nat,
            |c: int| crate::algebra::lagrange_sum(xs, Seq::new(rv.len(), |j: int| rv[j][c]), 0, m, k),
        ));
        assert(crate::algebra::lagrange_sum(xs, evs, 0, m, k) == poly_eval(sr, e));
        let fss = Seq::new(ys.len(), |j: int| crate::algebra::lagrange_factor_sum(sp, ys[j], e, m, n));
        assert forall|j: int| 0 <= j < k implies #[trigger] (evs[j] % m) == fss[j] % m by {
            assert(multiply_poly_outcome(&workers[j], stage, a_sh[j], b_sh[j], rs[j], res[j]));
            assert(poly_eval(vals(res[j]), e) % m == crate::algebra::lagrange_factor_sum(
                share_points(n as nat),
                beaver_products(workers[j].opened_poly(stage)@, rs[j]),
                e,
                m,
                n,
            ) % m);
        }
        lemma_sum_congruent(xs, evs, fss, 0, m, k);
        lemma_sum_of_factor_sums(xs, sp, ys, e, m, k, n);
        let sy = Seq::new(sp.len(), |i: int| crate::algebra::lagrange_sum(xs, col_at(ys, i), 0, m, k));
        assert forall|i: int| 0 <= i < sp.len() implies #[trigger] sy[i] == Seq::new(
            sp.len(),
            |i2: int| crate::algebra::lagrange_sum(xs, Seq::new(ys.len(), |j: int| ys[j][i2]), 0, m, k),
        )[i] by {
            assert(col_at(ys, i) =~= Seq::new(ys.len(), |j: int| ys[j][i]));
        }
        assert(sy =~= Seq::new(
            sp.len(),
            |i2: int| crate::algebra::lagrange_sum(xs, Seq::new(ys.len(), |j: int| ys[j][i2]), 0, m, k),
        ));
        assert(crate::algebra::lagrange_sum(xs, fss, 0, m, k) == crate::algebra::lagrange_factor_sum(sp, sy, e, m, n));
        assert forall|i: int| 0 <= i < n implies #[trigger] (sy[i] % m) == big_y[i] % m by {
            vstd::arithmetic::div_mod::lemma_mod_twice(sy[i], m);
        }
        lemma_factor_sum_congruent(sp, sy, big_y, e, m, n);
    }
    assert forall|c: int| 0 <= c < big_r.len() implies 0 <= #[trigger] big_r[c] < m by {
        vstd::arithmetic::div_mod::lemma_mod_bound(crate::algebra::lagrange_sum(xs, column(res, c), 0, m, k), m);
    }
    lemma_interpolate_products(big_a, big_b, big_y, big_r, m);
}

} // verus!
