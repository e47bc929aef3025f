//! Random Beaver multiplication triples.
use core::marker::PhantomData;
use vstd::prelude::*;

use vstd::arithmetic::power2::is_pow2;

use crate::algebra::{is_sharing, vals};
use crate::FiniteField;

verus! {

/// Draws `a` and `b` at random and pairs them with `c = a * b`.
pub struct BeaverTripleGeneratoor<T: FiniteField> {
    _marker: PhantomData<T>,
}

impl<T: FiniteField> crate::BeaverTripleGeneratoor<T> for BeaverTripleGeneratoor<T> {
    fn generate() -> (r: (T, T, T)) {
        let a = T::random();
        let b = T::random();
        let c = a.mul(&b);
        (a, b, c)
    }
}

/// The values that the workers hold of component `j` of triple `k`.
pub open spec fn triple_column<T: FiniteField>(rows: Seq<Vec<(T, T, T)>>, k: int, j: int) -> Seq<
    int,
> {
    Seq::new(
        rows.len(),
        |w: int|
            if j == 0 {
                rows[w]@[k].0.value()
            } else if j == 1 {
                rows[w]@[k].1.value()
            } else {
                rows[w]@[k].2.value()
            },
    )
}

/// The three columns are sharings, with threshold `t`, of some `a`, `b`
/// and `a * b`.
pub open spec fn is_triple_sharing(
    ca: Seq<int>,
    cb: Seq<int>,
    cg: Seq<int>,
    t: nat,
    m: int,
) -> bool {
    exists|a: int, b: int|
        0 <= a < m && 0 <= b < m && #[trigger] is_sharing(ca, a, t, m) && #[trigger] is_sharing(
            cb,
            b,
            t,
            m,
        ) && is_sharing(cg, (a * b) % m, t, m)
}

/// Draws `count` Beaver triples and shares each component among `workers`
/// parties (threshold `workers`): `r[w][k]` is worker `w`'s share of
/// triple `k`.
pub fn setup_random_shares<T: FiniteField>(workers: usize, count: usize) -> (r: Vec<
    Vec<(T, T, T)>,
>)
    requires
        !is_pow2(workers as int),
    ensures
        r.len() == workers,
        forall|w: int| 0 <= w < workers ==> #[trigger] r[w].len() == count,
        forall|k: int|
            0 <= k < count ==> #[trigger] is_triple_sharing(
                triple_column(r@, k, 0),
                triple_column(r@, k, 1),
                triple_column(r@, k, 2),
                workers as nat,
                T::modulus(),
            ),
{
    let ghost m = T::modulus();
    let mut alpha_shares: Vec<Vec<T>> = Vec::new();
    let mut beta_shares: Vec<Vec<T>> = Vec::new();
    let mut gamma_shares: Vec<Vec<T>> = Vec::new();
    for k in 0..count
        invariant
            !is_pow2(workers as int),
            m == T::modulus(),
            alpha_shares.len() == k,
            beta_shares.len() == k,
            gamma_shares.len() == k,
            forall|i: int|
                0 <= i < k ==> {
                    &&& (#[trigger] alpha_shares[i]).len() == workers
                    &&& beta_shares[i].len() == workers
                    &&& gamma_shares[i].len() == workers
                },
            forall|i: int|
                0 <= i < k ==> #[trigger] is_triple_sharing(
                    vals(alpha_shares[i]@),
                    vals(beta_shares[i]@),
                    vals(gamma_shares[i]@),
                    workers as nat,
                    m,
                ),
    {
        let r = <BeaverTripleGeneratoor<T> as crate::BeaverTripleGeneratoor<T>>::generate();
        let a_sh = <crate::secret_sharing::SecretSharing<T> as crate::SecretSharing<T>>::share(
            r.0,
            workers,
            workers,
        );
        let b_sh = <crate::secret_sharing::SecretSharing<T> as crate::SecretSharing<T>>::share(
            r.1,
            workers,
            workers,
        );
        let g_sh = <crate::secret_sharing::SecretSharing<T> as crate::SecretSharing<T>>::share(
            r.2,
            workers,
            workers,
        );
        proof {
            T::lemma_value_bound(r.0);
            T::lemma_value_bound(r.1);
            assert(is_sharing(vals(a_sh@), r.0.value(), workers as nat, m));
            assert(is_sharing(vals(b_sh@), r.1.value(), workers as nat, m));
            assert(is_triple_sharing(vals(a_sh@), vals(b_sh@), vals(g_sh@), workers as nat, m));
        }
        let ghost pa = alpha_shares@;
        let ghost pb = beta_shares@;
        let ghost pg = gamma_shares@;
        alpha_shares.push(a_sh);
        beta_shares.push(b_sh);
        gamma_shares.push(g_sh);
        proof {
            assert forall|i: int| 0 <= i < k + 1 implies {
                &&& (#[trigger] alpha_shares[i]).len() == workers
                &&& beta_shares[i].len() == workers
                &&& gamma_shares[i].len() == workers
            } by {
                if i < k {
                    assert(alpha_shares[i] == pa[i]);
                    assert(beta_shares[i] == pb[i]);
                    assert(gamma_shares[i] == pg[i]);
                } else {
                    assert(alpha_shares[i]@ == a_sh@);
                    assert(beta_shares[i]@ == b_sh@);
                    assert(gamma_shares[i]@ == g_sh@);
                    assert(a_sh@.len() == workers);
                }
            }
            assert forall|i: int| 0 <= i < k + 1 implies #[trigger] is_triple_sharing(
                vals(alpha_shares[i]@),
                vals(beta_shares[i]@),
                vals(gamma_shares[i]@),
                workers as nat,
                m,
            ) by {
                if i < k {
                    assert(alpha_shares[i] == pa[i]);
                    assert(beta_shares[i] == pb[i]);
                    assert(gamma_shares[i] == pg[i]);
                } else {
                    assert(alpha_shares[i] == a_sh);
                    assert(beta_shares[i] == b_sh);
                    assert(gamma_shares[i] == g_sh);
                }
            }
        }
    }
    let mut result: Vec<Vec<(T, T, T)>> = Vec::new();
    for w in 0..workers
        invariant
            alpha_shares.len() == count,
            beta_shares.len() == count,
            gamma_shares.len() == count,
            forall|i: int|
                0 <= i < count ==> {
                    &&& (#[trigger] alpha_shares[i]).len() == workers
                    &&& beta_shares[i].len() == workers
                    &&& gamma_shares[i].len() == workers
                },
            result.len() == w,
            forall|v: int|
                0 <= v < w ==> {
                    &&& (#[trigger] result[v]).len() == count
                    &&& forall|i: int|
                        0 <= i < count ==> #[trigger] result[v]@[i] == (
                            alpha_shares[i]@[v],
                            beta_shares[i]@[v],
                            gamma_shares[i]@[v],
                        )
                },
    {
        let mut row: Vec<(T, T, T)> = Vec::new();
        for k in 0..count
            invariant
                w < workers,
                alpha_shares.len() == count,
                beta_shares.len() == count,
                gamma_shares.len() == count,
                forall|i: int|
                    0 <= i < count ==> {
                        &&& (#[trigger] alpha_shares[i]).len() == workers
                        &&& beta_shares[i].len() == workers
                        &&& gamma_shares[i].len() == workers
                    },
                row.len() == k,
                forall|i: int|
                    0 <= i < k ==> #[trigger] row@[i] == (
                        alpha_shares[i]@[w as int],
                        beta_shares[i]@[w as int],
                        gamma_shares[i]@[w as int],
                    ),
        {
            row.push((alpha_shares[k][w], beta_shares[k][w], gamma_shares[k][w]));
        }
        result.push(row);
    }
    proof {
        assert forall|k: int| 0 <= k < count implies #[trigger] is_triple_sharing(
            triple_column(result@, k, 0),
            triple_column(result@, k, 1),
            triple_column(result@, k, 2),
            workers as nat,
            m,
        ) by {
            assert(triple_column(result@, k, 0) =~= vals(alpha_shares[k]@));
            assert(triple_column(result@, k, 1) =~= vals(beta_shares[k]@));
            assert(triple_column(result@, k, 2) =~= vals(gamma_shares[k]@));
        }
    }
    result
}

} // verus!
