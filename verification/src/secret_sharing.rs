//! Shamir secret sharing over a finite field.
use core::marker::PhantomData;
use vstd::prelude::*;

use crate::algebra::{index_points, poly_eval, vals};
use crate::util::{evaluations, interpolate_eval};
use crate::FiniteField;

verus! {

/// Shamir's scheme: shares are values of a random polynomial at `1 ..= n`.
pub struct SecretSharing<T: FiniteField> {
    _marker: PhantomData<T>,
}

impl<T: FiniteField> crate::SecretSharing<T> for SecretSharing<T> {
    fn share(secret: T, n: usize, t: usize) -> (r: Vec<T>) {
        let mut poly: Vec<T> = Vec::new();
        poly.push(secret);
        let mut k: usize = 1;
        while k < t
            invariant
                poly.len() == (if k == 0 { 1 } else { k as int }),
                k >= 1,
                k <= t || k == 1,
                poly[0] == secret,
            decreases t - k,
        {
            poly.push(T::random());
            k = k + 1;
        }
        let r = evaluations(&poly, n);
        proof {
            let c = vals(poly@);
            assert forall|j: int| 0 <= j < c.len() implies 0 <= #[trigger] c[j] < T::modulus() by {
                T::lemma_value_bound(poly@[j]);
            }
            assert(c.len() == (if t == 0 { 1 } else { t as int }));
            assert forall|i: int| 0 <= i < vals(r@).len() implies #[trigger] vals(r@)[i]
                == poly_eval(c, i + 1) % T::modulus() by {
                assert(vals(r@)[i] == r[i].value());
            }
            assert(c[0] == secret.value());
        }
        r
    }

    fn recover(shares: Vec<T>, indexes: Vec<usize>, n: usize, t: usize) -> (r: T) {
        let mut points: Vec<T> = Vec::new();
        for i in 0..indexes.len()
            invariant
                points.len() == i,
                forall|k: int|
                    0 <= k < i ==> #[trigger] points[k].value() == indexes[k] as int % T::modulus(),
        {
            let original_index_i = indexes[i];
            points.push(T::from_usize(original_index_i));
        }
        proof {
            assert(vals(points@) =~= index_points(indexes@, T::modulus()));
        }
        interpolate_eval(&points, &shares, &T::zero())
    }
}

} // verus!
