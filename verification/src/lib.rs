//! Delegated computation over a prime field by Shamir secret sharing and
//! Beaver multiplication triples, with the field arithmetic and the
//! polynomial algebra behind it.
use vstd::arithmetic::power2::is_pow2;
use vstd::prelude::*;

use crate::algebra::{index_points, is_sharing, lagrange_interp, nodes_ok, vals};

pub mod algebra;
pub mod beaver_triple_generatoor;
pub mod ff;
pub mod lagrange;
pub mod mode;
pub mod p2p;
pub mod secret_sharing;
pub mod util;

verus! {

/// The integers modulo `p`, meant for a prime `p`. Each element is modelled
/// by its canonical representative `value()` in `0 .. modulus()`; every
/// operation states its result over that model. The trait states only
/// `modulus() > 1`: the laws of `lagrange` that need a prime modulus (and so
/// a field) take primality as a hypothesis, and no implementation here
/// proves its modulus prime.
pub trait FiniteField: Sized + Copy {
    /// The order `p` of the field.
    spec fn modulus() -> int;

    /// The canonical representative of the element.
    spec fn value(&self) -> int;

    proof fn lemma_modulus()
        ensures
            Self::modulus() > 1,
    ;

    proof fn lemma_value_bound(x: Self)
        ensures
            Self::modulus() > 1,
            0 <= x.value() < Self::modulus(),
    ;

    /// A uniformly drawn element; nothing is promised of which one.
    fn random() -> (r: Self);

    fn zero() -> (r: Self)
        ensures
            r.value() == 0,
    ;

    fn one() -> (r: Self)
        ensures
            r.value() == 1,
    ;

    fn from_usize(n: usize) -> (r: Self)
        ensures
            r.value() == n as int % Self::modulus(),
    ;

    /// Returns `partial * point + coef`, the step of Horner's method.
    fn horner_fold(partial: &Self, coef: &Self, point: &Self) -> (r: Self)
        ensures
            r.value() == (partial.value() * point.value() + coef.value()) % Self::modulus(),
    ;

    fn add(&self, other: &Self) -> (r: Self)
        ensures
            r.value() == (self.value() + other.value()) % Self::modulus(),
    ;

    fn sub(&self, other: &Self) -> (r: Self)
        ensures
            r.value() == (self.value() - other.value()) % Self::modulus(),
    ;

    fn mul(&self, other: &Self) -> (r: Self)
        ensures
            r.value() == (self.value() * other.value()) % Self::modulus(),
    ;

    /// `self * other^-1`; dividing by zero is refused.
    fn div(&self, other: &Self) -> (r: Self)
        requires
            other.value() != 0,
        ensures
            r.value() == (self.value() * algebra::inv_mod(other.value(), Self::modulus()))
                % Self::modulus(),
    ;

    /// The additive inverse `-self`.
    fn minus(&self) -> (r: Self)
        ensures
            r.value() == (-self.value()) % Self::modulus(),
    ;

    /// Field equality.
    fn equals(&self, other: &Self) -> (r: bool)
        ensures
            r == (self.value() == other.value()),
    ;
}

/// Threshold secret sharing of field elements among `n` parties.
pub trait SecretSharing<T: FiniteField> {
    /// Shares `secret` among `n` parties so that `t` of them recover it:
    /// share `i` is the value at `i + 1` of a random polynomial of degree
    /// below `t` whose constant term is `secret`.
    fn share(secret: T, n: usize, t: usize) -> (r: Vec<T>)
        requires
            !is_pow2(n as int),
        ensures
            r.len() == n,
            is_sharing(vals(r@), secret.value(), t as nat, T::modulus()),
    ;

    /// Recovers the secret from the `t` shares taken at the points
    /// `indexes` (each at most `n`), by Lagrange interpolation at zero.
    fn recover(shares: Vec<T>, indexes: Vec<usize>, n: usize, t: usize) -> (r: T)
        requires
            shares.len() == indexes.len(),
            shares.len() == t,
            forall|i: int| 0 <= i < indexes.len() ==> #[trigger] indexes[i] <= n,
            nodes_ok(index_points(indexes@, T::modulus()), T::modulus()),
        ensures
            r.value() == lagrange_interp(
                index_points(indexes@, T::modulus()),
                vals(shares@),
                0,
                T::modulus(),
            ),
    ;
}

/// A source of Beaver multiplication triples `(a, b, a * b)`.
pub trait BeaverTripleGeneratoor<T: FiniteField> {
    fn generate() -> (r: (T, T, T))
        ensures
            r.2.value() == (r.0.value() * r.1.value()) % T::modulus(),
    ;
}

} // verus!
