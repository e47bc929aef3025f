//! The roles of the delegated computation: workers that multiply shared
//! values with Beaver triples, for scalars and for polynomials.
pub mod poly;
pub mod scalar;
