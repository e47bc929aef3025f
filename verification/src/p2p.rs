//! Workers that talk to each other over a network.
pub mod scalar_worker;
