//! Verified core of an n-th prime finder.
//!
//! The library contains the pure primality oracle, the candidate
//! generator, the shared test registry, and a coordinator that drives
//! them to a proven n-th prime answer.  Thread plumbing (channels,
//! locks) lives outside the library and only calls into it.

pub mod coordinator;
pub mod models;
pub mod prime;

pub use coordinator::n_prime;
