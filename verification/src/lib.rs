//! A sparse Merkle tree kept on an indexable Merkle accumulator.
//!
//! The accumulator, the hash function and the payload cache are services of
//! the host. [`host::Host`] states what the library relies on; every proof in
//! this crate holds for any host that keeps that contract.

pub mod host;
pub mod memory;
pub mod merkle;
pub mod packed;
pub mod smt;
