//! A domain-separated, pair-balanced binary Merkle tree over file contents,
//! with a flat-array layout, a persistent proof store, and a client-side
//! verifier for authentication paths.

pub mod hashing;
pub mod laws;
pub mod store;
pub mod text;
pub mod tree;
