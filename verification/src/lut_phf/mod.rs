//! Minimal perfect hashing by compress-hash-displace.

pub mod hashing;
pub mod keys;
pub mod model;
pub mod phf_generator;
pub mod phf_generator_double_hash;
pub mod proofs;
pub mod search;
pub mod table;
