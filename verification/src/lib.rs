//! Minimal perfect hash construction by the "compress, hash, displace" scheme.
//!
//! `shared` holds what construction and lookup have in common: the triple hash
//! of a key, the displacement formula and the slot recovery. `generator` builds
//! the displacement table and the slot map for a fixed set of keys.

pub mod shared;
pub mod solver;
pub mod planner;
pub mod placement;
pub mod keys;
pub mod stream;
pub mod generator;
pub mod determinism;

pub use generator::{
    generate_hash, generate_hash_from, generate_hash_with, GenerateError, HashState,
};
pub use shared::{displace, get_index, hash, HashKey, Hashes, PhfHash};
