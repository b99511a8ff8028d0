//! A consistent-hashing ring: string keys are mapped onto a set of weighted
//! nodes through MD5-derived coordinates on a 32-bit ring.

pub mod bisect;
pub mod digest;
pub mod hashing_ring;
pub mod node;

pub use bisect::bisect_right;
pub use digest::{gen_key, hash_val, seed_key};
pub use hashing_ring::{ConsistentHashing, DEFAULT_INTERLEAVE_COUNT};
pub use node::{NodeInfo, NodeInfoWithWeigth, WithWeightInfo};
