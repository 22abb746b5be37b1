//! Packed leaf nodes of a Merkle-ized persistent list: several small values
//! share one 32-byte chunk, which is at once the leaf's data and its hash.

pub mod value;
pub mod error;
pub mod packed_leaf;
pub mod update_map;
pub mod laws;

pub use error::Error;
pub use packed_leaf::PackedLeaf;
pub use update_map::UpdateMap;
pub use value::Value;
