//! Errors that a packed leaf reports to the tree above it.

use vstd::prelude::*;

verus! {

#[derive(Debug, Clone, Copy, PartialEq, Eq, Structural)]
pub enum Error {
    /// The write target has no byte range in the chunk.
    PackedLeafOutOfBounds { sub_index: usize, len: usize },
    /// The leaf already holds as many values as its chunk can pack.
    PackedLeafFull { len: usize },
}

} // verus!
