use vstd::prelude::*;

pub mod chunks;
pub mod codec;
pub mod entries;
pub mod hashing;
pub mod index_decode;
pub mod multi_decode;
pub mod multi_index;
pub mod sha;

verus! {

/// The number of bytes in the header of a multi-pack index file.
pub const HEADER_LEN: usize = 12;

} // verus!
