//! A fixed-size chunk of file bytes.

use vstd::prelude::*;

verus! {

/// `COUNT` bytes of a file, as one value.
#[derive(Debug)]
pub struct Chunk<const COUNT: usize> {
    pub bytes: [u8; COUNT],
}

impl<const COUNT: usize> Chunk<COUNT> {
    /// Wrap raw bytes as a chunk.
    pub fn new(bytes: [u8; COUNT]) -> (r: Self)
        ensures
            r.bytes == bytes,
    {
        Chunk { bytes }
    }

    /// The raw bytes back.
    pub fn into_array(self) -> (r: [u8; COUNT])
        ensures
            r == self.bytes,
    {
        self.bytes
    }
}

} // verus!
