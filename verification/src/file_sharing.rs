//! Surfaces for direct chunk exchange between two peers: the production
//! side rides on the wire protocol, the mock side on a plain byte buffer.

use vstd::prelude::*;

verus! {

/// Chunk exchange over the network.
pub struct FileSharing {}

impl FileSharing {
    /// A fresh exchange surface.
    pub fn new() -> (r: Self) {
        FileSharing {  }
    }
}

/// Chunk exchange against an in-memory buffer, for exercising the
/// transfer logic without a network.
pub struct FileSharingMock {
    pub data: Vec<u8>,
}

impl FileSharingMock {
    /// A mock that owns these bytes.
    pub fn new(data: Vec<u8>) -> (r: Self)
        ensures
            r.data == data,
    {
        FileSharingMock { data }
    }
}

} // verus!
