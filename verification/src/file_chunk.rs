//! Chunk layout arithmetic and an in-memory chunked byte store.
//!
//! A file of `file_size` bytes splits into chunks of `chunk_size` bytes;
//! chunk `i` covers bytes `i * chunk_size` up to the smaller of
//! `(i + 1) * chunk_size` and the file size. The store here mirrors the
//! on-disk chunk file byte for byte: same offsets, same lengths, same
//! failure conditions; the disk-backed variant reuses this arithmetic.

use vstd::prelude::*;

verus! {

/// Default chunk size: one mebibyte.
pub const DEFAULT_CHUNK_SIZE: u64 = 1048576;

/// Why a chunk access was refused.
#[derive(Debug, Clone, Copy, PartialEq, Eq, Structural)]
pub enum ChunkError {
    /// The chunk index lies outside the file.
    OutOfRange,
    /// The bytes handed in do not have the chunk's exact length.
    WrongLength,
    /// The store cannot be built as asked.
    EmptyFile,
}

/// How many chunks a file of this size splits into.
pub open spec fn spec_nb_chunks(file_size: int, chunk_size: int) -> int {
    if file_size % chunk_size == 0 {
        file_size / chunk_size
    } else {
        file_size / chunk_size + 1
    }
}

/// First byte of the chunk.
pub open spec fn spec_chunk_from(chunk_id: int, chunk_size: int) -> int {
    chunk_id * chunk_size
}

/// One past the last byte of the chunk.
pub open spec fn spec_chunk_to(chunk_id: int, chunk_size: int, file_size: int) -> int {
    if chunk_id * chunk_size + chunk_size <= file_size {
        chunk_id * chunk_size + chunk_size
    } else {
        file_size
    }
}

/// A chunk read right after it was written gives back exactly the bytes
/// written: the splice of a write covers the range a read returns.
pub proof fn lemma_write_then_read(data: Seq<u8>, from: int, to: int, chunk: Seq<u8>)
    requires
        0 <= from <= to <= data.len(),
        chunk.len() == to - from,
    ensures
        (data.take(from) + chunk + data.skip(to)).subrange(from, to) =~= chunk,
        (data.take(from) + chunk + data.skip(to)).len() == data.len(),
{
}

/// The last chunk holds exactly the bytes past the full chunks:
/// `file_size - (nb_chunks - 1) * chunk_size` of them.
pub proof fn lemma_last_chunk_len(file_size: int, chunk_size: int)
    requires
        chunk_size > 0,
        file_size > 0,
    ensures
        spec_chunk_to(
            spec_nb_chunks(file_size, chunk_size) - 1,
            chunk_size,
            file_size,
        ) == file_size,
        spec_chunk_from(spec_nb_chunks(file_size, chunk_size) - 1, chunk_size) < file_size,
        spec_chunk_to(spec_nb_chunks(file_size, chunk_size) - 1, chunk_size, file_size)
            - spec_chunk_from(spec_nb_chunks(file_size, chunk_size) - 1, chunk_size) == file_size
            - (spec_nb_chunks(file_size, chunk_size) - 1) * chunk_size,
{
    let nb = spec_nb_chunks(file_size, chunk_size);
    assert(nb * chunk_size >= file_size && (nb - 1) * chunk_size < file_size) by (
    nonlinear_arith)
        requires
            chunk_size > 0,
            file_size > 0,
            nb == spec_nb_chunks(file_size, chunk_size),
    {
        assert(file_size == (file_size / chunk_size) * chunk_size + file_size % chunk_size);
    }
    assert((nb - 1) * chunk_size + chunk_size == nb * chunk_size) by (nonlinear_arith);
    assert(spec_chunk_to(nb - 1, chunk_size, file_size) == file_size);
}

/// A chunk index below the chunk count starts inside the file.
pub proof fn lemma_chunk_in_range(file_size: int, chunk_size: int, chunk_id: int)
    requires
        chunk_size > 0,
        0 <= chunk_id < spec_nb_chunks(file_size, chunk_size),
    ensures
        spec_chunk_from(chunk_id, chunk_size) < file_size,
        spec_chunk_from(chunk_id, chunk_size) <= spec_chunk_to(chunk_id, chunk_size, file_size)
            <= file_size,
{
    assert(chunk_id * chunk_size < file_size) by (nonlinear_arith)
        requires
            chunk_size > 0,
            0 <= chunk_id < spec_nb_chunks(file_size, chunk_size),
    {
        assert(file_size == (file_size / chunk_size) * chunk_size + file_size % chunk_size);
    }
}

/// A chunked view over an in-memory byte buffer.
pub struct MemoryChunks {
    /// Bytes of one chunk; the last chunk may be shorter.
    pub chunk_size: u64,
    /// The whole file's bytes.
    pub data: Vec<u8>,
}

impl MemoryChunks {
    /// A zero-filled store of `preallocated_size` bytes. An empty file or
    /// a zero chunk size is refused.
    pub fn open_new(chunk_size: u64, preallocated_size: u64) -> (r: Result<Self, ChunkError>)
        requires
            preallocated_size <= usize::MAX,
        ensures
            match r {
                Ok(s) => preallocated_size > 0 && chunk_size > 0 && s.chunk_size == chunk_size
                    && s.data@.len() == preallocated_size && (forall|i: int|
                    0 <= i < s.data@.len() ==> s.data@[i] == 0),
                Err(_) => preallocated_size == 0 || chunk_size == 0,
            },
    {
        if preallocated_size == 0 || chunk_size == 0 {
            return Err(ChunkError::EmptyFile);
        }
        let mut data: Vec<u8> = Vec::new();
        let mut i: u64 = 0;
        while i < preallocated_size
            invariant
                i <= preallocated_size <= usize::MAX,
                data@.len() == i,
                forall|t: int| 0 <= t < data@.len() ==> data@[t] == 0,
            decreases preallocated_size - i,
        {
            data.push(0);
            i = i + 1;
        }
        Ok(MemoryChunks { chunk_size, data })
    }

    /// A store over existing bytes. A zero chunk size is refused.
    pub fn open_existing(chunk_size: u64, data: Vec<u8>) -> (r: Result<Self, ChunkError>)
        ensures
            match r {
                Ok(s) => chunk_size > 0 && s.chunk_size == chunk_size && s.data == data,
                Err(_) => chunk_size == 0,
            },
    {
        if chunk_size == 0 {
            return Err(ChunkError::EmptyFile);
        }
        Ok(MemoryChunks { chunk_size, data })
    }

    /// The file size in bytes.
    pub fn file_size(&self) -> (r: u64)
        requires
            self.data@.len() <= u64::MAX,
        ensures
            r == self.data@.len(),
    {
        self.data.len() as u64
    }

    /// How many chunks the file splits into.
    pub fn nb_chunks(&self) -> (r: u64)
        requires
            self.chunk_size > 0,
            self.data@.len() <= u64::MAX,
        ensures
            r == spec_nb_chunks(self.data@.len() as int, self.chunk_size as int),
    {
        crate::div::div_ceil(self.data.len() as u64, self.chunk_size)
    }

    /// The bytes of one chunk. An index whose chunk starts past the end
    /// of the file is refused.
    pub fn read_chunk(&self, chunk_id: u64) -> (r: Result<Vec<u8>, ChunkError>)
        requires
            self.chunk_size > 0,
        ensures
            match r {
                Ok(b) => chunk_id * self.chunk_size <= self.data@.len() && b@
                    == self.data@.subrange(
                    spec_chunk_from(chunk_id as int, self.chunk_size as int),
                    spec_chunk_to(
                        chunk_id as int,
                        self.chunk_size as int,
                        self.data@.len() as int,
                    ),
                ),
                Err(_) => chunk_id * self.chunk_size > self.data@.len(),
            },
    {
        let len = self.data.len();
        if chunk_id > len as u64 / self.chunk_size {
            proof {
                assert(chunk_id * self.chunk_size > self.data@.len()) by (nonlinear_arith)
                    requires
                        self.chunk_size > 0,
                        chunk_id > self.data@.len() as u64 / self.chunk_size,
                        len == self.data@.len(),
                {
                    assert(len as int == (len as int / self.chunk_size as int)
                        * self.chunk_size as int + len as int % self.chunk_size as int);
                }
            }
            return Err(ChunkError::OutOfRange);
        }
        proof {
            assert(chunk_id * self.chunk_size <= self.data@.len()) by (nonlinear_arith)
                requires
                    self.chunk_size > 0,
                    chunk_id <= self.data@.len() as u64 / self.chunk_size,
                    len == self.data@.len(),
            {
                assert(len as int == (len as int / self.chunk_size as int) * self.chunk_size as int
                    + len as int % self.chunk_size as int);
            }
        }
        let from64 = chunk_id * self.chunk_size;
        let from = from64 as usize;
        let to = if (len as u64) - from64 <= self.chunk_size {
            len
        } else {
            proof {
                assert(self.chunk_size < self.data@.len());
            }
            from + self.chunk_size as usize
        };
        let mut out: Vec<u8> = Vec::new();
        let mut i: usize = from;
        while i < to
            invariant
                from <= i <= to <= self.data@.len(),
                out@ == self.data@.subrange(from as int, i as int),
            decreases to - i,
        {
            out.push(self.data[i]);
            proof {
                assert(self.data@.subrange(from as int, i + 1) =~= self.data@.subrange(
                    from as int,
                    i as int,
                ).push(self.data@[i as int]));
            }
            i = i + 1;
        }
        Ok(out)
    }

    /// Overwrite one chunk. The index must start inside the file and the
    /// bytes must have the chunk's exact length.
    pub fn write_chunk(&mut self, chunk_id: u64, bytes: &[u8]) -> (r: Result<(), ChunkError>)
        requires
            old(self).chunk_size > 0,
        ensures
            final(self).chunk_size == old(self).chunk_size,
            match r {
                Ok(_) => chunk_id * old(self).chunk_size <= old(self).data@.len() && bytes@.len()
                    == spec_chunk_to(
                    chunk_id as int,
                    old(self).chunk_size as int,
                    old(self).data@.len() as int,
                ) - spec_chunk_from(chunk_id as int, old(self).chunk_size as int) && final(
                    self
                ).data@ == old(self).data@.take(
                    spec_chunk_from(chunk_id as int, old(self).chunk_size as int),
                ) + bytes@ + old(self).data@.skip(
                    spec_chunk_to(
                        chunk_id as int,
                        old(self).chunk_size as int,
                        old(self).data@.len() as int,
                    ),
                ),
                Err(_) => final(self).data == old(self).data && (chunk_id * old(self).chunk_size
                    > old(self).data@.len() || bytes@.len() != spec_chunk_to(
                    chunk_id as int,
                    old(self).chunk_size as int,
                    old(self).data@.len() as int,
                ) - spec_chunk_from(chunk_id as int, old(self).chunk_size as int)),
            },
    {
        let len = self.data.len();
        if chunk_id > len as u64 / self.chunk_size {
            proof {
                assert(chunk_id * self.chunk_size > self.data@.len()) by (nonlinear_arith)
                    requires
                        self.chunk_size > 0,
                        chunk_id > self.data@.len() as u64 / self.chunk_size,
                        len == self.data@.len(),
                {
                    assert(len as int == (len as int / self.chunk_size as int)
                        * self.chunk_size as int + len as int % self.chunk_size as int);
                }
            }
            return Err(ChunkError::OutOfRange);
        }
        proof {
            assert(chunk_id * self.chunk_size <= self.data@.len()) by (nonlinear_arith)
                requires
                    self.chunk_size > 0,
                    chunk_id <= self.data@.len() as u64 / self.chunk_size,
                    len == self.data@.len(),
            {
                assert(len as int == (len as int / self.chunk_size as int) * self.chunk_size as int
                    + len as int % self.chunk_size as int);
            }
        }
        let from64 = chunk_id * self.chunk_size;
        let from = from64 as usize;
        let to = if (len as u64) - from64 <= self.chunk_size {
            len
        } else {
            proof {
                assert(self.chunk_size < self.data@.len());
            }
            from + self.chunk_size as usize
        };
        if bytes.len() != to - from {
            return Err(ChunkError::WrongLength);
        }
        let ghost d0 = self.data@;
        let mut i: usize = 0;
        while i < bytes.len()
            invariant
                i <= bytes@.len(),
                bytes@.len() == to - from,
                from <= to <= d0.len(),
                self.chunk_size == old(self).chunk_size,
                self.data@.len() == d0.len(),
                forall|t: int| 0 <= t < from ==> self.data@[t] == d0[t],
                forall|t: int| 0 <= t < i ==> self.data@[from + t] == bytes@[t],
                forall|t: int| from + i <= t < d0.len() ==> self.data@[t] == d0[t],
            decreases bytes@.len() - i,
        {
            let ghost pv = self.data@;
            self.data.set(from + i, bytes[i]);
            i = i + 1;
        }
        proof {
            assert(self.data@ =~= d0.take(from as int) + bytes@ + d0.skip(to as int));
        }
        Ok(())
    }
}

} // verus!
