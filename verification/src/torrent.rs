//! Torrent metadata: per-file bookkeeping pairing a local chunked data
//! file with its per-chunk checksums, plus the store that tracks every
//! file currently shared or being downloaded.
//!
//! Checksums are CRC-32/IEEE, computed by an outside routine whose result
//! is named `crc32_of`; everything proved here speaks of that name.

use vstd::prelude::*;

use crate::file_chunk::{spec_chunk_from, spec_chunk_to, spec_nb_chunks};
use crate::protocol::FileInfo;

verus! {

/// The CRC-32/IEEE checksum of a byte run.
pub uninterp spec fn crc32_of(bytes: Seq<u8>) -> u32;

/// Relies on `crc32fast::hash`: the CRC-32/IEEE checksum of the bytes, a
/// function of the bytes alone.
#[verifier::external_body]
pub fn crc32(bytes: &[u8]) -> (r: u32)
    ensures
        r == crc32_of(bytes@),
{
    crc32fast::hash(bytes)
}

/// Why a torrent operation was refused.
#[derive(Debug, Clone, Copy, PartialEq, Eq, Structural)]
pub enum TorrentError {
    /// The data on disk no longer matches the recorded whole-file
    /// checksum.
    CrcMismatch,
    /// The chunk index lies outside the recorded chunk list.
    InvalidChunk,
    /// The file is too large for 32-bit sizes, or splits into no chunks.
    BadShape,
}

/// Everything recorded about one shared file.
#[derive(Debug, PartialEq, Eq)]
pub struct Metadata {
    /// Filename as announced by peers.
    pub original_filename: String,
    /// Path of the data file on the local disk.
    pub original_file: String,
    /// Size of the data file in bytes.
    pub file_size: u32,
    /// Checksum of the whole data file.
    pub file_crc: u32,
    /// Size of one chunk in bytes.
    pub chunk_size: u32,
    /// One slot per chunk: the chunk's checksum once it is present.
    pub completed_chunks: Vec<Option<u32>>,
}

/// Mathematical image of the metadata.
pub ghost struct MetadataModel {
    pub original_filename: Seq<char>,
    pub original_file: Seq<char>,
    pub file_size: u32,
    pub file_crc: u32,
    pub chunk_size: u32,
    pub completed_chunks: Seq<Option<u32>>,
}

impl View for Metadata {
    type V = MetadataModel;

    open spec fn view(&self) -> MetadataModel {
        MetadataModel {
            original_filename: self.original_filename@,
            original_file: self.original_file@,
            file_size: self.file_size,
            file_crc: self.file_crc,
            chunk_size: self.chunk_size,
            completed_chunks: self.completed_chunks@,
        }
    }
}

impl Clone for Metadata {
    fn clone(&self) -> (res: Self)
        ensures
            res@ == self@,
    {
        let mut chunks: Vec<Option<u32>> = Vec::new();
        let mut i: usize = 0;
        while i < self.completed_chunks.len()
            invariant
                i <= self.completed_chunks@.len(),
                chunks@ == self.completed_chunks@.take(i as int),
            decreases self.completed_chunks@.len() - i,
        {
            chunks.push(self.completed_chunks[i]);
            proof {
                assert(self.completed_chunks@.take(i + 1) =~= self.completed_chunks@.take(
                    i as int,
                ).push(self.completed_chunks@[i as int]));
            }
            i = i + 1;
        }
        proof {
            assert(self.completed_chunks@.take(self.completed_chunks@.len() as int)
                =~= self.completed_chunks@);
        }
        Metadata {
            original_filename: self.original_filename.clone(),
            original_file: self.original_file.clone(),
            file_size: self.file_size,
            file_crc: self.file_crc,
            chunk_size: self.chunk_size,
            completed_chunks: chunks,
        }
    }
}

/// A sound metadata record: a positive chunk size and one slot per chunk.
pub open spec fn metadata_wf(m: MetadataModel) -> bool {
    &&& m.chunk_size > 0
    &&& m.completed_chunks.len() == spec_nb_chunks(m.file_size as int, m.chunk_size as int)
}

impl Metadata {
    /// Fresh metadata for a file not yet downloaded: every chunk missing.
    pub fn new(
        original_filename: String,
        original_file: String,
        file_size: u32,
        file_crc: u32,
        chunk_size: u32,
    ) -> (r: Result<Self, TorrentError>)
        ensures
            match r {
                Ok(m) => chunk_size > 0 && m@.original_filename == original_filename@
                    && m@.original_file == original_file@ && m.file_size == file_size
                    && m.file_crc == file_crc && m.chunk_size == chunk_size && metadata_wf(m@) && (
                forall|i: int| 0 <= i < m@.completed_chunks.len() ==> m@.completed_chunks[i] is None),
                Err(_) => chunk_size == 0,
            },
    {
        if chunk_size == 0 {
            return Err(TorrentError::BadShape);
        }
        let nb = crate::math::div_ceil(file_size, chunk_size);
        let mut completed: Vec<Option<u32>> = Vec::new();
        let mut i: u32 = 0;
        while i < nb
            invariant
                i <= nb,
                completed@.len() == i,
                forall|t: int| 0 <= t < completed@.len() ==> completed@[t] is None,
            decreases nb - i,
        {
            completed.push(None);
            i = i + 1;
        }
        Ok(
            Metadata {
                original_filename,
                original_file,
                file_size,
                file_crc,
                chunk_size,
                completed_chunks: completed,
            },
        )
    }

    /// Metadata computed from the file's bytes: the whole-file checksum
    /// and one checksum per chunk, all present.
    pub fn extract_from_bytes(
        original_filename: String,
        original_file: String,
        data: &Vec<u8>,
        chunk_size: u32,
    ) -> (r: Result<Self, TorrentError>)
        ensures
            match r {
                Ok(m) => chunk_size > 0 && data@.len() <= u32::MAX && m@.original_filename
                    == original_filename@ && m@.original_file == original_file@ && m.file_size
                    == data@.len() && m.file_crc == crc32_of(data@) && m.chunk_size == chunk_size
                    && metadata_wf(m@) && (forall|i: int|
                    0 <= i < m@.completed_chunks.len() ==> m@.completed_chunks[i] == Some(
                        crc32_of(
                            data@.subrange(
                                spec_chunk_from(i, chunk_size as int),
                                spec_chunk_to(i, chunk_size as int, data@.len() as int),
                            ),
                        ),
                    )),
                Err(_) => chunk_size == 0 || data@.len() > u32::MAX,
            },
    {
        if chunk_size == 0 {
            return Err(TorrentError::BadShape);
        }
        if data.len() > u32::MAX as usize {
            return Err(TorrentError::BadShape);
        }
        let file_size = data.len() as u32;
        let file_crc = crc32(data.as_slice());
        let nb = crate::math::div_ceil(file_size, chunk_size);
        let mut completed: Vec<Option<u32>> = Vec::new();
        let mut i: u32 = 0;
        while i < nb
            invariant
                i <= nb,
                chunk_size > 0,
                file_size == data@.len(),
                nb == spec_nb_chunks(data@.len() as int, chunk_size as int),
                completed@.len() == i,
                forall|t: int|
                    0 <= t < completed@.len() ==> completed@[t] == Some(
                        crc32_of(
                            data@.subrange(
                                spec_chunk_from(t, chunk_size as int),
                                spec_chunk_to(t, chunk_size as int, data@.len() as int),
                            ),
                        ),
                    ),
            decreases nb - i,
        {
            proof {
                crate::file_chunk::lemma_chunk_in_range(
                    data@.len() as int,
                    chunk_size as int,
                    i as int,
                );
            }
            let from = (i as usize) * (chunk_size as usize);
            let to = if data.len() - from <= chunk_size as usize {
                data.len()
            } else {
                from + chunk_size as usize
            };
            let chunk = crate::codec::copy_range(data.as_slice(), from, to);
            let c = crc32(chunk.as_slice());
            completed.push(Some(c));
            i = i + 1;
        }
        Ok(
            Metadata {
                original_filename,
                original_file,
                file_size,
                file_crc,
                chunk_size,
                completed_chunks: completed,
            },
        )
    }

    /// Record that a chunk arrived: its slot gets the chunk's checksum.
    /// An index outside the chunk list is refused.
    pub fn record_chunk(&mut self, chunk_id: u32, chunk: &[u8]) -> (r: Result<(), TorrentError>)
        ensures
            final(self).original_filename == old(self).original_filename,
            final(self).original_file == old(self).original_file,
            final(self).file_size == old(self).file_size,
            final(self).file_crc == old(self).file_crc,
            final(self).chunk_size == old(self).chunk_size,
            match r {
                Ok(_) => chunk_id < old(self).completed_chunks@.len() && final(
                    self
                ).completed_chunks@ == old(self).completed_chunks@.update(
                    chunk_id as int,
                    Some(crc32_of(chunk@)),
                ),
                Err(_) => chunk_id >= old(self).completed_chunks@.len() && *final(self)
                    == *old(self),
            },
    {
        if chunk_id as usize >= self.completed_chunks.len() {
            return Err(TorrentError::InvalidChunk);
        }
        let c = crc32(chunk);
        self.completed_chunks.set(chunk_id as usize, Some(c));
        Ok(())
    }

    /// Check the data against the recorded whole-file checksum: loading a
    /// torrent whose data was tampered with fails here.
    pub fn check_file_crc(&self, data: &[u8]) -> (r: Result<(), TorrentError>)
        ensures
            match r {
                Ok(_) => crc32_of(data@) == self.file_crc,
                Err(_) => crc32_of(data@) != self.file_crc,
            },
    {
        let got = crc32(data);
        if got != self.file_crc {
            Err(TorrentError::CrcMismatch)
        } else {
            Ok(())
        }
    }
}

/// Metadata paired with the path of its own metadata file.
#[derive(Debug, PartialEq, Eq)]
pub struct TorrentFile {
    /// Where the metadata itself is kept on disk.
    pub torrent_file: String,
    /// The recorded metadata.
    pub metadata: Metadata,
}

impl Clone for TorrentFile {
    fn clone(&self) -> (res: Self)
        ensures
            res.torrent_file == self.torrent_file,
            res.metadata@ == self.metadata@,
    {
        TorrentFile { torrent_file: self.torrent_file.clone(), metadata: self.metadata.clone() }
    }
}

impl TorrentFile {
    /// A torrent built from an existing local file's bytes, with the
    /// default chunk size.
    pub fn new(
        torrent_file: String,
        original_filename: String,
        original_file: String,
        data: &Vec<u8>,
    ) -> (r: Result<Self, TorrentError>)
        ensures
            match r {
                Ok(t) => t.torrent_file == torrent_file && data@.len() <= u32::MAX && t
                    .metadata.file_crc == crc32_of(data@) && t.metadata.file_size == data@.len()
                    && t.metadata.chunk_size == crate::file_chunk::DEFAULT_CHUNK_SIZE && metadata_wf(
                    t.metadata@,
                ),
                Err(_) => data@.len() > u32::MAX,
            },
    {
        Self::new_with_chunk_size(
            torrent_file,
            original_filename,
            original_file,
            data,
            1048576,
        )
    }

    /// A torrent built from an existing local file's bytes.
    pub fn new_with_chunk_size(
        torrent_file: String,
        original_filename: String,
        original_file: String,
        data: &Vec<u8>,
        chunk_size: u32,
    ) -> (r: Result<Self, TorrentError>)
        ensures
            match r {
                Ok(t) => chunk_size > 0 && t.torrent_file == torrent_file && data@.len()
                    <= u32::MAX && t.metadata.file_crc == crc32_of(data@) && t.metadata.file_size
                    == data@.len() && t.metadata.chunk_size == chunk_size && metadata_wf(
                    t.metadata@,
                ) && (forall|i: int|
                    0 <= i < t.metadata@.completed_chunks.len() ==> t.metadata@.completed_chunks[i]
                        == Some(
                        crc32_of(
                            data@.subrange(
                                spec_chunk_from(i, chunk_size as int),
                                spec_chunk_to(i, chunk_size as int, data@.len() as int),
                            ),
                        ),
                    )),
                Err(_) => chunk_size == 0 || data@.len() > u32::MAX,
            },
    {
        match Metadata::extract_from_bytes(original_filename, original_file, data, chunk_size) {
            Ok(metadata) => Ok(TorrentFile { torrent_file, metadata }),
            Err(e) => Err(e),
        }
    }

    /// The same construction, under the name callers commonly use for
    /// building a torrent from a file already on disk.
    pub fn from(
        torrent_file: String,
        original_filename: String,
        original_file: String,
        data: &Vec<u8>,
    ) -> (r: Result<Self, TorrentError>)
        ensures
            match r {
                Ok(t) => t.torrent_file == torrent_file && data@.len() <= u32::MAX && t
                    .metadata.file_crc == crc32_of(data@) && t.metadata.file_size == data@.len()
                    && t.metadata.chunk_size == crate::file_chunk::DEFAULT_CHUNK_SIZE && metadata_wf(
                    t.metadata@,
                ),
                Err(_) => data@.len() > u32::MAX,
            },
    {
        Self::new(torrent_file, original_filename, original_file, data)
    }

    /// An in-memory torrent for a file still to be fetched: sizes and
    /// checksum from the remote metadata, every chunk missing.
    pub fn preallocate(
        torrent_file: String,
        original_filename: String,
        original_file: String,
        file_size: u32,
        file_crc: u32,
        chunk_size: u32,
    ) -> (r: Result<Self, TorrentError>)
        ensures
            match r {
                Ok(t) => chunk_size > 0 && t.torrent_file == torrent_file && t.metadata.file_size
                    == file_size && t.metadata.file_crc == file_crc && t.metadata.chunk_size
                    == chunk_size && metadata_wf(t.metadata@) && (forall|i: int|
                    0 <= i < t.metadata@.completed_chunks.len()
                        ==> t.metadata@.completed_chunks[i] is None),
                Err(_) => chunk_size == 0,
            },
    {
        match Metadata::new(original_filename, original_file, file_size, file_crc, chunk_size) {
            Ok(metadata) => Ok(TorrentFile { torrent_file, metadata }),
            Err(e) => Err(e),
        }
    }

    /// The metadata as served to other peers.
    pub fn file_info(&self) -> (r: FileInfo)
        ensures
            r.file_size == self.metadata.file_size,
            r.chunk_size == self.metadata.chunk_size,
            r.file_crc == self.metadata.file_crc,
            r.original_filename@ == self.metadata.original_filename@,
    {
        FileInfo {
            file_size: self.metadata.file_size,
            chunk_size: self.metadata.chunk_size,
            file_crc: self.metadata.file_crc,
            original_filename: self.metadata.original_filename.clone(),
        }
    }
}

// The torrent store --------------------------------------------------------

/// What recording one arrived chunk did.
#[derive(Debug, Clone, Copy, PartialEq, Eq, Structural)]
pub enum RecordOutcome {
    /// The chunk's checksum is now recorded.
    Recorded,
    /// No torrent is known under that checksum; nothing changed.
    UnknownFile,
    /// The chunk index lies outside the torrent; nothing changed.
    InvalidChunk,
}

/// The map from file checksum to metadata an association vector
/// represents.
pub open spec fn store_model(s: Seq<(u32, TorrentFile)>) -> Map<u32, MetadataModel>
    decreases s.len(),
{
    if s.len() == 0 {
        Map::empty()
    } else {
        store_model(s.drop_last()).insert(s.last().0, s.last().1.metadata@)
    }
}

/// No checksum twice.
pub open spec fn store_unique(s: Seq<(u32, TorrentFile)>) -> bool {
    forall|a: int, b: int| 0 <= a < b < s.len() ==> (#[trigger] s[a]).0 != (#[trigger] s[b]).0
}

/// A store without the checksum behaves as the map without it.
proof fn lemma_store_absent(s: Seq<(u32, TorrentFile)>, key: u32)
    requires
        forall|i: int| 0 <= i < s.len() ==> (#[trigger] s[i]).0 != key,
    ensures
        !store_model(s).contains_key(key),
    decreases s.len(),
{
    if s.len() > 0 {
        let front = s.drop_last();
        assert forall|i: int| 0 <= i < front.len() implies (#[trigger] front[i]).0 != key by {
            assert(front[i] == s[i]);
        }
        lemma_store_absent(front, key);
    }
}

/// An entry at any position is what the map holds for its checksum.
proof fn lemma_store_lookup(s: Seq<(u32, TorrentFile)>, i: int)
    requires
        store_unique(s),
        0 <= i < s.len(),
    ensures
        store_model(s).contains_key(s[i].0),
        store_model(s)[s[i].0] == s[i].1.metadata@,
    decreases s.len(),
{
    if i == s.len() - 1 {
    } else {
        let front = s.drop_last();
        assert(front[i] == s[i]);
        lemma_store_lookup(front, i);
        assert(s.last().0 != s[i].0);
    }
}

/// Rewriting the entry at one position rewrites only its checksum in the
/// map.
proof fn lemma_store_update(s: Seq<(u32, TorrentFile)>, i: int, nv: TorrentFile)
    requires
        store_unique(s),
        0 <= i < s.len(),
    ensures
        store_model(s.update(i, (s[i].0, nv))) =~= store_model(s).insert(s[i].0, nv.metadata@),
        store_unique(s.update(i, (s[i].0, nv))),
    decreases s.len(),
{
    let s2 = s.update(i, (s[i].0, nv));
    if i == s.len() - 1 {
        assert(s2.drop_last() =~= s.drop_last());
        assert(s2.last() == (s[i].0, nv));
    } else {
        assert(s2.drop_last() =~= s.drop_last().update(i, (s[i].0, nv)));
        assert(s.drop_last()[i] == s[i]);
        lemma_store_update(s.drop_last(), i, nv);
        assert(s2.last() == s.last());
        assert(s.last().0 != s[i].0);
    }
    assert forall|a: int, b: int| 0 <= a < b < s2.len() implies (#[trigger] s2[a]).0 != (
    #[trigger] s2[b]).0 by {
        assert(s2[a].0 == s[a].0 && s2[b].0 == s[b].0);
    }
}

/// Every torrent currently shared or being fetched, by file checksum.
pub struct TorrentStore {
    /// The torrents, checksums unique.
    pub entries: Vec<(u32, TorrentFile)>,
}

impl TorrentStore {
    /// The store invariant: unique checksums.
    pub open spec fn wf(self) -> bool {
        store_unique(self.entries@)
    }

    /// The map this store represents.
    pub open spec fn map(self) -> Map<u32, MetadataModel> {
        store_model(self.entries@)
    }

    /// An empty store.
    pub fn new() -> (r: Self)
        ensures
            r.wf(),
            r.map() =~= Map::<u32, MetadataModel>::empty(),
    {
        TorrentStore { entries: Vec::new() }
    }

    /// Put a torrent in under its checksum, replacing any previous one.
    pub fn insert(&mut self, crc: u32, torrent: TorrentFile)
        requires
            old(self).wf(),
        ensures
            final(self).wf(),
            final(self).map() =~= old(self).map().insert(crc, torrent.metadata@),
    {
        let ghost s0 = self.entries@;
        let mut i: usize = 0;
        while i < self.entries.len()
            invariant
                i <= self.entries@.len(),
                self.entries@ == s0,
                s0 == old(self).entries@,
                store_unique(s0),
                forall|t: int| 0 <= t < i ==> (#[trigger] s0[t]).0 != crc,
            decreases self.entries@.len() - i,
        {
            if self.entries[i].0 == crc {
                let ghost nv = torrent;
                self.entries.set(i, (crc, torrent));
                proof {
                    assert(self.entries@ =~= s0.update(i as int, (crc, self.entries@[
                        i as int
                    ].1)));
                    lemma_store_update(s0, i as int, self.entries@[i as int].1);
                }
                return ;
            }
            i = i + 1;
        }
        self.entries.push((crc, torrent));
        proof {
            assert(self.entries@.drop_last() =~= s0);
            lemma_store_absent(s0, crc);
            assert forall|a: int, b: int|
                0 <= a < b < self.entries@.len() implies (#[trigger] self.entries@[a]).0 != (
            #[trigger] self.entries@[b]).0 by {
                if b < self.entries@.len() - 1 {
                    assert(self.entries@[a] == s0[a] && self.entries@[b] == s0[b]);
                } else {
                    assert(self.entries@[a] == s0[a]);
                    assert(s0[a].0 != crc);
                }
            }
        }
    }

    /// The torrent under a checksum, if any.
    pub fn get(&self, crc: u32) -> (r: Option<TorrentFile>)
        requires
            self.wf(),
        ensures
            match r {
                Some(t) => self.map().contains_key(crc) && self.map()[crc] == t.metadata@,
                None => !self.map().contains_key(crc),
            },
    {
        let mut i: usize = 0;
        while i < self.entries.len()
            invariant
                self.wf(),
                i <= self.entries@.len(),
                forall|t: int| 0 <= t < i ==> (#[trigger] self.entries@[t]).0 != crc,
            decreases self.entries@.len() - i,
        {
            if self.entries[i].0 == crc {
                proof {
                    lemma_store_lookup(self.entries@, i as int);
                }
                return Some(self.entries[i].1.clone());
            }
            i = i + 1;
        }
        proof {
            lemma_store_absent(self.entries@, crc);
        }
        None
    }

    /// Record one arrived chunk in the torrent it belongs to.
    pub fn record_chunk(&mut self, crc: u32, chunk_id: u32, chunk: &[u8]) -> (r: RecordOutcome)
        requires
            old(self).wf(),
        ensures
            final(self).wf(),
            r == RecordOutcome::UnknownFile ==> !old(self).map().contains_key(crc) && final(
                self
            ).entries@ == old(self).entries@,
            r == RecordOutcome::InvalidChunk ==> old(self).map().contains_key(crc) && chunk_id
                >= old(self).map()[crc].completed_chunks.len() && final(self).map() =~= old(
                self,
            ).map(),
            r == RecordOutcome::Recorded ==> old(self).map().contains_key(crc) && chunk_id < old(
                self,
            ).map()[crc].completed_chunks.len() && final(self).map() =~= old(self).map().insert(
                crc,
                (MetadataModel {
                    completed_chunks: old(self).map()[crc].completed_chunks.update(
                        chunk_id as int,
                        Some(crc32_of(chunk@)),
                    ),
                    ..old(self).map()[crc]
                }),
            ),
    {
        let ghost s0 = self.entries@;
        let mut i: usize = 0;
        while i < self.entries.len()
            invariant
                i <= self.entries@.len(),
                self.entries@ == s0,
                s0 == old(self).entries@,
                store_unique(s0),
                forall|t: int| 0 <= t < i ==> (#[trigger] s0[t]).0 != crc,
            decreases self.entries@.len() - i,
        {
            if self.entries[i].0 == crc {
                proof {
                    lemma_store_lookup(s0, i as int);
                }
                let mut entry = self.entries.remove(i);
                let outcome = match entry.1.metadata.record_chunk(chunk_id, chunk) {
                    Ok(_) => RecordOutcome::Recorded,
                    Err(_) => RecordOutcome::InvalidChunk,
                };
                self.entries.insert(i, entry);
                proof {
                    assert(self.entries@ =~= s0.update(i as int, (crc, self.entries@[
                        i as int
                    ].1)));
                    lemma_store_update(s0, i as int, self.entries@[i as int].1);
                }
                return outcome;
            }
            i = i + 1;
        }
        proof {
            lemma_store_absent(s0, crc);
        }
        RecordOutcome::UnknownFile
    }
}

} // verus!
