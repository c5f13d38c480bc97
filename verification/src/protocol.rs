//! The wire protocol: every frame is one opcode byte followed by its
//! payload, all integers big-endian, strings length-prefixed UTF-8, a peer
//! an id plus its address in textual form, a peer list a count plus that
//! many peers.
//!
//! Encoding and decoding are verified against spec-level functions
//! (`encode_cmd` and `parse_command`), and parsing an encoded frame is
//! proved to give the frame back.

use vstd::prelude::*;
use vstd::utf8::*;

use crate::codec::{
    bytes_to_utf8_string, bytes_u32, copy_range, parse_string, push_bytes, string_bytes,
    u32_bytes, u32_to_u8_array, CodecError,
};

verus! {

// File protocol opcodes.
pub const OP_FILEINFO_REQUEST: u8 = 0x1;
pub const OP_FILEINFO_RESPONSE: u8 = 0x2;
pub const OP_CHUNK_REQUEST: u8 = 0x3;
pub const OP_CHUNK_RESPONSE: u8 = 0x4;

// Distributed-hash-table opcodes.
pub const OP_PING_REQUEST: u8 = 0x5;
pub const OP_PING_RESPONSE: u8 = 0x6;
pub const OP_STORE_REQUEST: u8 = 0x7;
pub const OP_STORE_RESPONSE: u8 = 0x8;
pub const OP_FIND_NODE_REQUEST: u8 = 0x9;
pub const OP_FIND_NODE_RESPONSE: u8 = 0xA;
pub const OP_FIND_VALUE_REQUEST: u8 = 0xB;
pub const OP_FIND_VALUE_RESPONSE: u8 = 0xC;

// Plain message opcodes.
pub const OP_MESSAGE_REQUEST: u8 = 0xD;
pub const OP_MESSAGE_RESPONSE: u8 = 0xE;

// File-ownership opcodes.
pub const OP_ANNOUNCE_REQUEST: u8 = 0xF;
pub const OP_ANNOUNCE_RESPONSE: u8 = 0x10;
pub const OP_GET_PEERS_REQUEST: u8 = 0x11;
pub const OP_GET_PEERS_RESPONSE: u8 = 0x12;

/// Any opcode at or above this carries an error kind in its low bits.
pub const OP_ERROR_OCCURED: u8 = 0x80;

// Peers ------------------------------------------------------------------

/// A network participant: a 32-bit identifier and an address in its
/// textual `host:port` form.
#[derive(Debug, PartialEq, Eq)]
pub struct Peer {
    pub id: u32,
    pub addr: String,
}

/// Mathematical image of a peer on the wire.
pub ghost struct PeerData {
    pub id: u32,
    pub addr: Seq<char>,
}

impl View for Peer {
    type V = PeerData;

    open spec fn view(&self) -> PeerData {
        PeerData { id: self.id, addr: self.addr@ }
    }
}

impl Clone for Peer {
    fn clone(&self) -> (res: Self)
        ensures
            res == *self,
    {
        Peer { id: self.id, addr: self.addr.clone() }
    }
}

// File metadata ----------------------------------------------------------

/// Metadata a peer serves about one shared file.
#[derive(Debug, PartialEq, Eq)]
pub struct FileInfo {
    pub file_size: u32,
    pub chunk_size: u32,
    pub file_crc: u32,
    pub original_filename: String,
}

/// Mathematical image of the file metadata.
pub ghost struct FileInfoData {
    pub file_size: u32,
    pub chunk_size: u32,
    pub file_crc: u32,
    pub original_filename: Seq<char>,
}

impl View for FileInfo {
    type V = FileInfoData;

    open spec fn view(&self) -> FileInfoData {
        FileInfoData {
            file_size: self.file_size,
            chunk_size: self.chunk_size,
            file_crc: self.file_crc,
            original_filename: self.original_filename@,
        }
    }
}

impl Clone for FileInfo {
    fn clone(&self) -> (res: Self)
        ensures
            res == *self,
    {
        FileInfo {
            file_size: self.file_size,
            chunk_size: self.chunk_size,
            file_crc: self.file_crc,
            original_filename: self.original_filename.clone(),
        }
    }
}

impl FileInfo {
    /// How many chunks the file splits into.
    pub fn nb_chunks(&self) -> (r: u32)
        requires
            self.chunk_size > 0,
        ensures
            r == if self.file_size % self.chunk_size == 0 {
                (self.file_size / self.chunk_size) as int
            } else {
                self.file_size / self.chunk_size + 1
            },
    {
        crate::math::div_ceil(self.file_size, self.chunk_size)
    }
}

// Error kinds ------------------------------------------------------------

/// What went wrong on the remote side, carried in the error opcode.
#[derive(Debug, Clone, Copy, PartialEq, Eq, Structural)]
pub enum ErrorCode {
    Unknown,
    FileNotFound,
    ChunkNotFound,
    InvalidChunk,
    KeyNotFound,
}

/// The low bits of the error opcode for each kind.
pub open spec fn spec_error_byte(e: ErrorCode) -> u8 {
    match e {
        ErrorCode::Unknown => 0,
        ErrorCode::FileNotFound => 1,
        ErrorCode::ChunkNotFound => 2,
        ErrorCode::InvalidChunk => 3,
        ErrorCode::KeyNotFound => 4,
    }
}

/// The kind a byte names; anything unassigned is `Unknown`.
pub open spec fn spec_error_of(v: u8) -> ErrorCode {
    if v == 1 {
        ErrorCode::FileNotFound
    } else if v == 2 {
        ErrorCode::ChunkNotFound
    } else if v == 3 {
        ErrorCode::InvalidChunk
    } else if v == 4 {
        ErrorCode::KeyNotFound
    } else {
        ErrorCode::Unknown
    }
}

impl ErrorCode {
    /// The low bits of the error opcode for this kind.
    pub fn as_byte(&self) -> (r: u8)
        ensures
            r == spec_error_byte(*self),
    {
        match self {
            ErrorCode::Unknown => 0,
            ErrorCode::FileNotFound => 1,
            ErrorCode::ChunkNotFound => 2,
            ErrorCode::InvalidChunk => 3,
            ErrorCode::KeyNotFound => 4,
        }
    }

    /// The kind a byte names; anything unassigned is `Unknown`.
    pub fn from_byte(v: u8) -> (r: Self)
        ensures
            r == spec_error_of(v),
    {
        if v == 1 {
            ErrorCode::FileNotFound
        } else if v == 2 {
            ErrorCode::ChunkNotFound
        } else if v == 3 {
            ErrorCode::InvalidChunk
        } else if v == 4 {
            ErrorCode::KeyNotFound
        } else {
            ErrorCode::Unknown
        }
    }
}

// Commands ---------------------------------------------------------------

/// One frame of the protocol, request or response.
#[derive(Debug, PartialEq, Eq)]
pub enum Command {
    /// An error kind, in place of any response.
    ErrorOccured(ErrorCode),
    /// Ask for the metadata of the file with this checksum.
    FileInfoRequest(u32),
    /// The metadata served back.
    FileInfoResponse(FileInfo),
    /// Ask for one chunk of a file: checksum, then chunk index.
    ChunkRequest(u32, u32),
    /// One chunk served back: checksum, chunk index, raw bytes.
    ChunkResponse(u32, u32, Vec<u8>),
    /// Announce oneself and ask the responder for its identifier.
    PingRequest(Peer),
    /// The responder's identifier.
    PingResponse(u32),
    /// Store a value under a key: sender, key, value.
    StoreRequest(Peer, u32, String),
    /// The store was taken.
    StoreResponse(),
    /// Ask for peers close to a target: sender, then target.
    FindNodeRequest(Peer, u32),
    /// The closest peers known to the responder.
    FindNodeResponse(Vec<Peer>),
    /// Ask for the value under a key: sender, then key.
    FindValueRequest(Peer, u32),
    /// The value found.
    FindValueResponse(String),
    /// A plain text message for the operator.
    MessageRequest(String),
    /// The message was shown.
    MessageResponse(),
    /// Declare that the sender owns the file with this checksum.
    AnnounceRequest(Peer, u32),
    /// The announcement was recorded.
    AnnounceResponse(),
    /// Ask who owns the file with this checksum.
    GetPeersRequest(u32),
    /// The recorded owners.
    GetPeersResponse(Vec<Peer>),
}

/// Mathematical image of a frame.
pub ghost enum CommandModel {
    ErrorOccured(ErrorCode),
    FileInfoRequest(u32),
    FileInfoResponse(FileInfoData),
    ChunkRequest(u32, u32),
    ChunkResponse(u32, u32, Seq<u8>),
    PingRequest(PeerData),
    PingResponse(u32),
    StoreRequest(PeerData, u32, Seq<char>),
    StoreResponse,
    FindNodeRequest(PeerData, u32),
    FindNodeResponse(Seq<PeerData>),
    FindValueRequest(PeerData, u32),
    FindValueResponse(Seq<char>),
    MessageRequest(Seq<char>),
    MessageResponse,
    AnnounceRequest(PeerData, u32),
    AnnounceResponse,
    GetPeersRequest(u32),
    GetPeersResponse(Seq<PeerData>),
}

/// The peer models of a vector of peers, in order.
pub open spec fn peer_models(s: Seq<Peer>) -> Seq<PeerData> {
    Seq::new(s.len(), |i: int| s[i]@)
}

impl View for Command {
    type V = CommandModel;

    open spec fn view(&self) -> CommandModel {
        match self {
            Command::ErrorOccured(e) => CommandModel::ErrorOccured(*e),
            Command::FileInfoRequest(crc) => CommandModel::FileInfoRequest(*crc),
            Command::FileInfoResponse(fi) => CommandModel::FileInfoResponse(fi@),
            Command::ChunkRequest(crc, id) => CommandModel::ChunkRequest(*crc, *id),
            Command::ChunkResponse(crc, id, chunk) => CommandModel::ChunkResponse(
                *crc,
                *id,
                chunk@,
            ),
            Command::PingRequest(p) => CommandModel::PingRequest(p@),
            Command::PingResponse(id) => CommandModel::PingResponse(*id),
            Command::StoreRequest(p, key, value) => CommandModel::StoreRequest(p@, *key, value@),
            Command::StoreResponse() => CommandModel::StoreResponse,
            Command::FindNodeRequest(p, target) => CommandModel::FindNodeRequest(p@, *target),
            Command::FindNodeResponse(ps) => CommandModel::FindNodeResponse(peer_models(ps@)),
            Command::FindValueRequest(p, key) => CommandModel::FindValueRequest(p@, *key),
            Command::FindValueResponse(value) => CommandModel::FindValueResponse(value@),
            Command::MessageRequest(text) => CommandModel::MessageRequest(text@),
            Command::MessageResponse() => CommandModel::MessageResponse,
            Command::AnnounceRequest(p, crc) => CommandModel::AnnounceRequest(p@, *crc),
            Command::AnnounceResponse() => CommandModel::AnnounceResponse,
            Command::GetPeersRequest(crc) => CommandModel::GetPeersRequest(*crc),
            Command::GetPeersResponse(ps) => CommandModel::GetPeersResponse(peer_models(ps@)),
        }
    }
}

// Spec-level encoding ------------------------------------------------------

/// A string short enough for its four-byte length prefix.
pub open spec fn wf_string(s: Seq<char>) -> bool {
    encode_utf8(s).len() <= u32::MAX
}

/// A peer whose address fits its prefix.
pub open spec fn wf_peer(p: PeerData) -> bool {
    wf_string(p.addr)
}

/// A frame all of whose variable parts fit their prefixes.
pub open spec fn wf_cmd(c: CommandModel) -> bool {
    match c {
        CommandModel::FileInfoResponse(fi) => wf_string(fi.original_filename),
        CommandModel::PingRequest(p) => wf_peer(p),
        CommandModel::StoreRequest(p, _key, value) => wf_peer(p) && wf_string(value),
        CommandModel::FindNodeRequest(p, _target) => wf_peer(p),
        CommandModel::FindNodeResponse(ps) => ps.len() <= u32::MAX && (forall|i: int|
            0 <= i < ps.len() ==> wf_peer(#[trigger] ps[i])),
        CommandModel::FindValueRequest(p, _key) => wf_peer(p),
        CommandModel::FindValueResponse(value) => wf_string(value),
        CommandModel::MessageRequest(text) => wf_string(text),
        CommandModel::AnnounceRequest(p, _crc) => wf_peer(p),
        CommandModel::GetPeersResponse(ps) => ps.len() <= u32::MAX && (forall|i: int|
            0 <= i < ps.len() ==> wf_peer(#[trigger] ps[i])),
        _ => true,
    }
}

/// A peer on the wire: its id, then its address as a string.
pub open spec fn peer_bytes(p: PeerData) -> Seq<u8> {
    u32_bytes(p.id) + string_bytes(p.addr)
}

/// Peers on the wire, one after the other.
pub open spec fn peers_concat(ps: Seq<PeerData>) -> Seq<u8>
    decreases ps.len(),
{
    if ps.len() == 0 {
        Seq::empty()
    } else {
        peer_bytes(ps[0]) + peers_concat(ps.drop_first())
    }
}

/// A peer list on the wire: the count, then the peers.
pub open spec fn peers_list_bytes(ps: Seq<PeerData>) -> Seq<u8> {
    u32_bytes(ps.len() as u32) + peers_concat(ps)
}

/// The metadata payload: three integers, then the filename.
pub open spec fn file_info_bytes(fi: FileInfoData) -> Seq<u8> {
    u32_bytes(fi.file_size) + u32_bytes(fi.chunk_size) + u32_bytes(fi.file_crc) + string_bytes(
        fi.original_filename,
    )
}

/// A whole frame on the wire: the opcode byte, then the payload.
pub open spec fn encode_cmd(c: CommandModel) -> Seq<u8> {
    match c {
        CommandModel::ErrorOccured(e) => seq![(OP_ERROR_OCCURED + spec_error_byte(e)) as u8],
        CommandModel::FileInfoRequest(crc) => seq![OP_FILEINFO_REQUEST] + u32_bytes(crc),
        CommandModel::FileInfoResponse(fi) => seq![OP_FILEINFO_RESPONSE] + file_info_bytes(fi),
        CommandModel::ChunkRequest(crc, id) => seq![OP_CHUNK_REQUEST] + u32_bytes(crc)
            + u32_bytes(id),
        CommandModel::ChunkResponse(crc, id, chunk) => seq![OP_CHUNK_RESPONSE] + u32_bytes(crc)
            + u32_bytes(id) + chunk,
        CommandModel::PingRequest(p) => seq![OP_PING_REQUEST] + peer_bytes(p),
        CommandModel::PingResponse(id) => seq![OP_PING_RESPONSE] + u32_bytes(id),
        CommandModel::StoreRequest(p, key, value) => seq![OP_STORE_REQUEST] + peer_bytes(p)
            + u32_bytes(key) + string_bytes(value),
        CommandModel::StoreResponse => seq![OP_STORE_RESPONSE],
        CommandModel::FindNodeRequest(p, target) => seq![OP_FIND_NODE_REQUEST] + peer_bytes(p)
            + u32_bytes(target),
        CommandModel::FindNodeResponse(ps) => seq![OP_FIND_NODE_RESPONSE] + peers_list_bytes(ps),
        CommandModel::FindValueRequest(p, key) => seq![OP_FIND_VALUE_REQUEST] + peer_bytes(p)
            + u32_bytes(key),
        CommandModel::FindValueResponse(value) => seq![OP_FIND_VALUE_RESPONSE] + string_bytes(
            value,
        ),
        CommandModel::MessageRequest(text) => seq![OP_MESSAGE_REQUEST] + string_bytes(text),
        CommandModel::MessageResponse => seq![OP_MESSAGE_RESPONSE],
        CommandModel::AnnounceRequest(p, crc) => seq![OP_ANNOUNCE_REQUEST] + peer_bytes(p)
            + u32_bytes(crc),
        CommandModel::AnnounceResponse => seq![OP_ANNOUNCE_RESPONSE],
        CommandModel::GetPeersRequest(crc) => seq![OP_GET_PEERS_REQUEST] + u32_bytes(crc),
        CommandModel::GetPeersResponse(ps) => seq![OP_GET_PEERS_RESPONSE] + peers_list_bytes(ps),
    }
}

// Executable encoding ------------------------------------------------------

/// One peer appended to the buffer.
fn push_peer(dst: &mut Vec<u8>, p: &Peer)
    requires
        wf_peer(p@),
    ensures
        final(dst)@ == old(dst)@ + peer_bytes(p@),
{
    let id_bytes = u32_to_u8_array(p.id);
    push_bytes(dst, id_bytes.as_slice());
    let addr_bytes = crate::codec::string_to_u8_array(p.addr.clone());
    push_bytes(dst, addr_bytes.as_slice());
    proof {
        assert(dst@ =~= old(dst)@ + peer_bytes(p@));
    }
}

/// A peer list appended to the buffer: the count, then the peers.
fn push_peer_list(dst: &mut Vec<u8>, ps: &Vec<Peer>)
    requires
        peer_models(ps@).len() <= u32::MAX,
        forall|i: int| 0 <= i < ps@.len() ==> wf_peer(#[trigger] peer_models(ps@)[i]),
    ensures
        final(dst)@ == old(dst)@ + peers_list_bytes(peer_models(ps@)),
{
    let count = u32_to_u8_array(ps.len() as u32);
    push_bytes(dst, count.as_slice());
    let mut i: usize = 0;
    while i < ps.len()
        invariant
            i <= ps@.len(),
            peer_models(ps@).len() <= u32::MAX,
            forall|t: int| 0 <= t < ps@.len() ==> wf_peer(#[trigger] peer_models(ps@)[t]),
            dst@ == old(dst)@ + u32_bytes(ps@.len() as u32) + peers_concat(
                peer_models(ps@).take(i as int),
            ),
        decreases ps@.len() - i,
    {
        proof {
            assert(peer_models(ps@)[i as int] == ps@[i as int]@);
            assert(wf_peer(ps@[i as int]@));
        }
        push_peer(dst, &ps[i]);
        proof {
            lemma_peers_concat_push(peer_models(ps@).take(i as int), ps@[i as int]@);
            assert(peer_models(ps@).take(i + 1) =~= peer_models(ps@).take(i as int).push(
                ps@[i as int]@,
            ));
            assert(dst@ =~= old(dst)@ + u32_bytes(ps@.len() as u32) + peers_concat(
                peer_models(ps@).take(i + 1),
            ));
        }
        i = i + 1;
    }
    proof {
        assert(peer_models(ps@).take(ps@.len() as int) =~= peer_models(ps@));
        assert(dst@ =~= old(dst)@ + peers_list_bytes(peer_models(ps@)));
    }
}

/// Appending one peer to a list appends its bytes to the concatenation.
proof fn lemma_peers_concat_push(ps: Seq<PeerData>, p: PeerData)
    ensures
        peers_concat(ps.push(p)) == peers_concat(ps) + peer_bytes(p),
    decreases ps.len(),
{
    if ps.len() == 0 {
        assert(ps.push(p)[0] == p);
        assert(ps.push(p).drop_first() =~= Seq::<PeerData>::empty());
        assert(peers_concat(Seq::<PeerData>::empty()) =~= Seq::<u8>::empty());
        assert(peers_concat(ps.push(p)) == peer_bytes(p) + peers_concat(
            Seq::<PeerData>::empty(),
        ));
        assert(peers_concat(ps.push(p)) =~= peers_concat(ps) + peer_bytes(p));
    } else {
        lemma_peers_concat_push(ps.drop_first(), p);
        assert(ps.push(p).drop_first() =~= ps.drop_first().push(p));
        assert(ps.push(p)[0] == ps[0]);
        assert(peers_concat(ps.push(p)) =~= peers_concat(ps) + peer_bytes(p));
    }
}

/// Encode a frame for the wire. The variable parts must fit their length
/// prefixes; a decoded frame always does.
pub fn encode_command(cmd: &Command) -> (r: Vec<u8>)
    requires
        wf_cmd(cmd@),
    ensures
        r@ == encode_cmd(cmd@),
{
    let mut res: Vec<u8> = Vec::new();
    match cmd {
        Command::ErrorOccured(e) => {
            let b = e.as_byte();
            proof {
                assert(spec_error_byte(*e) <= 4);
            }
            res.push(OP_ERROR_OCCURED + b);
        },
        Command::FileInfoRequest(crc) => {
            res.push(OP_FILEINFO_REQUEST);
            let w = u32_to_u8_array(*crc);
            push_bytes(&mut res, w.as_slice());
        },
        Command::FileInfoResponse(fi) => {
            res.push(OP_FILEINFO_RESPONSE);
            let w = u32_to_u8_array(fi.file_size);
            push_bytes(&mut res, w.as_slice());
            let w = u32_to_u8_array(fi.chunk_size);
            push_bytes(&mut res, w.as_slice());
            let w = u32_to_u8_array(fi.file_crc);
            push_bytes(&mut res, w.as_slice());
            let name = crate::codec::string_to_u8_array(fi.original_filename.clone());
            push_bytes(&mut res, name.as_slice());
        },
        Command::ChunkRequest(crc, id) => {
            res.push(OP_CHUNK_REQUEST);
            let w = u32_to_u8_array(*crc);
            push_bytes(&mut res, w.as_slice());
            let w = u32_to_u8_array(*id);
            push_bytes(&mut res, w.as_slice());
        },
        Command::ChunkResponse(crc, id, chunk) => {
            res.push(OP_CHUNK_RESPONSE);
            let w = u32_to_u8_array(*crc);
            push_bytes(&mut res, w.as_slice());
            let w = u32_to_u8_array(*id);
            push_bytes(&mut res, w.as_slice());
            push_bytes(&mut res, chunk.as_slice());
        },
        Command::PingRequest(p) => {
            res.push(OP_PING_REQUEST);
            push_peer(&mut res, p);
        },
        Command::PingResponse(id) => {
            res.push(OP_PING_RESPONSE);
            let w = u32_to_u8_array(*id);
            push_bytes(&mut res, w.as_slice());
        },
        Command::StoreRequest(p, key, value) => {
            res.push(OP_STORE_REQUEST);
            push_peer(&mut res, p);
            let w = u32_to_u8_array(*key);
            push_bytes(&mut res, w.as_slice());
            let v = crate::codec::string_to_u8_array(value.clone());
            push_bytes(&mut res, v.as_slice());
        },
        Command::StoreResponse() => {
            res.push(OP_STORE_RESPONSE);
        },
        Command::FindNodeRequest(p, target) => {
            res.push(OP_FIND_NODE_REQUEST);
            push_peer(&mut res, p);
            let w = u32_to_u8_array(*target);
            push_bytes(&mut res, w.as_slice());
        },
        Command::FindNodeResponse(ps) => {
            res.push(OP_FIND_NODE_RESPONSE);
            push_peer_list(&mut res, ps);
        },
        Command::FindValueRequest(p, key) => {
            res.push(OP_FIND_VALUE_REQUEST);
            push_peer(&mut res, p);
            let w = u32_to_u8_array(*key);
            push_bytes(&mut res, w.as_slice());
        },
        Command::FindValueResponse(value) => {
            res.push(OP_FIND_VALUE_RESPONSE);
            let v = crate::codec::string_to_u8_array(value.clone());
            push_bytes(&mut res, v.as_slice());
        },
        Command::MessageRequest(text) => {
            res.push(OP_MESSAGE_REQUEST);
            let v = crate::codec::string_to_u8_array(text.clone());
            push_bytes(&mut res, v.as_slice());
        },
        Command::MessageResponse() => {
            res.push(OP_MESSAGE_RESPONSE);
        },
        Command::AnnounceRequest(p, crc) => {
            res.push(OP_ANNOUNCE_REQUEST);
            push_peer(&mut res, p);
            let w = u32_to_u8_array(*crc);
            push_bytes(&mut res, w.as_slice());
        },
        Command::AnnounceResponse() => {
            res.push(OP_ANNOUNCE_RESPONSE);
        },
        Command::GetPeersRequest(crc) => {
            res.push(OP_GET_PEERS_REQUEST);
            let w = u32_to_u8_array(*crc);
            push_bytes(&mut res, w.as_slice());
        },
        Command::GetPeersResponse(ps) => {
            res.push(OP_GET_PEERS_RESPONSE);
            push_peer_list(&mut res, ps);
        },
    }
    proof {
        assert(res@ =~= encode_cmd(cmd@));
    }
    res
}

// Spec-level parsing -------------------------------------------------------

/// Parse one peer from the front: id, address length, address bytes;
/// yield the peer and the unread remainder.
pub open spec fn parse_peer(b: Seq<u8>) -> Option<(PeerData, Seq<u8>)> {
    if b.len() < 8 {
        None
    } else {
        let id = bytes_u32(b.subrange(0, 4));
        let n = bytes_u32(b.subrange(4, 8)) as int;
        if b.len() - 8 < n {
            None
        } else if !valid_utf8(b.subrange(8, 8 + n)) {
            None
        } else {
            Some((PeerData { id, addr: decode_utf8(b.subrange(8, 8 + n)) }, b.skip(8 + n)))
        }
    }
}

/// Parse `count` peers from the front, one after the other.
pub open spec fn parse_peers(b: Seq<u8>, count: int) -> Option<(Seq<PeerData>, Seq<u8>)>
    decreases count,
{
    if count <= 0 {
        Some((Seq::empty(), b))
    } else {
        match parse_peer(b) {
            None => None,
            Some(pr) => match parse_peers(pr.1, count - 1) {
                None => None,
                Some(t) => Some((seq![pr.0] + t.0, t.1)),
            },
        }
    }
}

/// Parse a whole frame. Fixed-size payloads may carry trailing bytes, as
/// the receiver reads until the transport runs dry; every length prefix
/// must agree exactly with what follows it.
pub open spec fn parse_command(b: Seq<u8>) -> Option<CommandModel> {
    if b.len() < 1 {
        None
    } else {
        let op = b[0];
        let body = b.skip(1);
        if op >= OP_ERROR_OCCURED {
            Some(CommandModel::ErrorOccured(spec_error_of((op - OP_ERROR_OCCURED) as u8)))
        } else if op == OP_FILEINFO_REQUEST {
            if body.len() < 4 {
                None
            } else {
                Some(CommandModel::FileInfoRequest(bytes_u32(body.subrange(0, 4))))
            }
        } else if op == OP_FILEINFO_RESPONSE {
            if body.len() < 16 {
                None
            } else {
                match parse_string(body.skip(12)) {
                    None => None,
                    Some(name) => Some(
                        CommandModel::FileInfoResponse(
                            FileInfoData {
                                file_size: bytes_u32(body.subrange(0, 4)),
                                chunk_size: bytes_u32(body.subrange(4, 8)),
                                file_crc: bytes_u32(body.subrange(8, 12)),
                                original_filename: name,
                            },
                        ),
                    ),
                }
            }
        } else if op == OP_CHUNK_REQUEST {
            if body.len() < 8 {
                None
            } else {
                Some(
                    CommandModel::ChunkRequest(
                        bytes_u32(body.subrange(0, 4)),
                        bytes_u32(body.subrange(4, 8)),
                    ),
                )
            }
        } else if op == OP_CHUNK_RESPONSE {
            if body.len() < 8 {
                None
            } else {
                Some(
                    CommandModel::ChunkResponse(
                        bytes_u32(body.subrange(0, 4)),
                        bytes_u32(body.subrange(4, 8)),
                        body.skip(8),
                    ),
                )
            }
        } else if op == OP_PING_REQUEST {
            match parse_peer(body) {
                None => None,
                Some(pr) => if pr.1.len() == 0 {
                    Some(CommandModel::PingRequest(pr.0))
                } else {
                    None
                },
            }
        } else if op == OP_PING_RESPONSE {
            if body.len() < 4 {
                None
            } else {
                Some(CommandModel::PingResponse(bytes_u32(body.subrange(0, 4))))
            }
        } else if op == OP_STORE_REQUEST {
            match parse_peer(body) {
                None => None,
                Some(pr) => if pr.1.len() < 4 {
                    None
                } else {
                    match parse_string(pr.1.skip(4)) {
                        None => None,
                        Some(value) => Some(
                            CommandModel::StoreRequest(
                                pr.0,
                                bytes_u32(pr.1.subrange(0, 4)),
                                value,
                            ),
                        ),
                    }
                },
            }
        } else if op == OP_STORE_RESPONSE {
            Some(CommandModel::StoreResponse)
        } else if op == OP_FIND_NODE_REQUEST {
            match parse_peer(body) {
                None => None,
                Some(pr) => if pr.1.len() == 4 {
                    Some(CommandModel::FindNodeRequest(pr.0, bytes_u32(pr.1.subrange(0, 4))))
                } else {
                    None
                },
            }
        } else if op == OP_FIND_NODE_RESPONSE {
            if body.len() < 4 {
                None
            } else {
                match parse_peers(body.skip(4), bytes_u32(body.subrange(0, 4)) as int) {
                    None => None,
                    Some(t) => if t.1.len() == 0 {
                        Some(CommandModel::FindNodeResponse(t.0))
                    } else {
                        None
                    },
                }
            }
        } else if op == OP_FIND_VALUE_REQUEST {
            match parse_peer(body) {
                None => None,
                Some(pr) => if pr.1.len() == 4 {
                    Some(CommandModel::FindValueRequest(pr.0, bytes_u32(pr.1.subrange(0, 4))))
                } else {
                    None
                },
            }
        } else if op == OP_FIND_VALUE_RESPONSE {
            match parse_string(body) {
                None => None,
                Some(value) => Some(CommandModel::FindValueResponse(value)),
            }
        } else if op == OP_MESSAGE_REQUEST {
            match parse_string(body) {
                None => None,
                Some(text) => Some(CommandModel::MessageRequest(text)),
            }
        } else if op == OP_MESSAGE_RESPONSE {
            Some(CommandModel::MessageResponse)
        } else if op == OP_ANNOUNCE_REQUEST {
            match parse_peer(body) {
                None => None,
                Some(pr) => if pr.1.len() == 4 {
                    Some(CommandModel::AnnounceRequest(pr.0, bytes_u32(pr.1.subrange(0, 4))))
                } else {
                    None
                },
            }
        } else if op == OP_ANNOUNCE_RESPONSE {
            Some(CommandModel::AnnounceResponse)
        } else if op == OP_GET_PEERS_REQUEST {
            if body.len() < 4 {
                None
            } else {
                Some(CommandModel::GetPeersRequest(bytes_u32(body.subrange(0, 4))))
            }
        } else if op == OP_GET_PEERS_RESPONSE {
            if body.len() < 4 {
                None
            } else {
                match parse_peers(body.skip(4), bytes_u32(body.subrange(0, 4)) as int) {
                    None => None,
                    Some(t) => if t.1.len() == 0 {
                        Some(CommandModel::GetPeersResponse(t.0))
                    } else {
                        None
                    },
                }
            }
        } else {
            None
        }
    }
}

// Round trip ---------------------------------------------------------------

/// A peer's bytes at the front of a buffer parse back to the peer, with
/// the rest of the buffer untouched.
pub proof fn lemma_parse_peer_prefix(p: PeerData, rest: Seq<u8>)
    requires
        wf_peer(p),
    ensures
        parse_peer(peer_bytes(p) + rest) == Some((p, rest)),
{
    broadcast use encode_utf8_valid_utf8, encode_utf8_decode_utf8;

    let b = peer_bytes(p) + rest;
    let n = encode_utf8(p.addr).len() as int;
    crate::codec::lemma_u32_round_trip(p.id);
    crate::codec::lemma_u32_round_trip(n as u32);
    assert(b.subrange(0, 4) =~= u32_bytes(p.id));
    assert(b.subrange(4, 8) =~= u32_bytes(n as u32));
    assert(b.subrange(8, 8 + n) =~= encode_utf8(p.addr));
    assert(b.skip(8 + n) =~= rest);
}

/// A peer list's bytes at the front of a buffer parse back to the list.
pub proof fn lemma_parse_peers_prefix(ps: Seq<PeerData>, rest: Seq<u8>)
    requires
        forall|i: int| 0 <= i < ps.len() ==> wf_peer(#[trigger] ps[i]),
    ensures
        parse_peers(peers_concat(ps) + rest, ps.len() as int) == Some((ps, rest)),
    decreases ps.len(),
{
    if ps.len() == 0 {
        assert(peers_concat(ps) + rest =~= rest);
        assert(parse_peers(rest, 0) == Some((Seq::<PeerData>::empty(), rest)));
        assert(ps =~= Seq::<PeerData>::empty());
    } else {
        let tail = ps.drop_first();
        assert(peers_concat(ps) + rest =~= peer_bytes(ps[0]) + (peers_concat(tail) + rest));
        lemma_parse_peer_prefix(ps[0], peers_concat(tail) + rest);
        assert forall|i: int| 0 <= i < tail.len() implies wf_peer(#[trigger] tail[i]) by {
            assert(tail[i] == ps[i + 1]);
        }
        lemma_parse_peers_prefix(tail, rest);
        assert(seq![ps[0]] + tail =~= ps);
    }
}

/// Parsing an encoded frame gives the frame back, whenever its variable
/// parts fit their length prefixes (every frame that can be produced
/// does).
/// Round trip for the frames whose payload is only the opcode and plain
/// integers or raw bytes.
#[verifier::rlimit(100)]
#[verifier::spinoff_prover]
proof fn lemma_rt_plain(c: CommandModel)
    requires
        (c matches CommandModel::ErrorOccured(_) || c matches CommandModel::FileInfoRequest(_)
            || c matches CommandModel::ChunkRequest(_, _) || c matches CommandModel::ChunkResponse(
            _,
            _,
            _,
        ) || c matches CommandModel::PingResponse(_) || c matches CommandModel::StoreResponse
            || c matches CommandModel::MessageResponse
            || c matches CommandModel::AnnounceResponse || c matches CommandModel::GetPeersRequest(
            _,
        )),
    ensures
        parse_command(encode_cmd(c)) == Some(c),
{
    let b = encode_cmd(c);
    match c {
        CommandModel::ErrorOccured(e) => {
            assert(spec_error_byte(e) <= 4);
            assert(b[0] == OP_ERROR_OCCURED + spec_error_byte(e));
            assert(spec_error_of(spec_error_byte(e)) == e);
        },
        CommandModel::FileInfoRequest(crc) => {
            crate::codec::lemma_u32_round_trip(crc);
            assert(b.skip(1).subrange(0, 4) =~= u32_bytes(crc));
        },
        CommandModel::ChunkRequest(crc, id) => {
            crate::codec::lemma_u32_round_trip(crc);
            crate::codec::lemma_u32_round_trip(id);
            assert(b.skip(1).subrange(0, 4) =~= u32_bytes(crc));
            assert(b.skip(1).subrange(4, 8) =~= u32_bytes(id));
        },
        CommandModel::ChunkResponse(crc, id, chunk) => {
            crate::codec::lemma_u32_round_trip(crc);
            crate::codec::lemma_u32_round_trip(id);
            assert(b.skip(1).subrange(0, 4) =~= u32_bytes(crc));
            assert(b.skip(1).subrange(4, 8) =~= u32_bytes(id));
            assert(b.skip(1).skip(8) =~= chunk);
        },
        CommandModel::PingResponse(id) => {
            crate::codec::lemma_u32_round_trip(id);
            assert(b.skip(1).subrange(0, 4) =~= u32_bytes(id));
        },
        CommandModel::GetPeersRequest(crc) => {
            crate::codec::lemma_u32_round_trip(crc);
            assert(b.skip(1).subrange(0, 4) =~= u32_bytes(crc));
        },
        _ => {
        },
    }
}

/// Round trip for the frames carrying a sender peer followed by one
/// integer.
#[verifier::rlimit(100)]
#[verifier::spinoff_prover]
proof fn lemma_rt_peer_and_u32(c: CommandModel)
    requires
        wf_cmd(c),
        (c matches CommandModel::FindNodeRequest(_, _) || c matches CommandModel::FindValueRequest(
            _,
            _,
        ) || c matches CommandModel::AnnounceRequest(_, _)),
    ensures
        parse_command(encode_cmd(c)) == Some(c),
{
    let b = encode_cmd(c);
    match c {
        CommandModel::FindNodeRequest(p, x) => {
            assert(b.skip(1) =~= peer_bytes(p) + u32_bytes(x));
            lemma_parse_peer_prefix(p, u32_bytes(x));
            crate::codec::lemma_u32_round_trip(x);
            assert(u32_bytes(x).subrange(0, 4) =~= u32_bytes(x));
        },
        CommandModel::FindValueRequest(p, x) => {
            assert(b.skip(1) =~= peer_bytes(p) + u32_bytes(x));
            lemma_parse_peer_prefix(p, u32_bytes(x));
            crate::codec::lemma_u32_round_trip(x);
            assert(u32_bytes(x).subrange(0, 4) =~= u32_bytes(x));
        },
        CommandModel::AnnounceRequest(p, x) => {
            assert(b.skip(1) =~= peer_bytes(p) + u32_bytes(x));
            lemma_parse_peer_prefix(p, u32_bytes(x));
            crate::codec::lemma_u32_round_trip(x);
            assert(u32_bytes(x).subrange(0, 4) =~= u32_bytes(x));
        },
        _ => {
        },
    }
}

/// Round trip for the frames that end in a string.
#[verifier::rlimit(100)]
#[verifier::spinoff_prover]
proof fn lemma_rt_stringy(c: CommandModel)
    requires
        wf_cmd(c),
        (c matches CommandModel::FileInfoResponse(_) || c matches CommandModel::StoreRequest(
            _,
            _,
            _,
        ) || c matches CommandModel::FindValueResponse(_) || c matches CommandModel::MessageRequest(
            _,
        )),
    ensures
        parse_command(encode_cmd(c)) == Some(c),
{
    let b = encode_cmd(c);
    match c {
        CommandModel::FileInfoResponse(fi) => {
            let body = b.skip(1);
            crate::codec::lemma_u32_round_trip(fi.file_size);
            crate::codec::lemma_u32_round_trip(fi.chunk_size);
            crate::codec::lemma_u32_round_trip(fi.file_crc);
            crate::codec::lemma_string_round_trip(fi.original_filename);
            assert(body.subrange(0, 4) =~= u32_bytes(fi.file_size));
            assert(body.subrange(4, 8) =~= u32_bytes(fi.chunk_size));
            assert(body.subrange(8, 12) =~= u32_bytes(fi.file_crc));
            assert(body.skip(12) =~= string_bytes(fi.original_filename));
        },
        CommandModel::StoreRequest(p, key, value) => {
            let after = u32_bytes(key) + string_bytes(value);
            assert(b.skip(1) =~= peer_bytes(p) + after);
            lemma_parse_peer_prefix(p, after);
            crate::codec::lemma_u32_round_trip(key);
            crate::codec::lemma_string_round_trip(value);
            assert(after.subrange(0, 4) =~= u32_bytes(key));
            assert(after.skip(4) =~= string_bytes(value));
        },
        CommandModel::FindValueResponse(value) => {
            crate::codec::lemma_string_round_trip(value);
            assert(b.skip(1) =~= string_bytes(value));
        },
        CommandModel::MessageRequest(text) => {
            crate::codec::lemma_string_round_trip(text);
            assert(b.skip(1) =~= string_bytes(text));
        },
        _ => {
        },
    }
}

/// Round trip for the frames carrying a single peer or a peer list.
#[verifier::rlimit(100)]
#[verifier::spinoff_prover]
proof fn lemma_rt_peers(c: CommandModel)
    requires
        wf_cmd(c),
        (c matches CommandModel::PingRequest(_) || c matches CommandModel::FindNodeResponse(_)
            || c matches CommandModel::GetPeersResponse(_)),
    ensures
        parse_command(encode_cmd(c)) == Some(c),
{
    let b = encode_cmd(c);
    match c {
        CommandModel::PingRequest(p) => {
            assert(b.skip(1) =~= peer_bytes(p) + Seq::<u8>::empty());
            lemma_parse_peer_prefix(p, Seq::empty());
        },
        CommandModel::FindNodeResponse(ps) => {
            let body = b.skip(1);
            crate::codec::lemma_u32_round_trip(ps.len() as u32);
            assert(body.subrange(0, 4) =~= u32_bytes(ps.len() as u32));
            assert(body.skip(4) =~= peers_concat(ps) + Seq::<u8>::empty());
            lemma_parse_peers_prefix(ps, Seq::empty());
        },
        CommandModel::GetPeersResponse(ps) => {
            let body = b.skip(1);
            crate::codec::lemma_u32_round_trip(ps.len() as u32);
            assert(body.subrange(0, 4) =~= u32_bytes(ps.len() as u32));
            assert(body.skip(4) =~= peers_concat(ps) + Seq::<u8>::empty());
            lemma_parse_peers_prefix(ps, Seq::empty());
        },
        _ => {
        },
    }
}

/// Parsing an encoded frame gives the frame back, whenever its variable
/// parts fit their length prefixes (every frame that can be produced
/// does).
pub proof fn lemma_command_round_trip(c: CommandModel)
    requires
        wf_cmd(c),
    ensures
        parse_command(encode_cmd(c)) == Some(c),
{
    match c {
        CommandModel::FindNodeRequest(_, _) => lemma_rt_peer_and_u32(c),
        CommandModel::FindValueRequest(_, _) => lemma_rt_peer_and_u32(c),
        CommandModel::AnnounceRequest(_, _) => lemma_rt_peer_and_u32(c),
        CommandModel::FileInfoResponse(_) => lemma_rt_stringy(c),
        CommandModel::StoreRequest(_, _, _) => lemma_rt_stringy(c),
        CommandModel::FindValueResponse(_) => lemma_rt_stringy(c),
        CommandModel::MessageRequest(_) => lemma_rt_stringy(c),
        CommandModel::PingRequest(_) => lemma_rt_peers(c),
        CommandModel::FindNodeResponse(_) => lemma_rt_peers(c),
        CommandModel::GetPeersResponse(_) => lemma_rt_peers(c),
        _ => lemma_rt_plain(c),
    }
}

/// Everything a decoded frame holds fits its length prefixes: what came
/// off the wire can go back on it.
pub proof fn lemma_parsed_is_wf(b: Seq<u8>)
    requires
        parse_command(b) is Some,
    ensures
        wf_cmd(parse_command(b).unwrap()),
{
    broadcast use decode_utf8_encode_utf8;

    let op = b[0];
    let body = b.skip(1);
    if op >= OP_ERROR_OCCURED {
    } else if op == OP_FILEINFO_RESPONSE {
        lemma_parsed_string_is_wf(body.skip(12));
    } else if op == OP_PING_REQUEST {
        lemma_parsed_peer_is_wf(body);
    } else if op == OP_STORE_REQUEST {
        lemma_parsed_peer_is_wf(body);
        let pr = parse_peer(body).unwrap();
        lemma_parsed_string_is_wf(pr.1.skip(4));
    } else if op == OP_FIND_NODE_REQUEST || op == OP_FIND_VALUE_REQUEST || op
        == OP_ANNOUNCE_REQUEST {
        lemma_parsed_peer_is_wf(body);
    } else if op == OP_FIND_NODE_RESPONSE || op == OP_GET_PEERS_RESPONSE {
        lemma_parsed_peers_are_wf(body.skip(4), bytes_u32(body.subrange(0, 4)) as int);
    } else if op == OP_FIND_VALUE_RESPONSE || op == OP_MESSAGE_REQUEST {
        lemma_parsed_string_is_wf(body);
    }
}

/// A string parsed off the wire fits its four-byte prefix.
proof fn lemma_parsed_string_is_wf(b: Seq<u8>)
    requires
        parse_string(b) is Some,
    ensures
        wf_string(parse_string(b).unwrap()),
{
    broadcast use decode_utf8_encode_utf8;

    assert(encode_utf8(parse_string(b).unwrap()) == b.skip(4));
    assert(b.skip(4).len() == bytes_u32(b.subrange(0, 4)));
}

/// A peer parsed off the wire fits its prefixes.
proof fn lemma_parsed_peer_is_wf(b: Seq<u8>)
    requires
        parse_peer(b) is Some,
    ensures
        wf_peer(parse_peer(b).unwrap().0),
{
    broadcast use decode_utf8_encode_utf8;

    let n = bytes_u32(b.subrange(4, 8)) as int;
    assert(encode_utf8(parse_peer(b).unwrap().0.addr) == b.subrange(8, 8 + n));
}

/// Peers parsed off the wire fit their prefixes.
proof fn lemma_parsed_peers_are_wf(b: Seq<u8>, count: int)
    requires
        parse_peers(b, count) is Some,
    ensures
        forall|i: int|
            0 <= i < parse_peers(b, count).unwrap().0.len() ==> wf_peer(
                #[trigger] parse_peers(b, count).unwrap().0[i],
            ),
        parse_peers(b, count).unwrap().0.len() == if count >= 0 {
            count
        } else {
            0
        },
    decreases count,
{
    if count > 0 {
        lemma_parsed_peer_is_wf(b);
        let pr = parse_peer(b).unwrap();
        lemma_parsed_peers_are_wf(pr.1, count - 1);
        let t = parse_peers(pr.1, count - 1).unwrap();
        assert forall|i: int| 0 <= i < parse_peers(b, count).unwrap().0.len() implies wf_peer(
            #[trigger] parse_peers(b, count).unwrap().0[i],
        ) by {
            if i == 0 {
                assert(parse_peers(b, count).unwrap().0[0] == pr.0);
            } else {
                assert(parse_peers(b, count).unwrap().0[i] == t.0[i - 1]);
            }
        }
    }
}

// Executable parsing -------------------------------------------------------

/// The big-endian 32-bit value at `pos`.
fn read_u32_at(buf: &[u8], pos: usize) -> (r: u32)
    requires
        pos + 4 <= buf@.len(),
    ensures
        r == bytes_u32(buf@.subrange(pos as int, pos + 4)),
{
    let w: [u8; 4] = [buf[pos], buf[pos + 1], buf[pos + 2], buf[pos + 3]];
    proof {
        assert(w@ =~= buf@.subrange(pos as int, pos + 4));
    }
    crate::codec::u8_array_to_u32(&w)
}

/// Parse one peer starting at `pos`; on success also return the position
/// after it.
fn parse_peer_at(buf: &[u8], pos: usize) -> (r: Result<(Peer, usize), CodecError>)
    requires
        pos <= buf@.len(),
    ensures
        match r {
            Ok(pn) => parse_peer(buf@.skip(pos as int)) == Some(
                (pn.0@, buf@.skip(pn.1 as int)),
            ) && pos < pn.1 <= buf@.len(),
            Err(_) => parse_peer(buf@.skip(pos as int)) is None,
        },
{
    let ghost rem = buf@.skip(pos as int);
    if buf.len() - pos < 8 {
        return Err(CodecError::LengthMismatch);
    }
    let id = read_u32_at(buf, pos);
    let n32 = read_u32_at(buf, pos + 4);
    let n = n32 as usize;
    proof {
        assert(rem.subrange(0, 4) =~= buf@.subrange(pos as int, pos + 4));
        assert(rem.subrange(4, 8) =~= buf@.subrange(pos + 4, pos + 8));
    }
    if buf.len() - pos - 8 < n {
        return Err(CodecError::LengthMismatch);
    }
    let raw = copy_range(buf, pos + 8, pos + 8 + n);
    proof {
        assert(raw@ =~= rem.subrange(8, 8 + n as int));
    }
    match bytes_to_utf8_string(raw) {
        Some(addr) => {
            let next = pos + 8 + n;
            proof {
                assert(buf@.skip(next as int) =~= rem.skip(8 + n as int));
            }
            Ok((Peer { id, addr }, next))
        },
        None => Err(CodecError::InvalidUtf8),
    }
}

/// Parse a length-prefixed string that must run to the end of the buffer.
fn parse_string_at_end(buf: &[u8], pos: usize) -> (r: Result<String, CodecError>)
    requires
        pos <= buf@.len(),
    ensures
        match r {
            Ok(s) => parse_string(buf@.skip(pos as int)) == Some(s@),
            Err(_) => parse_string(buf@.skip(pos as int)) is None,
        },
{
    let raw = copy_range(buf, pos, buf.len());
    proof {
        assert(raw@ =~= buf@.skip(pos as int));
    }
    crate::codec::u8_array_to_string(raw.as_slice())
}

/// Pushing a peer onto the vector pushes its model.
pub(crate) proof fn lemma_peer_models_push(v: Seq<Peer>, p: Peer)
    ensures
        peer_models(v.push(p)) =~= peer_models(v).push(p@),
{
    assert forall|i: int| 0 <= i < peer_models(v.push(p)).len() implies peer_models(v.push(p))[i]
        == peer_models(v).push(p@)[i] by {
        if i < v.len() {
            assert(v.push(p)[i] == v[i]);
        } else {
            assert(v.push(p)[i] == p);
        }
    }
}

/// Parse `count` peers starting at `pos`; on success also return the
/// position after them.
fn parse_peers_at(buf: &[u8], pos: usize, count: u32) -> (r: Result<
    (Vec<Peer>, usize),
    CodecError,
>)
    requires
        pos <= buf@.len(),
    ensures
        match r {
            Ok(pr) => parse_peers(buf@.skip(pos as int), count as int) == Some(
                (peer_models(pr.0@), buf@.skip(pr.1 as int)),
            ) && pos <= pr.1 <= buf@.len(),
            Err(_) => parse_peers(buf@.skip(pos as int), count as int) is None,
        },
{
    let mut res: Vec<Peer> = Vec::new();
    let mut cur = pos;
    let mut remaining = count;
    proof {
        assert(peer_models(res@) =~= Seq::<PeerData>::empty());
    }
    while remaining > 0
        invariant
            pos <= cur <= buf@.len(),
            parse_peers(buf@.skip(pos as int), count as int) == (match parse_peers(
                buf@.skip(cur as int),
                remaining as int,
            ) {
                None => None,
                Some(t) => Some((peer_models(res@) + t.0, t.1)),
            }),
        decreases remaining,
    {
        let step = parse_peer_at(buf, cur);
        match step {
            Ok(pn) => {
                let (p, next) = pn;
                let ghost res0 = res@;
                res.push(p);
                proof {
                    lemma_peer_models_push(res0, p);
                    assert(peer_models(res@) == peer_models(res0).push(p@));
                    assert forall|t0: Seq<PeerData>|
                        peer_models(res0) + (seq![p@] + t0) =~= peer_models(res@) + t0 by {}
                }
                cur = next;
                remaining = remaining - 1;
            },
            Err(e) => {
                return Err(e);
            },
        }
    }
    proof {
        assert(parse_peers(buf@.skip(cur as int), 0) == Some(
            (Seq::<PeerData>::empty(), buf@.skip(cur as int)),
        ));
        assert(peer_models(res@) + Seq::<PeerData>::empty() =~= peer_models(res@));
    }
    Ok((res, cur))
}

/// Decode a frame. Succeeds exactly when the spec-level parser does, and
/// yields the same command.
pub fn decode_command(buf: &[u8]) -> (r: Result<Command, CodecError>)
    ensures
        match r {
            Ok(c) => parse_command(buf@) == Some(c@),
            Err(_) => parse_command(buf@) is None,
        },
{
    if buf.len() < 1 {
        return Err(CodecError::LengthMismatch);
    }
    let op = buf[0];
    let ghost body = buf@.skip(1);
    if op >= OP_ERROR_OCCURED {
        return Ok(Command::ErrorOccured(ErrorCode::from_byte(op - OP_ERROR_OCCURED)));
    }
    if op == OP_FILEINFO_REQUEST {
        if buf.len() < 5 {
            return Err(CodecError::LengthMismatch);
        }
        let crc = read_u32_at(buf, 1);
        proof {
            assert(body.subrange(0, 4) =~= buf@.subrange(1, 5));
        }
        return Ok(Command::FileInfoRequest(crc));
    }
    if op == OP_FILEINFO_RESPONSE {
        if buf.len() < 17 {
            return Err(CodecError::LengthMismatch);
        }
        let file_size = read_u32_at(buf, 1);
        let chunk_size = read_u32_at(buf, 5);
        let file_crc = read_u32_at(buf, 9);
        proof {
            assert(body.subrange(0, 4) =~= buf@.subrange(1, 5));
            assert(body.subrange(4, 8) =~= buf@.subrange(5, 9));
            assert(body.subrange(8, 12) =~= buf@.subrange(9, 13));
            assert(body.skip(12) =~= buf@.skip(13));
        }
        let name = match parse_string_at_end(buf, 13) {
            Ok(name) => name,
            Err(e) => {
                return Err(e);
            },
        };
        return Ok(
            Command::FileInfoResponse(
                FileInfo { file_size, chunk_size, file_crc, original_filename: name },
            ),
        );
    }
    if op == OP_CHUNK_REQUEST {
        if buf.len() < 9 {
            return Err(CodecError::LengthMismatch);
        }
        let crc = read_u32_at(buf, 1);
        let id = read_u32_at(buf, 5);
        proof {
            assert(body.subrange(0, 4) =~= buf@.subrange(1, 5));
            assert(body.subrange(4, 8) =~= buf@.subrange(5, 9));
        }
        return Ok(Command::ChunkRequest(crc, id));
    }
    if op == OP_CHUNK_RESPONSE {
        if buf.len() < 9 {
            return Err(CodecError::LengthMismatch);
        }
        let crc = read_u32_at(buf, 1);
        let id = read_u32_at(buf, 5);
        let chunk = copy_range(buf, 9, buf.len());
        proof {
            assert(body.subrange(0, 4) =~= buf@.subrange(1, 5));
            assert(body.subrange(4, 8) =~= buf@.subrange(5, 9));
            assert(chunk@ =~= body.skip(8));
        }
        return Ok(Command::ChunkResponse(crc, id, chunk));
    }
    if op == OP_PING_REQUEST {
        match parse_peer_at(buf, 1) {
            Ok((p, next)) => {
                if next == buf.len() {
                    proof {
                        assert(buf@.skip(next as int).len() == 0);
                    }
                    return Ok(Command::PingRequest(p));
                } else {
                    proof {
                        assert(buf@.skip(next as int).len() > 0);
                    }
                    return Err(CodecError::LengthMismatch);
                }
            },
            Err(e) => {
                return Err(e);
            },
        }
    }
    if op == OP_PING_RESPONSE {
        if buf.len() < 5 {
            return Err(CodecError::LengthMismatch);
        }
        let id = read_u32_at(buf, 1);
        proof {
            assert(body.subrange(0, 4) =~= buf@.subrange(1, 5));
        }
        return Ok(Command::PingResponse(id));
    }
    if op == OP_STORE_REQUEST {
        match parse_peer_at(buf, 1) {
            Ok((p, next)) => {
                if buf.len() - next < 4 {
                    return Err(CodecError::LengthMismatch);
                }
                let key = read_u32_at(buf, next);
                proof {
                    assert(buf@.skip(next as int).subrange(0, 4) =~= buf@.subrange(
                        next as int,
                        next + 4,
                    ));
                    assert(buf@.skip(next as int).skip(4) =~= buf@.skip(next + 4));
                }
                match parse_string_at_end(buf, next + 4) {
                    Ok(value) => {
                        return Ok(Command::StoreRequest(p, key, value));
                    },
                    Err(e) => {
                        return Err(e);
                    },
                }
            },
            Err(e) => {
                return Err(e);
            },
        }
    }
    if op == OP_STORE_RESPONSE {
        return Ok(Command::StoreResponse());
    }
    if op == OP_FIND_NODE_REQUEST {
        match parse_peer_at(buf, 1) {
            Ok((p, next)) => {
                if buf.len() - next != 4 {
                    return Err(CodecError::LengthMismatch);
                }
                let target = read_u32_at(buf, next);
                proof {
                    assert(buf@.skip(next as int).subrange(0, 4) =~= buf@.subrange(
                        next as int,
                        next + 4,
                    ));
                }
                return Ok(Command::FindNodeRequest(p, target));
            },
            Err(e) => {
                return Err(e);
            },
        }
    }
    if op == OP_FIND_NODE_RESPONSE {
        if buf.len() < 5 {
            return Err(CodecError::LengthMismatch);
        }
        let count = read_u32_at(buf, 1);
        proof {
            assert(body.subrange(0, 4) =~= buf@.subrange(1, 5));
            assert(body.skip(4) =~= buf@.skip(5));
        }
        match parse_peers_at(buf, 5, count) {
            Ok((ps, next)) => {
                if next == buf.len() {
                    proof {
                        assert(buf@.skip(next as int).len() == 0);
                    }
                    return Ok(Command::FindNodeResponse(ps));
                } else {
                    return Err(CodecError::LengthMismatch);
                }
            },
            Err(e) => {
                return Err(e);
            },
        }
    }
    if op == OP_FIND_VALUE_REQUEST {
        match parse_peer_at(buf, 1) {
            Ok((p, next)) => {
                if buf.len() - next != 4 {
                    return Err(CodecError::LengthMismatch);
                }
                let key = read_u32_at(buf, next);
                proof {
                    assert(buf@.skip(next as int).subrange(0, 4) =~= buf@.subrange(
                        next as int,
                        next + 4,
                    ));
                }
                return Ok(Command::FindValueRequest(p, key));
            },
            Err(e) => {
                return Err(e);
            },
        }
    }
    if op == OP_FIND_VALUE_RESPONSE {
        match parse_string_at_end(buf, 1) {
            Ok(value) => {
                return Ok(Command::FindValueResponse(value));
            },
            Err(e) => {
                return Err(e);
            },
        }
    }
    if op == OP_MESSAGE_REQUEST {
        match parse_string_at_end(buf, 1) {
            Ok(text) => {
                return Ok(Command::MessageRequest(text));
            },
            Err(e) => {
                return Err(e);
            },
        }
    }
    if op == OP_MESSAGE_RESPONSE {
        return Ok(Command::MessageResponse());
    }
    if op == OP_ANNOUNCE_REQUEST {
        match parse_peer_at(buf, 1) {
            Ok((p, next)) => {
                if buf.len() - next != 4 {
                    return Err(CodecError::LengthMismatch);
                }
                let crc = read_u32_at(buf, next);
                proof {
                    assert(buf@.skip(next as int).subrange(0, 4) =~= buf@.subrange(
                        next as int,
                        next + 4,
                    ));
                }
                return Ok(Command::AnnounceRequest(p, crc));
            },
            Err(e) => {
                return Err(e);
            },
        }
    }
    if op == OP_ANNOUNCE_RESPONSE {
        return Ok(Command::AnnounceResponse());
    }
    if op == OP_GET_PEERS_REQUEST {
        if buf.len() < 5 {
            return Err(CodecError::LengthMismatch);
        }
        let crc = read_u32_at(buf, 1);
        proof {
            assert(body.subrange(0, 4) =~= buf@.subrange(1, 5));
        }
        return Ok(Command::GetPeersRequest(crc));
    }
    if op == OP_GET_PEERS_RESPONSE {
        if buf.len() < 5 {
            return Err(CodecError::LengthMismatch);
        }
        let count = read_u32_at(buf, 1);
        proof {
            assert(body.subrange(0, 4) =~= buf@.subrange(1, 5));
            assert(body.skip(4) =~= buf@.skip(5));
        }
        match parse_peers_at(buf, 5, count) {
            Ok((ps, next)) => {
                if next == buf.len() {
                    proof {
                        assert(buf@.skip(next as int).len() == 0);
                    }
                    return Ok(Command::GetPeersResponse(ps));
                } else {
                    return Err(CodecError::LengthMismatch);
                }
            },
            Err(e) => {
                return Err(e);
            },
        }
    }
    Err(CodecError::LengthMismatch)
}

} // verus!
