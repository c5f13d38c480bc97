//! The server side: route one decoded request to its handler and build
//! the response. Everything here is a pure state transition over the DHT
//! and the torrent store; reading chunk bytes from disk is the one thing
//! handed back to the caller as an explicit step.

use vstd::prelude::*;

use crate::bucket_tree::models;
use crate::dht::{peer_set, DistributedHashTable};
use crate::peer_node::PeerNode;
use crate::protocol::{peer_models, Command, CommandModel, ErrorCode, FileInfo, Peer, PeerData};
use crate::torrent::TorrentStore;

verus! {

/// The wire-level contact data of known peers.
pub open spec fn contacts_of(s: Seq<crate::bucket_tree::PeerModel>) -> Seq<PeerData> {
    Seq::new(s.len(), |i: int| PeerData { id: s[i].id, addr: s[i].addr })
}

/// What the dispatcher decided.
#[derive(Debug, PartialEq, Eq)]
pub enum DispatchOutcome {
    /// The response is ready to encode and send.
    Reply(Command),
    /// The request is sound; the caller must read these chunk bytes and
    /// finish with [`chunk_reply`].
    NeedChunk { crc: u32, chunk_id: u32 },
    /// A response-kind frame arrived where a request belongs.
    InvalidRequest,
}

/// Serve the metadata of a file, or say it is not here.
pub fn serve_file_info(torrents: &TorrentStore, crc: u32) -> (r: Command)
    requires
        torrents.wf(),
    ensures
        torrents.map().contains_key(crc) ==> (r matches Command::FileInfoResponse(fi) && fi@
            .file_size == torrents.map()[crc].file_size && fi@.chunk_size
            == torrents.map()[crc].chunk_size && fi@.file_crc == torrents.map()[crc].file_crc
            && fi@.original_filename == torrents.map()[crc].original_filename),
        !torrents.map().contains_key(crc) ==> r == Command::ErrorOccured(ErrorCode::FileNotFound),
{
    match torrents.get(crc) {
        Some(torrent) => Command::FileInfoResponse(torrent.file_info()),
        None => Command::ErrorOccured(ErrorCode::FileNotFound),
    }
}

/// Check a chunk request: the file must be known and the index must lie
/// inside its chunk list; only then may the bytes be read.
pub fn serve_file_chunk_check(torrents: &TorrentStore, crc: u32, chunk_id: u32) -> (r: Result<
    (),
    Command,
>)
    requires
        torrents.wf(),
    ensures
        match r {
            Ok(_) => torrents.map().contains_key(crc) && chunk_id < torrents.map()[
                crc
            ].completed_chunks.len(),
            Err(c) => (!torrents.map().contains_key(crc) && c == Command::ErrorOccured(
                ErrorCode::FileNotFound,
            )) || (torrents.map().contains_key(crc) && chunk_id >= torrents.map()[
                crc
            ].completed_chunks.len() && c == Command::ErrorOccured(ErrorCode::InvalidChunk)),
        },
{
    match torrents.get(crc) {
        Some(torrent) => {
            if chunk_id as usize >= torrent.metadata.completed_chunks.len() {
                Err(Command::ErrorOccured(ErrorCode::InvalidChunk))
            } else {
                Ok(())
            }
        },
        None => Err(Command::ErrorOccured(ErrorCode::FileNotFound)),
    }
}

/// Finish a chunk request once the bytes were read (or failed to read).
pub fn chunk_reply(crc: u32, chunk_id: u32, read: Result<Vec<u8>, crate::file_chunk::ChunkError>)
    -> (r: Command)
    ensures
        match read {
            Ok(bytes) => (r matches Command::ChunkResponse(c, i, b) && c == crc && i == chunk_id
                && b == bytes),
            Err(_) => r == Command::ErrorOccured(ErrorCode::ChunkNotFound),
        },
{
    match read {
        Ok(bytes) => Command::ChunkResponse(crc, chunk_id, bytes),
        Err(_) => Command::ErrorOccured(ErrorCode::ChunkNotFound),
    }
}

/// Serve the closest known peers to a target, learning the sender.
pub fn serve_find_node(
    dht: &mut DistributedHashTable,
    sender: &Peer,
    target: u32,
    now_ms: u64,
) -> (r: Command)
    requires
        old(dht).wf(),
    ensures
        final(dht).wf(),
        final(dht).id == old(dht).id,
        final(dht).kv_store == old(dht).kv_store,
        final(dht).files_store == old(dht).files_store,
        (r matches Command::FindNodeResponse(ps) && peer_models(ps@) == contacts_of(
            crate::routing_table::sort_by_distance(
                crate::routing_table::spec_rt_all_peers(old(dht).routing_table),
                target,
            ).take(
                if 4 <= crate::routing_table::spec_rt_all_peers(old(dht).routing_table).len() {
                    4
                } else {
                    crate::routing_table::spec_rt_all_peers(old(dht).routing_table).len() as int
                },
            ),
        )),
        old(dht).routing_table.recent_peers_cache_enabled ==> crate::routing_table::rt_knows(
            final(dht).routing_table,
            sender.id,
        ),
{
    let node = PeerNode::new(sender.id, sender.addr.clone());
    let found = dht.find_node(node, target, now_ms);
    let mut out: Vec<Peer> = Vec::new();
    let mut i: usize = 0;
    while i < found.len()
        invariant
            i <= found@.len(),
            peer_models(out@) =~= contacts_of(models(found@)).take(i as int),
        decreases found@.len() - i,
    {
        let p = Peer { id: found[i].id, addr: found[i].addr.clone() };
        let ghost pre = out@;
        out.push(p);
        proof {
            crate::protocol::lemma_peer_models_push(pre, out@[pre.len() as int]);
            assert(contacts_of(models(found@)).take(i + 1) =~= contacts_of(
                models(found@),
            ).take(i as int).push(contacts_of(models(found@))[i as int]));
            assert(peer_models(out@) =~= contacts_of(models(found@)).take(i + 1));
        }
        i = i + 1;
    }
    proof {
        assert(contacts_of(models(found@)).take(found@.len() as int) =~= contacts_of(
            models(found@),
        ));
        assert(peer_models(out@) =~= contacts_of(models(found@)));
    }
    Command::FindNodeResponse(out)
}

/// Answer a ping with this node's identifier, learning the sender.
pub fn serve_ping(dht: &mut DistributedHashTable, sender: &Peer, now_ms: u64) -> (r: Command)
    requires
        old(dht).wf(),
    ensures
        final(dht).wf(),
        final(dht).id == old(dht).id,
        final(dht).kv_store == old(dht).kv_store,
        final(dht).files_store == old(dht).files_store,
        r == Command::PingResponse(old(dht).id),
        old(dht).routing_table.recent_peers_cache_enabled ==> crate::routing_table::rt_knows(
            final(dht).routing_table,
            sender.id,
        ),
{
    let own_id = dht.id();
    dht.add_node(PeerNode::new(sender.id, sender.addr.clone()), now_ms);
    Command::PingResponse(own_id)
}

/// Store a value under a key, learning the sender.
pub fn serve_store(
    dht: &mut DistributedHashTable,
    sender: &Peer,
    key: u32,
    message: String,
    now_ms: u64,
) -> (r: Command)
    requires
        old(dht).wf(),
    ensures
        final(dht).wf(),
        final(dht).id == old(dht).id,
        final(dht).files_store == old(dht).files_store,
        final(dht).kv() =~= old(dht).kv().insert(key, message@),
        r == Command::StoreResponse(),
        old(dht).routing_table.recent_peers_cache_enabled ==> crate::routing_table::rt_knows(
            final(dht).routing_table,
            sender.id,
        ),
{
    dht.store_value(key, message);
    dht.add_node(PeerNode::new(sender.id, sender.addr.clone()), now_ms);
    Command::StoreResponse()
}

/// Serve the value under a key, or say the key is unknown; learn the
/// sender either way.
pub fn serve_find_value(
    dht: &mut DistributedHashTable,
    sender: &Peer,
    key: u32,
    now_ms: u64,
) -> (r: Command)
    requires
        old(dht).wf(),
    ensures
        final(dht).wf(),
        final(dht).id == old(dht).id,
        final(dht).kv_store == old(dht).kv_store,
        final(dht).files_store == old(dht).files_store,
        old(dht).kv().contains_key(key) ==> (r matches Command::FindValueResponse(v) && v@ == old(
            dht,
        ).kv()[key]),
        !old(dht).kv().contains_key(key) ==> r == Command::ErrorOccured(ErrorCode::KeyNotFound),
        old(dht).routing_table.recent_peers_cache_enabled ==> crate::routing_table::rt_knows(
            final(dht).routing_table,
            sender.id,
        ),
{
    dht.add_node(PeerNode::new(sender.id, sender.addr.clone()), now_ms);
    match dht.get_value(key) {
        Some(v) => Command::FindValueResponse(v),
        None => Command::ErrorOccured(ErrorCode::KeyNotFound),
    }
}

/// Record that the sender owns a file, learning the sender too.
pub fn serve_announce(
    dht: &mut DistributedHashTable,
    sender: &Peer,
    crc: u32,
    now_ms: u64,
) -> (r: Command)
    requires
        old(dht).wf(),
    ensures
        final(dht).wf(),
        final(dht).id == old(dht).id,
        final(dht).kv_store == old(dht).kv_store,
        final(dht).files() =~= old(dht).files().insert(
            crc,
            (if old(dht).files().contains_key(crc) {
                old(dht).files()[crc]
            } else {
                Set::<PeerData>::empty()
            }).insert(sender@),
        ),
        r == Command::AnnounceResponse(),
        old(dht).routing_table.recent_peers_cache_enabled ==> crate::routing_table::rt_knows(
            final(dht).routing_table,
            sender.id,
        ),
{
    dht.store_file_peer(crc, sender.clone());
    dht.add_node(PeerNode::new(sender.id, sender.addr.clone()), now_ms);
    Command::AnnounceResponse()
}

/// Serve the recorded owners of a file, or say none are known.
pub fn serve_get_peers(dht: &DistributedHashTable, crc: u32) -> (r: Command)
    requires
        dht.wf(),
    ensures
        dht.files().contains_key(crc) ==> (r matches Command::GetPeersResponse(ps) && peer_set(
            peer_models(ps@),
        ) == dht.files()[crc]),
        !dht.files().contains_key(crc) ==> r == Command::ErrorOccured(ErrorCode::FileNotFound),
{
    match dht.get_file_peers(crc) {
        Some(peers) => Command::GetPeersResponse(peers),
        None => Command::ErrorOccured(ErrorCode::FileNotFound),
    }
}

/// The identifier of the peer a request announces itself under, if it
/// carries one.
pub open spec fn sender_of(c: CommandModel) -> Option<u32> {
    match c {
        CommandModel::PingRequest(p) => Some(p.id),
        CommandModel::StoreRequest(p, _key, _value) => Some(p.id),
        CommandModel::FindNodeRequest(p, _target) => Some(p.id),
        CommandModel::FindValueRequest(p, _key) => Some(p.id),
        CommandModel::AnnounceRequest(p, _crc) => Some(p.id),
        _ => None,
    }
}

/// Is this frame one a server may receive?
pub open spec fn is_request(c: CommandModel) -> bool {
    match c {
        CommandModel::FileInfoRequest(_) => true,
        CommandModel::ChunkRequest(_, _) => true,
        CommandModel::PingRequest(_) => true,
        CommandModel::StoreRequest(_, _, _) => true,
        CommandModel::FindNodeRequest(_, _) => true,
        CommandModel::FindValueRequest(_, _) => true,
        CommandModel::MessageRequest(_) => true,
        CommandModel::AnnounceRequest(_, _) => true,
        CommandModel::GetPeersRequest(_) => true,
        _ => false,
    }
}

/// Route one request: run its handler against the DHT and the torrent
/// store, mark a sender that identified itself as alive, and hand back
/// either the ready response or the chunk read still needed. A
/// response-kind frame is refused.
pub fn dispatch(
    dht: &mut DistributedHashTable,
    torrents: &TorrentStore,
    request: Command,
    now_ms: u64,
) -> (r: DispatchOutcome)
    requires
        old(dht).wf(),
        torrents.wf(),
    ensures
        final(dht).wf(),
        final(dht).id == old(dht).id,
        (r == DispatchOutcome::InvalidRequest) <==> !is_request(request@),
        (request@ is ChunkRequest && torrents.map().contains_key(request@->ChunkRequest_0)
            && request@->ChunkRequest_1 >= torrents.map()[
            request@->ChunkRequest_0
        ].completed_chunks.len()) ==> (r matches DispatchOutcome::Reply(c) && c@
            == CommandModel::ErrorOccured(ErrorCode::InvalidChunk)),
        (request@ is ChunkRequest && torrents.map().contains_key(request@->ChunkRequest_0)
            && request@->ChunkRequest_1 < torrents.map()[
            request@->ChunkRequest_0
        ].completed_chunks.len()) ==> r == (DispatchOutcome::NeedChunk {
            crc: request@->ChunkRequest_0,
            chunk_id: request@->ChunkRequest_1,
        }),
        (request@ is ChunkRequest && !torrents.map().contains_key(request@->ChunkRequest_0)) ==> (
        r matches DispatchOutcome::Reply(c) && c@ == CommandModel::ErrorOccured(
            ErrorCode::FileNotFound,
        )),
        request@ is PingRequest ==> (r matches DispatchOutcome::Reply(c) && c@
            == CommandModel::PingResponse(old(dht).id)),
        request@ is StoreRequest ==> (r matches DispatchOutcome::Reply(c) && c@
            == CommandModel::StoreResponse && final(dht).kv() =~= old(dht).kv().insert(
            request@->StoreRequest_1,
            request@->StoreRequest_2,
        )),
        request@ is MessageRequest ==> (r matches DispatchOutcome::Reply(c) && c@
            == CommandModel::MessageResponse),
        request@ is AnnounceRequest ==> (r matches DispatchOutcome::Reply(c) && c@
            == CommandModel::AnnounceResponse),
        (request@ is FileInfoRequest && !torrents.map().contains_key(
            request@->FileInfoRequest_0,
        )) ==> (r matches DispatchOutcome::Reply(c) && c@ == CommandModel::ErrorOccured(
            ErrorCode::FileNotFound,
        )),
        (request@ is FileInfoRequest && torrents.map().contains_key(
            request@->FileInfoRequest_0,
        )) ==> (r matches DispatchOutcome::Reply(c) && c@ matches CommandModel::FileInfoResponse(
            fi,
        ) && fi.file_size == torrents.map()[request@->FileInfoRequest_0].file_size && fi.chunk_size
            == torrents.map()[request@->FileInfoRequest_0].chunk_size && fi.file_crc
            == torrents.map()[request@->FileInfoRequest_0].file_crc && fi.original_filename
            == torrents.map()[request@->FileInfoRequest_0].original_filename),
        (request@ is FindValueRequest && old(dht).kv().contains_key(
            request@->FindValueRequest_1,
        )) ==> (r matches DispatchOutcome::Reply(c) && c@ == CommandModel::FindValueResponse(
            old(dht).kv()[request@->FindValueRequest_1],
        )),
        (request@ is FindValueRequest && !old(dht).kv().contains_key(
            request@->FindValueRequest_1,
        )) ==> (r matches DispatchOutcome::Reply(c) && c@ == CommandModel::ErrorOccured(
            ErrorCode::KeyNotFound,
        )),
        (request@ is GetPeersRequest && !old(dht).files().contains_key(
            request@->GetPeersRequest_0,
        )) ==> (r matches DispatchOutcome::Reply(c) && c@ == CommandModel::ErrorOccured(
            ErrorCode::FileNotFound,
        )),
        (request@ is GetPeersRequest && old(dht).files().contains_key(
            request@->GetPeersRequest_0,
        )) ==> (r matches DispatchOutcome::Reply(c) && c@ matches CommandModel::GetPeersResponse(
            ps,
        ) && crate::dht::peer_set(ps) == old(dht).files()[request@->GetPeersRequest_0]),
        request@ is FindNodeRequest ==> (r matches DispatchOutcome::Reply(c) && c@
            matches CommandModel::FindNodeResponse(ps) && ps == contacts_of(
            crate::routing_table::sort_by_distance(
                crate::routing_table::spec_rt_all_peers(old(dht).routing_table),
                request@->FindNodeRequest_1,
            ).take(
                if 4 <= crate::routing_table::spec_rt_all_peers(old(dht).routing_table).len() {
                    4
                } else {
                    crate::routing_table::spec_rt_all_peers(old(dht).routing_table).len() as int
                },
            ),
        )),
        (old(dht).routing_table.recent_peers_cache_enabled && sender_of(request@) is Some)
            ==> crate::routing_table::rt_knows(
            final(dht).routing_table,
            sender_of(request@).unwrap(),
        ),
{
    match request {
        Command::FileInfoRequest(crc) => DispatchOutcome::Reply(serve_file_info(torrents, crc)),
        Command::ChunkRequest(crc, chunk_id) => match serve_file_chunk_check(
            torrents,
            crc,
            chunk_id,
        ) {
            Ok(_) => DispatchOutcome::NeedChunk { crc, chunk_id },
            Err(c) => DispatchOutcome::Reply(c),
        },
        Command::PingRequest(sender) => {
            let reply = serve_ping(dht, &sender, now_ms);
            let ghost mid = *dht;
            dht.peer_has_responded(sender.id, now_ms);
            proof {
                crate::bucket_tree::lemma_mark_preserves_contains(
                    mid.routing_table.bucket_tree@,
                    sender.id ^ mid.id,
                    now_ms,
                    sender.id ^ mid.id,
                );
            }
            DispatchOutcome::Reply(reply)
        },
        Command::StoreRequest(sender, key, message) => {
            let reply = serve_store(dht, &sender, key, message, now_ms);
            let ghost mid = *dht;
            dht.peer_has_responded(sender.id, now_ms);
            proof {
                crate::bucket_tree::lemma_mark_preserves_contains(
                    mid.routing_table.bucket_tree@,
                    sender.id ^ mid.id,
                    now_ms,
                    sender.id ^ mid.id,
                );
            }
            DispatchOutcome::Reply(reply)
        },
        Command::FindNodeRequest(sender, target) => {
            let reply = serve_find_node(dht, &sender, target, now_ms);
            let ghost mid = *dht;
            dht.peer_has_responded(sender.id, now_ms);
            proof {
                crate::bucket_tree::lemma_mark_preserves_contains(
                    mid.routing_table.bucket_tree@,
                    sender.id ^ mid.id,
                    now_ms,
                    sender.id ^ mid.id,
                );
            }
            DispatchOutcome::Reply(reply)
        },
        Command::FindValueRequest(sender, key) => {
            let reply = serve_find_value(dht, &sender, key, now_ms);
            let ghost mid = *dht;
            dht.peer_has_responded(sender.id, now_ms);
            proof {
                crate::bucket_tree::lemma_mark_preserves_contains(
                    mid.routing_table.bucket_tree@,
                    sender.id ^ mid.id,
                    now_ms,
                    sender.id ^ mid.id,
                );
            }
            DispatchOutcome::Reply(reply)
        },
        Command::MessageRequest(_text) => DispatchOutcome::Reply(Command::MessageResponse()),
        Command::AnnounceRequest(sender, crc) => {
            let reply = serve_announce(dht, &sender, crc, now_ms);
            let ghost mid = *dht;
            dht.peer_has_responded(sender.id, now_ms);
            proof {
                crate::bucket_tree::lemma_mark_preserves_contains(
                    mid.routing_table.bucket_tree@,
                    sender.id ^ mid.id,
                    now_ms,
                    sender.id ^ mid.id,
                );
            }
            DispatchOutcome::Reply(reply)
        },
        Command::GetPeersRequest(crc) => DispatchOutcome::Reply(serve_get_peers(dht, crc)),
        _ => DispatchOutcome::InvalidRequest,
    }
}

} // verus!
