use piretoutpire::client::{
    interpret_find_value_response, interpret_get_peers_response, interpret_ping_response,
};
use piretoutpire::dht::DistributedHashTable;
use piretoutpire::peer_node::PeerNode;
use piretoutpire::protocol::{decode_command, encode_command, Command, ErrorCode, Peer};
use piretoutpire::server::{dispatch, DispatchOutcome};
use piretoutpire::torrent::{TorrentFile, TorrentStore};

fn contact(id: u32, addr: &str) -> Peer {
    Peer {
        id,
        addr: addr.to_owned(),
    }
}

/// Run one request through the wire and the dispatcher of the remote
/// side, and bring the reply back over the wire.
fn round_trip(
    remote_dht: &mut DistributedHashTable,
    remote_torrents: &TorrentStore,
    request: Command,
) -> DispatchOutcome {
    let wire = encode_command(&request);
    let decoded = decode_command(wire.as_slice()).unwrap();
    let outcome = dispatch(remote_dht, remote_torrents, decoded, 0);
    match outcome {
        DispatchOutcome::Reply(reply) => {
            let reply_wire = encode_command(&reply);
            DispatchOutcome::Reply(decode_command(reply_wire.as_slice()).unwrap())
        },
        other => other,
    }
}

#[test]
fn test_bootstrap_exchange() {
    // Two empty peers; the second one pings the first and then asks for
    // itself, as a bootstrap does. Each ends up knowing the other.
    let mut a = DistributedHashTable::new(0);
    let a_torrents = TorrentStore::new();
    let mut b = DistributedHashTable::new(1);

    // Ping: B announces itself and learns A's identifier.
    let outcome = round_trip(&mut a, &a_torrents, Command::PingRequest(contact(1, "b:1")));
    let a_id = match outcome {
        DispatchOutcome::Reply(reply) => interpret_ping_response(reply).unwrap(),
        _ => panic!(),
    };
    assert_eq!(0, a_id);
    b.add_node(PeerNode::new(a_id, "a:1".to_owned()), 0);

    // Find-node on B's own identifier: A learns B again and serves back
    // its closest peers, which is B itself here.
    let outcome = round_trip(
        &mut a,
        &a_torrents,
        Command::FindNodeRequest(contact(1, "b:1"), 1),
    );
    match outcome {
        DispatchOutcome::Reply(Command::FindNodeResponse(peers)) => {
            assert!(peers.iter().all(|p| p.id == 1));
        },
        _ => panic!(),
    }

    assert_eq!(vec![1], a.peer_ids());
    assert_eq!(vec![0], b.peer_ids());
}

#[test]
fn test_find_value_exchange() {
    // A stores a value; B has nothing locally and asks A for it.
    let mut a = DistributedHashTable::new(0);
    let a_torrents = TorrentStore::new();
    a.store_value(42, "hello".to_owned());

    let b = DistributedHashTable::new(1);
    assert!(b.get_value(42).is_none());

    let outcome = round_trip(
        &mut a,
        &a_torrents,
        Command::FindValueRequest(contact(1, "b:1"), 42),
    );
    let value = match outcome {
        DispatchOutcome::Reply(reply) => interpret_find_value_response(reply).unwrap(),
        _ => panic!(),
    };
    assert_eq!("hello", value.unwrap());

    // An unknown key comes back as a plain absence.
    let outcome = round_trip(
        &mut a,
        &a_torrents,
        Command::FindValueRequest(contact(1, "b:1"), 43),
    );
    let value = match outcome {
        DispatchOutcome::Reply(reply) => interpret_find_value_response(reply).unwrap(),
        _ => panic!(),
    };
    assert!(value.is_none());
}

#[test]
fn test_announce_and_get_peers_exchange() {
    // A announces a file; B asks who owns it and receives A.
    let mut a = DistributedHashTable::new(0);
    let a_torrents = TorrentStore::new();

    let outcome = round_trip(
        &mut a,
        &a_torrents,
        Command::AnnounceRequest(contact(0, "a:1"), 3613099103),
    );
    assert!(matches!(
        outcome,
        DispatchOutcome::Reply(Command::AnnounceResponse())
    ));

    let outcome = round_trip(&mut a, &a_torrents, Command::GetPeersRequest(3613099103));
    let peers = match outcome {
        DispatchOutcome::Reply(reply) => interpret_get_peers_response(reply).unwrap().unwrap(),
        _ => panic!(),
    };
    assert!(peers.iter().any(|p| p.id == 0 && p.addr == "a:1"));

    // Nobody announced this one.
    let outcome = round_trip(&mut a, &a_torrents, Command::GetPeersRequest(7));
    match outcome {
        DispatchOutcome::Reply(reply) => {
            assert!(interpret_get_peers_response(reply).unwrap().is_none());
        },
        _ => panic!(),
    }
}

#[test]
fn test_chunk_request_bounds() {
    // A file whose metadata has only three chunks: asking for index 42
    // must come back as an invalid chunk.
    let mut dht = DistributedHashTable::new(0);
    let mut torrents = TorrentStore::new();
    let torrent = TorrentFile::preallocate(
        "file.torrent".to_owned(),
        "file".to_owned(),
        "file".to_owned(),
        5,
        1364906956,
        2,
    )
    .unwrap();
    assert_eq!(3, torrent.metadata.completed_chunks.len());
    torrents.insert(1364906956, torrent);

    let outcome = round_trip(&mut dht, &torrents, Command::ChunkRequest(1364906956, 42));
    assert!(matches!(
        outcome,
        DispatchOutcome::Reply(Command::ErrorOccured(ErrorCode::InvalidChunk))
    ));

    // A sound index asks the caller for the bytes.
    let outcome = round_trip(&mut dht, &torrents, Command::ChunkRequest(1364906956, 1));
    assert!(matches!(
        outcome,
        DispatchOutcome::NeedChunk { crc: 1364906956, chunk_id: 1 }
    ));

    // An unknown file.
    let outcome = round_trip(&mut dht, &torrents, Command::ChunkRequest(7, 0));
    assert!(matches!(
        outcome,
        DispatchOutcome::Reply(Command::ErrorOccured(ErrorCode::FileNotFound))
    ));
}

#[test]
fn test_store_request_exchange() {
    let mut a = DistributedHashTable::new(0);
    let a_torrents = TorrentStore::new();
    let outcome = round_trip(
        &mut a,
        &a_torrents,
        Command::StoreRequest(contact(1, "b:1"), 42, "hello".to_owned()),
    );
    assert!(matches!(
        outcome,
        DispatchOutcome::Reply(Command::StoreResponse())
    ));
    assert_eq!("hello", a.get_value(42).unwrap());
}

#[test]
fn test_response_frame_is_refused() {
    let mut a = DistributedHashTable::new(0);
    let a_torrents = TorrentStore::new();
    let outcome = dispatch(&mut a, &a_torrents, Command::PingResponse(3), 0);
    assert!(matches!(outcome, DispatchOutcome::InvalidRequest));
}
