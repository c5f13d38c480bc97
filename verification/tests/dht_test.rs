use piretoutpire::dht::DistributedHashTable;
use piretoutpire::peer_node::PeerNode;

fn node(id: u32) -> PeerNode {
    PeerNode::new(id, "127.0.0.1:4000".to_owned())
}

#[test]
fn test_add_node() {
    let dummy_peer = node(0);

    let mut dht = DistributedHashTable::new(0);
    assert_eq!(0, dht.len());
    dht.add_node(dummy_peer.clone(), 0);
    assert_eq!(1, dht.len());
}

#[test]
fn test_find_node() {
    let dummy_peer = node(0);

    let mut dht = DistributedHashTable::new(0);

    // The table is initially empty.
    assert_eq!(0, dht.len());
    // Searching a non-existing entry finds nothing...
    assert_eq!(
        Vec::<PeerNode>::new(),
        dht.find_node(dummy_peer.clone(), 38, 0)
    );
    // ... but the sender is learned.
    assert_eq!(1, dht.len());

    dht.add_node(node(0), 0);
}

#[test]
fn test_store_and_get_value() {
    let mut dht = DistributedHashTable::new(0);
    assert!(dht.get_value(42).is_none());
    dht.store_value(42, "hello".to_owned());
    assert_eq!("hello", dht.get_value(42).unwrap());
    dht.store_value(42, "bye".to_owned());
    assert_eq!("bye", dht.get_value(42).unwrap());
}

#[test]
fn test_store_file_peers_deduplicated() {
    let mut dht = DistributedHashTable::new(0);
    assert!(dht.get_file_peers(7).is_none());
    let a = piretoutpire::protocol::Peer {
        id: 1,
        addr: "127.0.0.1:4000".to_owned(),
    };
    dht.store_file_peer(7, a.clone());
    dht.store_file_peer(7, a.clone());
    let peers = dht.get_file_peers(7).unwrap();
    assert_eq!(1, peers.len());
    assert_eq!(1, peers[0].id);
}
