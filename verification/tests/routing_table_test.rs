use piretoutpire::peer_node::PeerNode;
use piretoutpire::routing_table::RoutingTable;

fn node(id: u32) -> PeerNode {
    PeerNode::new(id, "127.0.0.1:4000".to_owned())
}

#[test]
fn test_init_table() {
    let mut rt = RoutingTable::new(0);
    for id in 0..=10 {
        rt.add_node(node(id), 0);
    }
    assert_eq!(11, rt.get_all_peers().len());

    assert_eq!(
        vec![0, 1, 2],
        rt.get_closest_peers_from(0, 3)
            .iter()
            .map(|peer| peer.id)
            .collect::<Vec<_>>()
    );

    assert_eq!(
        vec![1, 0, 3, 2, 5, 4, 7, 6, 9, 8, 10],
        rt.get_closest_peers_from(1, 11)
            .iter()
            .map(|peer| peer.id)
            .collect::<Vec<_>>()
    );

    assert_eq!(
        vec![10, 8, 9, 2, 3, 0, 1, 6, 7, 4, 5],
        rt.get_closest_peers_from(10, 11)
            .iter()
            .map(|peer| peer.id)
            .collect::<Vec<_>>()
    );
}

#[test]
fn test_remap_round_trip() {
    // An owner far from zero: stored ids are remapped, read ids must be
    // the real ones again.
    let mut rt = RoutingTable::new(0xDEAD);
    rt.add_node(node(42), 0);
    rt.add_node(node(0xBEEF), 0);
    let mut ids = rt
        .get_all_peers()
        .iter()
        .map(|peer| peer.id)
        .collect::<Vec<_>>();
    ids.sort();
    assert_eq!(vec![42, 0xBEEF], ids);
}

#[test]
fn test_refused_peers_land_in_cache() {
    // With the owner at 0, ids 0..4 fill the closest buckets after a few
    // splits; eventually refused peers must still be reachable.
    let mut rt = RoutingTable::new(0);
    for id in 0..50 {
        rt.add_node(node(id), 0);
    }
    let all = rt.get_all_peers();
    for id in 0..50u32 {
        assert!(all.iter().any(|peer| peer.id == id), "id {} lost", id);
    }
}
