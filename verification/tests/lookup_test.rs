use piretoutpire::dht::DistributedHashTable;
use piretoutpire::lookup::LookupState;
use piretoutpire::peer_node::PeerNode;
use piretoutpire::protocol::Peer;

const DUMMY_ADDR: &str = "127.0.0.1:4000";

fn peer(id: u32) -> Peer {
    Peer {
        id,
        addr: DUMMY_ADDR.to_owned(),
    }
}

/// Answer one query against a fixed neighbour map, as the remote would:
/// its neighbours sorted by distance to the target, at most four of them.
fn mock_find_node(graph: &[(u32, Vec<u32>)], queried: &Peer, target: u32) -> Vec<Peer> {
    let mut nodes: Vec<Peer> = graph
        .iter()
        .find(|(id, _)| *id == queried.id)
        .map(|(_, neighbours)| neighbours.iter().map(|id| peer(*id)).collect())
        .unwrap_or_default();
    nodes.sort_by_key(|p| p.id ^ target);
    nodes.truncate(4);
    nodes
}

/// Drive one whole search over the mocked overlay, learning responding
/// peers in the table exactly as the networked search would.
fn run_lookup(
    dht: &mut DistributedHashTable,
    graph: &[(u32, Vec<u32>)],
    starting_from: u32,
    sender: u32,
    target: u32,
    max_hop: Option<u32>,
) -> Option<Peer> {
    let mut state = LookupState::new(peer(starting_from), sender, target, max_hop);
    loop {
        let batch = state.next_batch();
        let mut responses: Vec<Peer> = Vec::new();
        for queried in &batch {
            responses.extend(mock_find_node(graph, queried, target));
            // The peer just answered: learn it.
            dht.add_node(PeerNode::new(queried.id, queried.addr.clone()), 0);
        }
        state.absorb_round(responses);
        if state.should_store_found() {
            let found = state.found_peer.clone().unwrap();
            dht.add_node(PeerNode::new(found.id, found.addr.clone()), 0);
        }
        if state.done {
            break;
        }
    }
    state.found_peer
}

/// A small overlay with few connections.
fn small_graph() -> Vec<(u32, Vec<u32>)> {
    vec![
        (1, vec![2, 3, 5]),
        (2, vec![1, 3]),
        (3, vec![1, 2, 4, 6]),
        (4, vec![3, 7]),
        (5, vec![1]),
        (6, vec![3]),
        (7, vec![4, 8]),
        (8, vec![7]),
        (9, vec![]),
    ]
}

/// A big overlay with many interconnected nodes.
fn big_graph() -> Vec<(u32, Vec<u32>)> {
    vec![
        (1, vec![34, 43, 49, 60, 16, 18, 19, 12, 13, 15, 4, 5, 6]),
        (4, vec![34, 43, 49, 60, 16, 18, 19, 12, 13, 15, 1, 6, 5]),
        (5, vec![34, 43, 49, 60, 16, 18, 19, 12, 13, 15, 1, 6]),
        (6, vec![34, 43, 49, 60, 16, 18, 19, 12, 13, 15, 1, 4, 5]),
        (12, vec![34, 43, 49, 60, 16, 18, 19, 1, 4, 5, 6, 15, 13]),
        (13, vec![34, 43, 49, 60, 16, 18, 19, 1, 4, 5, 6, 15, 12]),
        (15, vec![34, 43, 49, 60, 16, 18, 19, 1, 4, 5, 6, 12, 13]),
        (16, vec![34, 43, 49, 60, 1, 4, 5, 6, 18, 19]),
        (18, vec![34, 43, 49, 60, 1, 4, 5, 6, 16, 19]),
        (19, vec![34, 43, 49, 60, 1, 4, 5, 6, 16, 18]),
        (34, vec![1, 4, 5, 6, 49, 60, 62, 43]),
        (43, vec![1, 4, 5, 6, 49, 60, 62, 34]),
        (49, vec![1, 4, 5, 6, 34, 43, 60, 62]),
        (60, vec![1, 4, 5, 6, 34, 43, 49, 62]),
        (62, vec![1, 4, 5, 6, 34, 43, 49, 60]),
    ]
}

/// A big overlay with only some interconnections.
fn partial_graph() -> Vec<(u32, Vec<u32>)> {
    vec![
        (1, vec![4, 5, 6]),
        (4, vec![13, 15, 1, 6, 5]),
        (5, vec![12, 13, 15, 1, 6]),
        (6, vec![12, 13, 15, 1, 4, 5]),
        (12, vec![18, 19, 4, 5]),
        (13, vec![16, 18, 19, 1, 4, 5, 6, 15, 12]),
        (15, vec![16, 18, 19, 1, 4, 5, 6, 12, 13]),
        (16, vec![34, 43, 49, 60, 1, 4, 5, 6, 18, 19]),
        (18, vec![34, 43, 49, 60, 1, 4, 5, 6, 16, 19]),
        (19, vec![34, 43, 49, 60, 1, 4, 5, 6, 16, 18]),
        (34, vec![1, 4, 5, 6, 49, 60, 62, 43]),
        (43, vec![1, 4, 5, 6, 49, 60, 62, 34]),
        (49, vec![1, 4, 5, 6, 34, 43, 60, 62]),
        (60, vec![1, 4, 5, 6, 34, 43, 49, 62]),
        (62, vec![1, 4, 5, 6, 34, 43, 49, 60]),
    ]
}

#[test]
fn test_find_node_itself() {
    let graph = small_graph();
    {
        let mut dht = DistributedHashTable::new(0);
        let res = run_lookup(&mut dht, &graph, 0, 0, 0, None);
        assert!(res.is_none());
    }
    {
        let mut dht = DistributedHashTable::new(0);
        let res = run_lookup(&mut dht, &graph, 0, 0, 0, Some(u32::MAX));
        assert!(res.is_none());
    }
}

#[test]
fn test_find_node_1_roundtrip() {
    let graph = small_graph();
    {
        let mut dht = DistributedHashTable::new(0);
        let res = run_lookup(&mut dht, &graph, 1, 0, 2, None);
        assert_eq!(2, res.expect("should be there").id);
        assert_eq!(vec![1, 2, 3, 5], dht.peer_ids());
    }
    {
        let mut dht = DistributedHashTable::new(0);
        let res = run_lookup(&mut dht, &graph, 1, 0, 2, Some(u32::MAX));
        assert_eq!(2, res.expect("should be there").id);
        assert_eq!(vec![1, 2], dht.peer_ids());
    }
}

#[test]
fn test_find_node_max_roundtrip() {
    let graph = small_graph();
    {
        let mut dht = DistributedHashTable::new(0);
        let res = run_lookup(&mut dht, &graph, 8, 0, 1, None);
        assert_eq!(1, res.expect("should be there").id);
    }
    {
        let mut dht = DistributedHashTable::new(0);
        let res = run_lookup(&mut dht, &graph, 8, 0, 1, Some(u32::MAX));
        assert_eq!(1, res.expect("should be there").id);
    }
}

#[test]
fn test_find_node_unbalanced_roundtrip() {
    let graph = small_graph();
    {
        // Target 8 is reachable, but the classic rule stops at the first
        // round that brings nothing closer, which happens mid-path.
        let mut dht = DistributedHashTable::new(0);
        let res = run_lookup(&mut dht, &graph, 1, 0, 8, None);
        assert!(res.is_none());
    }
    {
        // The greedy rule keeps hopping and reaches it.
        let mut dht = DistributedHashTable::new(0);
        let res = run_lookup(&mut dht, &graph, 1, 0, 8, Some(u32::MAX));
        assert_eq!(8, res.expect("should be there").id);
    }
}

#[test]
fn test_find_node_max_roundtrip_in_a_big_mock_not_found() {
    let graph = big_graph();
    {
        let mut dht = DistributedHashTable::new(0);
        let res = run_lookup(&mut dht, &graph, 1, 0, 47, None);
        assert!(res.is_none());
        assert_eq!(vec![1, 34, 43, 60], dht.peer_ids());
    }
    {
        let mut dht = DistributedHashTable::new(0);
        let res = run_lookup(&mut dht, &graph, 1, 0, 47, Some(u32::MAX));
        assert!(res.is_none());
        // The buckets near the searcher fill up along the way; the
        // recent-peers cache keeps the peer the tree had to refuse.
        assert_eq!(vec![1, 34, 43, 49, 60, 62], dht.peer_ids());
    }
}

#[test]
fn test_find_node_max_roundtrip_in_a_big_mock_found() {
    let graph = big_graph();
    {
        let mut dht = DistributedHashTable::new(0);
        let res = run_lookup(&mut dht, &graph, 1, 0, 43, None);
        assert_eq!(43, res.expect("should be there").id);
        assert_eq!(vec![1, 34, 43, 60], dht.peer_ids());
    }
    {
        let mut dht = DistributedHashTable::new(0);
        let res = run_lookup(&mut dht, &graph, 1, 0, 43, Some(u32::MAX));
        assert_eq!(43, res.expect("should be there").id);
        assert_eq!(vec![1, 43], dht.peer_ids());
    }
}

#[test]
fn test_find_node_max_roundtrip_in_a_partial_mock_found() {
    let graph = partial_graph();
    {
        let mut dht = DistributedHashTable::new(0);
        let res = run_lookup(&mut dht, &graph, 1, 0, 43, None);
        assert!(res.is_none());
        assert_eq!(vec![1, 4, 5, 6, 12, 13, 15], dht.peer_ids());
    }
    {
        let mut dht = DistributedHashTable::new(0);
        let res = run_lookup(&mut dht, &graph, 1, 0, 43, Some(u32::MAX));
        assert_eq!(43, res.expect("should be there").id);
        assert_eq!(
            vec![1, 4, 5, 6, 12, 13, 15, 18, 19, 43],
            dht.peer_ids()
        );
    }
}

#[test]
fn test_sender_is_never_queried() {
    // The searcher's own id sits in the overlay; no batch may contain it.
    let graph = big_graph();
    let mut state = LookupState::new(peer(1), 1, 43, None);
    loop {
        let batch = state.next_batch();
        for queried in &batch {
            assert_ne!(1, queried.id);
        }
        let mut responses: Vec<Peer> = Vec::new();
        for queried in &batch {
            responses.extend(mock_find_node(&graph, queried, 43));
        }
        state.absorb_round(responses);
        if state.done {
            break;
        }
    }
}
