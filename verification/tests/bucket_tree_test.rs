use piretoutpire::bucket_tree::{BucketTree, InsertResult, BUCKET_SIZE};
use piretoutpire::math::middle_point;
use piretoutpire::peer_node::PeerNode;

fn node(id: u32) -> PeerNode {
    PeerNode::new(id, "127.0.0.1:4000".to_owned())
}

#[test]
fn test_construct_table() {
    let middle = middle_point(0, u32::MAX) - BUCKET_SIZE as u32;

    let mut tree = BucketTree::new();
    // Insert any value.
    assert!(matches!(tree.add_peer_node(node(middle), 0), InsertResult::Added));

    // Ensure it can't be inserted twice.
    assert!(matches!(
        tree.add_peer_node(node(middle), 0),
        InsertResult::AlreadyPresent
    ));

    // Insert as many values as to fill the bucket.
    for idx in 1..BUCKET_SIZE {
        assert!(matches!(
            tree.add_peer_node(node(middle + idx as u32), 0),
            InsertResult::Added
        ));
    }

    assert!(matches!(
        tree.add_peer_node(node(middle + BUCKET_SIZE as u32), 0),
        InsertResult::Added
    ));

    for idx in 0..BUCKET_SIZE {
        assert!(matches!(
            tree.add_peer_node(node(idx as u32), 0),
            InsertResult::Added
        ));
    }
}

#[test]
fn test_closest_peers() {
    let mut tree = BucketTree::new();

    // Insert as many values as to fill the bucket.
    for idx in 0..=10 {
        assert!(matches!(
            tree.add_peer_node(node(idx as u32), 0),
            InsertResult::Added
        ));
    }
    for idx in 15..=18 {
        assert!(matches!(
            tree.add_peer_node(node(idx as u32), 0),
            InsertResult::Added
        ));
    }

    let peers = tree.search_closest_peers(100);
    assert_eq!(15, peers.len());
}

#[test]
fn test_bad_peer_is_replaced() {
    // Fill one bucket with peers that all have an old unanswered request,
    // which makes them stale; the newcomer must then be taken in.
    let mut tree = BucketTree::new();
    for id in 0..BUCKET_SIZE as u32 {
        let mut stale = node(id);
        stale.update_last_request(0);
        assert!(matches!(tree.add_peer_node(stale, 0), InsertResult::Added));
    }
    // Now, at a much later time, every peer of that bucket is stale.
    let newcomer = node(7);
    assert!(matches!(
        tree.add_peer_node(newcomer, 1_000_000),
        InsertResult::Added
    ));
}
