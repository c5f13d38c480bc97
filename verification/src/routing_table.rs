//! The routing table: a bucket tree keyed by XOR-remapped identifiers,
//! plus a small most-recently-seen cache for peers the tree refused.
//!
//! Peers are stored remapped: a peer's id is replaced by its XOR distance
//! to the owner, which puts the owner at identifier `0`. Every read remaps
//! the ids back. The cache keeps peers under their real ids.

use vstd::prelude::*;

use crate::bucket_tree::{
    models, peer_index, run_contains, run_has_peer, spec_add, spec_all_peers,
    spec_mark_requested, spec_mark_responded, tree_contains, tree_has_peer, BucketTree,
    InsertResult, PeerModel,
};
use crate::math::distance;
use crate::peer_node::PeerNode;

verus! {

/// Most entries the recent-peers cache may hold.
pub const RECENT_PEERS_CACHE_SIZE: usize = 100;

/// A peer model with its id remapped by the owner's id.
pub open spec fn remap_model(p: PeerModel, owner: u32) -> PeerModel {
    PeerModel { id: p.id ^ owner, ..p }
}

/// A run of peer models, each remapped by the owner's id.
pub open spec fn unmap_models(s: Seq<PeerModel>, owner: u32) -> Seq<PeerModel> {
    Seq::new(s.len(), |i: int| remap_model(s[i], owner))
}

/// What the cache looks like after a refused peer is recorded: any entry
/// with the same id leaves, the peer moves to the front, and the cache is
/// trimmed to its capacity.
pub open spec fn spec_cache_insert(s: Seq<PeerModel>, p: PeerModel) -> Seq<PeerModel> {
    let without = if peer_index(s, p.id) < s.len() {
        s.remove(peer_index(s, p.id))
    } else {
        s
    };
    let fronted = without.insert(0, p);
    if fronted.len() > RECENT_PEERS_CACHE_SIZE {
        fronted.drop_last()
    } else {
        fronted
    }
}

/// Part of the global overlay: the peers close to this owner, with a
/// recency cache as a safety net for small networks.
pub struct RoutingTable {
    /// The owner's identifier.
    pub id: u32,
    /// The bucket tree, keyed by remapped ids.
    pub bucket_tree: BucketTree,
    /// Whether refused peers are kept in the recency cache.
    pub recent_peers_cache_enabled: bool,
    /// Refused peers, most recent first, under their real ids.
    pub latest_too_far_peers: Vec<PeerNode>,
}

/// Does the table know a peer with this real id, in the tree (remapped) or
/// in the cache?
pub open spec fn rt_knows(rt: RoutingTable, real_id: u32) -> bool {
    ||| tree_contains(rt.bucket_tree@, real_id ^ rt.id)
    ||| run_contains(models(rt.latest_too_far_peers@), real_id)
}

/// Does the table hold exactly this peer, fields and all: remapped in the
/// tree, or as-is in the cache?
pub open spec fn rt_holds_contact(rt: RoutingTable, p: PeerModel) -> bool {
    ||| tree_has_peer(rt.bucket_tree@, remap_model(p, rt.id))
    ||| run_has_peer(models(rt.latest_too_far_peers@), p)
}

/// Every peer the table will hand out, in reading order: the tree peers
/// with their ids remapped back, then the cache.
pub open spec fn spec_rt_all_peers(rt: RoutingTable) -> Seq<PeerModel> {
    unmap_models(spec_all_peers(rt.bucket_tree@), rt.id) + models(rt.latest_too_far_peers@)
}

impl RoutingTable {
    /// The table invariant: a sound tree and a bounded cache.
    pub open spec fn wf(self) -> bool {
        &&& self.bucket_tree.wf()
        &&& self.latest_too_far_peers@.len() <= RECENT_PEERS_CACHE_SIZE
    }

    /// A fresh table for this owner, with the cache enabled.
    pub fn new(id: u32) -> (r: Self)
        ensures
            r.wf(),
            r.id == id,
            r.recent_peers_cache_enabled,
            r.latest_too_far_peers@.len() == 0,
            r.bucket_tree@.len() == 1,
            forall|x: u32| !rt_knows(r, x),
            spec_rt_all_peers(r) =~= Seq::<PeerModel>::empty(),
    {
        let r = RoutingTable {
            id,
            bucket_tree: BucketTree::new(),
            recent_peers_cache_enabled: true,
            latest_too_far_peers: Vec::new(),
        };
        proof {
            assert(r.bucket_tree@.drop_last() =~= Seq::<crate::bucket_tree::BucketModel>::empty());
            assert(r.bucket_tree@.last().peers =~= Seq::<PeerModel>::empty());
            assert(spec_all_peers(Seq::<crate::bucket_tree::BucketModel>::empty()) =~= Seq::<
                PeerModel,
            >::empty());
            assert(spec_all_peers(r.bucket_tree@) == r.bucket_tree@.last().peers + spec_all_peers(
                r.bucket_tree@.drop_last(),
            ));
            assert(spec_all_peers(r.bucket_tree@) =~= Seq::<PeerModel>::empty());
            assert(models(r.latest_too_far_peers@) =~= Seq::<PeerModel>::empty());
            assert(spec_rt_all_peers(r) =~= Seq::<PeerModel>::empty());
            assert forall|x: u32| !rt_knows(r, x) by {
                if run_contains(models(r.latest_too_far_peers@), x) {
                    let t = choose|t: int|
                        0 <= t < models(r.latest_too_far_peers@).len() && models(
                            r.latest_too_far_peers@,
                        )[t].id == x;
                }
            }
        }
        r
    }

    /// Switch the recency cache on or off.
    pub fn set_recent_peers_cache_enable(&mut self, value: bool)
        ensures
            *final(self) == (RoutingTable { recent_peers_cache_enabled: value, ..*old(self) }),
    {
        self.recent_peers_cache_enabled = value;
    }

    /// The cached recently refused peers, most recent first.
    pub fn get_recent_peers_cache(&self) -> (r: Vec<PeerNode>)
        ensures
            models(r@) == models(self.latest_too_far_peers@),
    {
        let mut res: Vec<PeerNode> = Vec::new();
        proof {
            assert(models(res@) =~= Seq::<PeerModel>::empty());
            assert(models(self.latest_too_far_peers@).take(0) =~= Seq::<PeerModel>::empty());
        }
        crate::bucket_tree::push_all(&mut res, &self.latest_too_far_peers);
        proof {
            assert(models(res@) =~= models(self.latest_too_far_peers@));
        }
        res
    }

    /// Drop every known peer; the cache and the owner stay.
    pub fn clear(&mut self)
        requires
            old(self).wf(),
        ensures
            final(self).id == old(self).id,
            final(self).recent_peers_cache_enabled == old(self).recent_peers_cache_enabled,
            final(self).latest_too_far_peers == old(self).latest_too_far_peers,
            final(self).wf(),
            final(self).bucket_tree@.len() == 1,
            forall|x: u32| !tree_contains(final(self).bucket_tree@, x),
    {
        self.bucket_tree = BucketTree::new();
    }

    /// Learn a peer at time `now_ms`: remap its id by the owner's and try
    /// the bucket tree; if the tree has no room and the cache is on, keep
    /// the peer (under its real id) at the front of the cache.
    pub fn add_node(&mut self, peer: PeerNode, now_ms: u64)
        requires
            old(self).wf(),
        ensures
            final(self).wf(),
            final(self).id == old(self).id,
            final(self).recent_peers_cache_enabled == old(self).recent_peers_cache_enabled,
            final(self).bucket_tree@ == spec_add(
                old(self).bucket_tree@,
                remap_model(peer@, old(self).id),
                now_ms,
            ).1,
            models(final(self).latest_too_far_peers@) == (if spec_add(
                old(self).bucket_tree@,
                remap_model(peer@, old(self).id),
                now_ms,
            ).0 == InsertResult::NoRoom && old(self).recent_peers_cache_enabled {
                spec_cache_insert(models(old(self).latest_too_far_peers@), peer@)
            } else {
                models(old(self).latest_too_far_peers@)
            }),
            old(self).recent_peers_cache_enabled ==> rt_knows(*final(self), peer.id),
            (old(self).recent_peers_cache_enabled && spec_add(
                old(self).bucket_tree@,
                remap_model(peer@, old(self).id),
                now_ms,
            ).0 != InsertResult::AlreadyPresent) ==> rt_holds_contact(*final(self), peer@),
    {
        let remapped_id = distance(peer.id(), self.id);
        let mut remapped = peer.clone();
        remapped.set_id(remapped_id);
        proof {
            assert(remapped@ == remap_model(peer@, self.id));
        }
        let r = self.bucket_tree.add_peer_node(remapped, now_ms);
        if r == InsertResult::NoRoom && self.recent_peers_cache_enabled {
            let ghost cache0 = models(self.latest_too_far_peers@);
            let idx = crate::bucket_tree::find_peer_pos(&self.latest_too_far_peers, peer.id());
            let ghost without = if peer_index(cache0, peer@.id) < cache0.len() {
                cache0.remove(peer_index(cache0, peer@.id))
            } else {
                cache0
            };
            if idx < self.latest_too_far_peers.len() {
                let ghost pv = self.latest_too_far_peers@;
                self.latest_too_far_peers.remove(idx);
                proof {
                    crate::bucket_tree::lemma_models_remove(pv, idx as int);
                    assert(models(self.latest_too_far_peers@) =~= without);
                }
            }
            let ghost pv2 = self.latest_too_far_peers@;
            self.latest_too_far_peers.insert(0, peer);
            proof {
                crate::bucket_tree::lemma_models_insert(pv2, 0, peer);
                assert(models(self.latest_too_far_peers@) =~= without.insert(0, peer@));
            }
            if self.latest_too_far_peers.len() > RECENT_PEERS_CACHE_SIZE {
                let ghost pv3 = self.latest_too_far_peers@;
                self.latest_too_far_peers.pop();
                proof {
                    assert(models(self.latest_too_far_peers@) =~= models(pv3).drop_last());
                    assert(models(pv3) == without.insert(0, peer@));
                }
            }
            proof {
                assert(models(self.latest_too_far_peers@) == spec_cache_insert(cache0, peer@));
                assert(models(self.latest_too_far_peers@)[0] == peer@);
                assert(run_contains(models(self.latest_too_far_peers@), peer.id));
            }
        } else {
            proof {
                if old(self).recent_peers_cache_enabled {
                    assert(tree_contains(self.bucket_tree@, peer.id ^ self.id));
                }
            }
        }
    }

    /// Record that a request went out to the peer with this real id.
    pub fn peer_was_requested(&mut self, target: u32, now_ms: u64)
        requires
            old(self).wf(),
        ensures
            final(self).wf(),
            final(self).id == old(self).id,
            final(self).recent_peers_cache_enabled == old(self).recent_peers_cache_enabled,
            final(self).latest_too_far_peers == old(self).latest_too_far_peers,
            final(self).bucket_tree@ == spec_mark_requested(
                old(self).bucket_tree@,
                target ^ old(self).id,
                now_ms,
            ),
    {
        let remapped = distance(target, self.id);
        self.bucket_tree.peer_was_requested(remapped, now_ms);
    }

    /// Record that a response arrived from the peer with this real id.
    pub fn peer_has_responded(&mut self, target: u32, now_ms: u64)
        requires
            old(self).wf(),
        ensures
            final(self).wf(),
            final(self).id == old(self).id,
            final(self).recent_peers_cache_enabled == old(self).recent_peers_cache_enabled,
            final(self).latest_too_far_peers == old(self).latest_too_far_peers,
            final(self).bucket_tree@ == spec_mark_responded(
                old(self).bucket_tree@,
                target ^ old(self).id,
                now_ms,
            ),
    {
        let remapped = distance(target, self.id);
        self.bucket_tree.peer_has_responded(remapped, now_ms);
    }

    /// Every known peer under its real id: the tree peers remapped back,
    /// then the cached ones.
    pub fn get_all_peers(&self) -> (r: Vec<PeerNode>)
        ensures
            models(r@) == spec_rt_all_peers(*self),
    {
        let mut res = self.bucket_tree.get_all_peers();
        let ghost tree_peers = spec_all_peers(self.bucket_tree@);
        let mut i: usize = 0;
        while i < res.len()
            invariant
                i <= res@.len(),
                models(res@).len() == tree_peers.len(),
                forall|t: int|
                    i <= t < tree_peers.len() ==> models(res@)[t] == #[trigger] tree_peers[t],
                forall|t: int|
                    0 <= t < i ==> models(res@)[t] == #[trigger] unmap_models(
                        tree_peers,
                        self.id,
                    )[t],
            decreases res@.len() - i,
        {
            let ghost pv = res@;
            let new_id = distance(res[i].id(), self.id);
            let mut q = res.remove(i);
            q.set_id(new_id);
            res.insert(i, q);
            proof {
                crate::bucket_tree::lemma_models_remove(pv, i as int);
                crate::bucket_tree::lemma_models_insert(pv.remove(i as int), i as int, q);
                assert(models(res@) =~= models(pv).update(i as int, q@));
            }
            i = i + 1;
        }
        proof {
            assert(models(res@) =~= unmap_models(tree_peers, self.id));
        }
        crate::bucket_tree::push_all(&mut res, &self.latest_too_far_peers);
        proof {
            assert(models(res@) == spec_rt_all_peers(*self));
        }
        res
    }
}

// Sorting by distance -------------------------------------------------------

/// The sort key: XOR distance between a peer's id and the target.
pub open spec fn dist_key(p: PeerModel, target: u32) -> u32 {
    p.id ^ target
}

/// Non-decreasing distance to the target.
pub open spec fn sorted_by_distance(s: Seq<PeerModel>, target: u32) -> bool {
    forall|a: int, b: int|
        0 <= a < b < s.len() ==> dist_key(s[a], target) <= dist_key(s[b], target)
}

/// Length of the leading run of peers at distance at most `key`.
pub open spec fn dist_run(s: Seq<PeerModel>, key: u32, target: u32) -> int
    decreases s.len(),
{
    if s.len() == 0 {
        0
    } else if dist_key(s[0], target) <= key {
        1 + dist_run(s.drop_first(), key, target)
    } else {
        0
    }
}

/// Insert a peer after every peer at most as close: a stable insertion.
pub open spec fn insert_by_distance(s: Seq<PeerModel>, p: PeerModel, target: u32) -> Seq<
    PeerModel,
> {
    s.insert(dist_run(s, dist_key(p, target), target), p)
}

/// Stable sort by distance to the target: insert the peers one by one, in
/// order, each after its equals.
pub open spec fn sort_by_distance(s: Seq<PeerModel>, target: u32) -> Seq<PeerModel>
    decreases s.len(),
{
    if s.len() == 0 {
        Seq::empty()
    } else {
        insert_by_distance(sort_by_distance(s.drop_last(), target), s.last(), target)
    }
}

/// The leading run: everything before it is at most `key` away, and the
/// run stops at the first peer farther than `key`.
proof fn lemma_dist_run(s: Seq<PeerModel>, key: u32, target: u32)
    ensures
        0 <= dist_run(s, key, target) <= s.len(),
        forall|i: int|
            0 <= i < dist_run(s, key, target) ==> dist_key(#[trigger] s[i], target) <= key,
        dist_run(s, key, target) < s.len() ==> dist_key(s[dist_run(s, key, target)], target) > key,
    decreases s.len(),
{
    if s.len() > 0 && dist_key(s[0], target) <= key {
        lemma_dist_run(s.drop_first(), key, target);
        let rest = s.drop_first();
        assert forall|i: int| 0 <= i < dist_run(s, key, target) implies dist_key(
            #[trigger] s[i],
            target,
        ) <= key by {
            if i > 0 {
                assert(s[i] == rest[i - 1]);
            }
        }
    }
}

/// A position that ends the leading run is the run's length.
proof fn lemma_dist_run_char(s: Seq<PeerModel>, key: u32, target: u32, k: int)
    requires
        0 <= k <= s.len(),
        forall|i: int| 0 <= i < k ==> dist_key(#[trigger] s[i], target) <= key,
        k < s.len() ==> dist_key(s[k], target) > key,
    ensures
        dist_run(s, key, target) == k,
    decreases s.len(),
{
    if s.len() == 0 {
    } else if dist_key(s[0], target) <= key {
        assert(k >= 1);
        let rest = s.drop_first();
        assert forall|i: int| 0 <= i < k - 1 implies dist_key(#[trigger] rest[i], target)
            <= key by {
            assert(rest[i] == s[i + 1]);
        }
        assert(k - 1 < rest.len() ==> dist_key(rest[k - 1], target) > key);
        lemma_dist_run_char(rest, key, target, k - 1);
    } else {
        assert(k == 0);
    }
}

/// Inserting by distance keeps a sorted run sorted and adds one peer.
proof fn lemma_insert_by_distance(s: Seq<PeerModel>, p: PeerModel, target: u32)
    requires
        sorted_by_distance(s, target),
    ensures
        insert_by_distance(s, p, target).len() == s.len() + 1,
        sorted_by_distance(insert_by_distance(s, p, target), target),
{
    lemma_dist_run(s, dist_key(p, target), target);
    let k = dist_run(s, dist_key(p, target), target);
    let r = insert_by_distance(s, p, target);
    assert forall|i: int| k <= i < s.len() implies dist_key(#[trigger] s[i], target) > dist_key(
        p,
        target,
    ) by {
        if i > k {
            assert(dist_key(s[k], target) <= dist_key(s[i], target));
        }
    }
    assert forall|a: int, b: int| 0 <= a < b < r.len() implies dist_key(r[a], target) <= dist_key(
        r[b],
        target,
    ) by {
        if b < k {
        } else if a < k && b == k {
            assert(r[a] == s[a]);
        } else if a < k && b > k {
            assert(r[a] == s[a] && r[b] == s[b - 1]);
        } else if a == k {
            assert(r[b] == s[b - 1]);
        } else {
            assert(r[a] == s[a - 1] && r[b] == s[b - 1]);
        }
    }
}

/// The sorted run: same length, and non-decreasing distance throughout.
pub proof fn lemma_sort_by_distance(s: Seq<PeerModel>, target: u32)
    ensures
        sort_by_distance(s, target).len() == s.len(),
        sorted_by_distance(sort_by_distance(s, target), target),
    decreases s.len(),
{
    if s.len() > 0 {
        lemma_sort_by_distance(s.drop_last(), target);
        lemma_insert_by_distance(sort_by_distance(s.drop_last(), target), s.last(), target);
    }
}

/// Position where a peer at this distance goes in the already-sorted run.
fn find_dist_pos(res: &Vec<PeerNode>, key: u32, target: u32) -> (pos: usize)
    ensures
        pos == dist_run(models(res@), key, target),
        pos <= res@.len(),
{
    let mut pos: usize = 0;
    while pos < res.len() && distance(res[pos].id, target) <= key
        invariant
            pos <= res@.len(),
            forall|i: int| 0 <= i < pos ==> dist_key(#[trigger] models(res@)[i], target) <= key,
        decreases res@.len() - pos,
    {
        pos = pos + 1;
    }
    proof {
        lemma_dist_run_char(models(res@), key, target, pos as int);
    }
    pos
}

/// Sort peers by distance to the target, stably: ties keep their order.
fn sort_peers_by_distance(peers: Vec<PeerNode>, target: u32) -> (r: Vec<PeerNode>)
    ensures
        models(r@) == sort_by_distance(models(peers@), target),
{
    let mut res: Vec<PeerNode> = Vec::new();
    let mut i: usize = 0;
    proof {
        assert(models(peers@).take(0) =~= Seq::<PeerModel>::empty());
        assert(models(res@) =~= Seq::<PeerModel>::empty());
    }
    while i < peers.len()
        invariant
            i <= peers@.len(),
            models(res@) == sort_by_distance(models(peers@).take(i as int), target),
        decreases peers@.len() - i,
    {
        let p = peers[i].clone();
        let key = distance(p.id, target);
        let pos = find_dist_pos(&res, key, target);
        let ghost pre = res@;
        res.insert(pos, p);
        proof {
            crate::bucket_tree::lemma_models_insert(pre, pos as int, p);
            let upto = models(peers@).take(i + 1);
            assert(upto.drop_last() =~= models(peers@).take(i as int));
            assert(upto.last() == models(peers@)[i as int]);
            assert(models(res@) =~= insert_by_distance(
                sort_by_distance(models(peers@).take(i as int), target),
                models(peers@)[i as int],
                target,
            ));
        }
        i = i + 1;
    }
    proof {
        assert(models(peers@).take(peers@.len() as int) =~= models(peers@));
    }
    res
}

impl RoutingTable {
    /// The `nb` closest known peers to the target, closest first: all
    /// known peers sorted stably by XOR distance to the target, then cut
    /// to `nb`.
    pub fn get_closest_peers_from(&self, target: u32, nb: usize) -> (r: Vec<PeerNode>)
        ensures
            models(r@) == sort_by_distance(spec_rt_all_peers(*self), target).take(
                if nb as int <= spec_rt_all_peers(*self).len() {
                    nb as int
                } else {
                    spec_rt_all_peers(*self).len() as int
                },
            ),
            sorted_by_distance(models(r@), target),
            r@.len() <= nb,
    {
        let all = self.get_all_peers();
        let ghost all_m = spec_rt_all_peers(*self);
        let mut sorted = sort_peers_by_distance(all, target);
        proof {
            lemma_sort_by_distance(all_m, target);
        }
        let ghost pre = sorted@;
        sorted.truncate(nb);
        proof {
            let keep = if nb as int <= all_m.len() {
                nb as int
            } else {
                all_m.len() as int
            };
            assert(sorted@ =~= pre.take(keep));
            assert(models(sorted@) =~= models(pre).take(keep));
            assert(sorted_by_distance(models(sorted@), target)) by {
                assert forall|a: int, b: int|
                    0 <= a < b < models(sorted@).len() implies dist_key(
                    models(sorted@)[a],
                    target,
                ) <= dist_key(models(sorted@)[b], target) by {
                    assert(models(sorted@)[a] == models(pre)[a]);
                    assert(models(sorted@)[b] == models(pre)[b]);
                }
            }
        }
        sorted
    }
}

/// A peer the table holds is among the peers it hands out, unchanged:
/// the XOR remapping is undone on the way out, so reading the table back
/// yields the very peer that went in — same real id, same address. With
/// [`RoutingTable::add_node`]'s contract this is the remap/unmap round
/// trip for every insertion the table accepts.
pub proof fn lemma_held_contact_is_listed(rt: RoutingTable, p: PeerModel)
    requires
        rt_holds_contact(rt, p),
    ensures
        run_has_peer(spec_rt_all_peers(rt), p),
{
    let all = spec_rt_all_peers(rt);
    let tree_part = unmap_models(spec_all_peers(rt.bucket_tree@), rt.id);
    if tree_has_peer(rt.bucket_tree@, remap_model(p, rt.id)) {
        let bs = rt.bucket_tree@;
        let i = choose|i: int|
            0 <= i < bs.len() && run_has_peer(#[trigger] bs[i].peers, remap_model(p, rt.id));
        let t = choose|t: int|
            0 <= t < bs[i].peers.len() && bs[i].peers[t] == remap_model(p, rt.id);
        lemma_all_peers_has(bs, i, t);
        let u = choose|u: int|
            0 <= u < spec_all_peers(bs).len() && spec_all_peers(bs)[u] == bs[i].peers[t];
        crate::math::lemma_distance_involution(p.id, rt.id);
        assert(tree_part[u] == remap_model(remap_model(p, rt.id), rt.id));
        assert(remap_model(remap_model(p, rt.id), rt.id) == p);
        assert(all[u] == p);
    } else {
        let t = choose|t: int|
            0 <= t < models(rt.latest_too_far_peers@).len() && models(
                rt.latest_too_far_peers@,
            )[t] == p;
        assert(all[tree_part.len() + t] == p);
    }
}

/// A peer the table knows under a real id is among the peers it hands
/// out: remapping an id twice with the same owner gives it back, so
/// inserting a peer and then reading the table yields its real id again.
pub proof fn lemma_known_id_is_listed(rt: RoutingTable, real_id: u32)
    requires
        rt_knows(rt, real_id),
    ensures
        run_contains(spec_rt_all_peers(rt), real_id),
{
    let all = spec_rt_all_peers(rt);
    let tree_part = unmap_models(spec_all_peers(rt.bucket_tree@), rt.id);
    if tree_contains(rt.bucket_tree@, real_id ^ rt.id) {
        let bs = rt.bucket_tree@;
        let i = choose|i: int|
            0 <= i < bs.len() && crate::bucket_tree::bucket_contains(bs[i], real_id ^ rt.id);
        let t = choose|t: int|
            0 <= t < bs[i].peers.len() && bs[i].peers[t].id == real_id ^ rt.id;
        lemma_all_peers_has(bs, i, t);
        let u = choose|u: int|
            0 <= u < spec_all_peers(bs).len() && spec_all_peers(bs)[u] == bs[i].peers[t];
        crate::math::lemma_distance_involution(real_id, rt.id);
        assert(tree_part[u].id == real_id);
        assert(all[u].id == real_id);
        assert(run_contains(all, real_id));
    } else {
        let t = choose|t: int|
            0 <= t < models(rt.latest_too_far_peers@).len() && models(
                rt.latest_too_far_peers@,
            )[t].id == real_id;
        assert(all[tree_part.len() + t].id == real_id);
        assert(run_contains(all, real_id));
    }
}

/// Every peer of every bucket appears in the full walk of the tree.
proof fn lemma_all_peers_has(
    bs: Seq<crate::bucket_tree::BucketModel>,
    i: int,
    t: int,
)
    requires
        0 <= i < bs.len(),
        0 <= t < bs[i].peers.len(),
    ensures
        exists|u: int|
            0 <= u < spec_all_peers(bs).len() && spec_all_peers(bs)[u] == bs[i].peers[t],
    decreases bs.len(),
{
    let last = bs.len() - 1;
    if i == last {
        assert(spec_all_peers(bs)[t] == bs[last].peers[t]);
    } else {
        let front = bs.drop_last();
        lemma_all_peers_has(front, i, t);
        let u = choose|u: int|
            0 <= u < spec_all_peers(front).len() && spec_all_peers(front)[u] == front[i].peers[t];
        assert(spec_all_peers(bs)[bs.last().peers.len() + u] == spec_all_peers(front)[u]);
        assert(front[i] == bs[i]);
    }
}

} // verus!
