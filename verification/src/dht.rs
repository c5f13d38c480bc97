//! The distributed hash table: a routing table plus two local stores, one
//! for key-value pairs and one for which peers own which file.
//!
//! Both stores are association vectors with unique keys; their contracts
//! speak of the maps they represent.

use vstd::prelude::*;

use crate::bucket_tree::{models, PeerModel};
use crate::peer_node::PeerNode;
use crate::protocol::{peer_models, Peer, PeerData};
use crate::routing_table::{
    sort_by_distance, sorted_by_distance, spec_rt_all_peers, RoutingTable,
};

verus! {

/// The map an association vector of strings represents: later entries win,
/// though well-formed stores never repeat a key.
pub open spec fn kv_model(s: Seq<(u32, String)>) -> Map<u32, Seq<char>>
    decreases s.len(),
{
    if s.len() == 0 {
        Map::empty()
    } else {
        kv_model(s.drop_last()).insert(s.last().0, s.last().1@)
    }
}

/// No key twice.
pub open spec fn kv_unique(s: Seq<(u32, String)>) -> bool {
    forall|a: int, b: int| 0 <= a < b < s.len() ==> (#[trigger] s[a]).0 != (#[trigger] s[b]).0
}

/// The set of peers in a run, as wire-level peer models.
pub open spec fn peer_set(s: Seq<PeerData>) -> Set<PeerData>
    decreases s.len(),
{
    if s.len() == 0 {
        Set::empty()
    } else {
        peer_set(s.drop_last()).insert(s.last())
    }
}

/// The map from file checksum to owning peers an association vector
/// represents.
pub open spec fn files_model(s: Seq<(u32, Vec<Peer>)>) -> Map<u32, Set<PeerData>>
    decreases s.len(),
{
    if s.len() == 0 {
        Map::empty()
    } else {
        files_model(s.drop_last()).insert(s.last().0, peer_set(peer_models(s.last().1@)))
    }
}

/// No checksum twice.
pub open spec fn files_unique(s: Seq<(u32, Vec<Peer>)>) -> bool {
    forall|a: int, b: int| 0 <= a < b < s.len() ==> (#[trigger] s[a]).0 != (#[trigger] s[b]).0
}

/// A kv store without the key behaves as the map without the key.
proof fn lemma_kv_absent(s: Seq<(u32, String)>, key: u32)
    requires
        forall|i: int| 0 <= i < s.len() ==> (#[trigger] s[i]).0 != key,
    ensures
        !kv_model(s).contains_key(key),
    decreases s.len(),
{
    if s.len() > 0 {
        let front = s.drop_last();
        assert forall|i: int| 0 <= i < front.len() implies (#[trigger] front[i]).0 != key by {
            assert(front[i] == s[i]);
        }
        lemma_kv_absent(front, key);
    }
}

/// A kv entry at any position is what the map holds for its key, when
/// keys are unique.
proof fn lemma_kv_lookup(s: Seq<(u32, String)>, i: int)
    requires
        kv_unique(s),
        0 <= i < s.len(),
    ensures
        kv_model(s).contains_key(s[i].0),
        kv_model(s)[s[i].0] == s[i].1@,
    decreases s.len(),
{
    if i == s.len() - 1 {
    } else {
        let front = s.drop_last();
        assert(front[i] == s[i]);
        lemma_kv_lookup(front, i);
        assert(s.last().0 != s[i].0);
    }
}

/// A files entry at any position is what the map holds for its checksum.
proof fn lemma_files_lookup(s: Seq<(u32, Vec<Peer>)>, i: int)
    requires
        files_unique(s),
        0 <= i < s.len(),
    ensures
        files_model(s).contains_key(s[i].0),
        files_model(s)[s[i].0] == peer_set(peer_models(s[i].1@)),
    decreases s.len(),
{
    if i == s.len() - 1 {
    } else {
        let front = s.drop_last();
        assert(front[i] == s[i]);
        lemma_files_lookup(front, i);
        assert(s.last().0 != s[i].0);
    }
}

/// A files store without the checksum behaves as the map without it.
proof fn lemma_files_absent(s: Seq<(u32, Vec<Peer>)>, key: u32)
    requires
        forall|i: int| 0 <= i < s.len() ==> (#[trigger] s[i]).0 != key,
    ensures
        !files_model(s).contains_key(key),
    decreases s.len(),
{
    if s.len() > 0 {
        let front = s.drop_last();
        assert forall|i: int| 0 <= i < front.len() implies (#[trigger] front[i]).0 != key by {
            assert(front[i] == s[i]);
        }
        lemma_files_absent(front, key);
    }
}

/// Rewriting the entry at one position rewrites only its key in the map.
proof fn lemma_files_update(s: Seq<(u32, Vec<Peer>)>, i: int, nv: Vec<Peer>)
    requires
        files_unique(s),
        0 <= i < s.len(),
    ensures
        files_model(s.update(i, (s[i].0, nv))) =~= files_model(s).insert(
            s[i].0,
            peer_set(peer_models(nv@)),
        ),
    decreases s.len(),
{
    let s2 = s.update(i, (s[i].0, nv));
    if i == s.len() - 1 {
        assert(s2.drop_last() =~= s.drop_last());
        assert(s2.last() == (s[i].0, nv));
    } else {
        assert(s2.drop_last() =~= s.drop_last().update(i, (s[i].0, nv)));
        assert(s.drop_last()[i] == s[i]);
        lemma_files_update(s.drop_last(), i, nv);
        assert(s2.last() == s.last());
        assert(s.last().0 != s[i].0);
    }
}

/// The distributed hash table of one peer.
pub struct DistributedHashTable {
    /// The owner's identifier.
    pub id: u32,
    /// Which other peers are known.
    pub routing_table: RoutingTable,
    /// Local key-value store, keys unique.
    pub kv_store: Vec<(u32, String)>,
    /// Which peers announced which file, checksums unique.
    pub files_store: Vec<(u32, Vec<Peer>)>,
}

impl DistributedHashTable {
    /// The store invariant: a sound routing table and unique keys.
    pub open spec fn wf(self) -> bool {
        &&& self.routing_table.wf()
        &&& self.routing_table.id == self.id
        &&& kv_unique(self.kv_store@)
        &&& files_unique(self.files_store@)
    }

    /// The key-value map this table holds.
    pub open spec fn kv(self) -> Map<u32, Seq<char>> {
        kv_model(self.kv_store@)
    }

    /// The file-owners map this table holds.
    pub open spec fn files(self) -> Map<u32, Set<PeerData>> {
        files_model(self.files_store@)
    }

    /// An empty table for this owner.
    pub fn new(id: u32) -> (r: Self)
        ensures
            r.wf(),
            r.id == id,
            r.kv() =~= Map::<u32, Seq<char>>::empty(),
            r.files() =~= Map::<u32, Set<PeerData>>::empty(),
            spec_rt_all_peers(r.routing_table).len() == 0,
            r.routing_table.recent_peers_cache_enabled,
    {
        let r = DistributedHashTable {
            id,
            routing_table: RoutingTable::new(id),
            kv_store: Vec::new(),
            files_store: Vec::new(),
        };
        r
    }

    /// The owner's identifier.
    pub fn id(&self) -> (r: u32)
        ensures
            r == self.id,
    {
        self.id
    }

    /// Switch the recent-peers cache on or off.
    pub fn set_recent_peers_cache_enable(&mut self, value: bool)
        requires
            old(self).wf(),
        ensures
            final(self).wf(),
            final(self).id == old(self).id,
            final(self).kv_store == old(self).kv_store,
            final(self).files_store == old(self).files_store,
            final(self).routing_table.recent_peers_cache_enabled == value,
    {
        self.routing_table.set_recent_peers_cache_enable(value);
    }

    /// Learn a peer at time `now_ms`.
    pub fn add_node(&mut self, peer: PeerNode, now_ms: u64)
        requires
            old(self).wf(),
        ensures
            final(self).wf(),
            final(self).id == old(self).id,
            final(self).kv_store == old(self).kv_store,
            final(self).files_store == old(self).files_store,
            old(self).routing_table.recent_peers_cache_enabled ==> crate::routing_table::rt_knows(
                final(self).routing_table,
                peer.id,
            ),
            (old(self).routing_table.recent_peers_cache_enabled && crate::bucket_tree::spec_add(
                old(self).routing_table.bucket_tree@,
                crate::routing_table::remap_model(peer@, old(self).id),
                now_ms,
            ).0 != crate::bucket_tree::InsertResult::AlreadyPresent)
                ==> crate::routing_table::rt_holds_contact(final(self).routing_table, peer@),
            final(self).routing_table.id == old(self).routing_table.id,
            final(self).routing_table.recent_peers_cache_enabled == old(
                self,
            ).routing_table.recent_peers_cache_enabled,
            final(self).routing_table.bucket_tree@ == crate::bucket_tree::spec_add(
                old(self).routing_table.bucket_tree@,
                crate::routing_table::remap_model(peer@, old(self).id),
                now_ms,
            ).1,
            models(final(self).routing_table.latest_too_far_peers@) == (if crate::bucket_tree::spec_add(
                old(self).routing_table.bucket_tree@,
                crate::routing_table::remap_model(peer@, old(self).id),
                now_ms,
            ).0 == crate::bucket_tree::InsertResult::NoRoom && old(
                self,
            ).routing_table.recent_peers_cache_enabled {
                crate::routing_table::spec_cache_insert(
                    models(old(self).routing_table.latest_too_far_peers@),
                    peer@,
                )
            } else {
                models(old(self).routing_table.latest_too_far_peers@)
            }),
    {
        self.routing_table.add_node(peer, now_ms);
    }

    /// Drop every known peer.
    pub fn clean(&mut self)
        requires
            old(self).wf(),
        ensures
            final(self).wf(),
            final(self).id == old(self).id,
            final(self).kv_store == old(self).kv_store,
            final(self).files_store == old(self).files_store,
            forall|x: u32|
                !crate::bucket_tree::tree_contains(final(self).routing_table.bucket_tree@, x),
    {
        self.routing_table.clear();
    }

    /// The up-to-four closest known peers to the target, and learn the
    /// sender: every incoming lookup teaches this table one peer.
    pub fn find_node(&mut self, sender: PeerNode, target: u32, now_ms: u64) -> (r: Vec<PeerNode>)
        requires
            old(self).wf(),
        ensures
            final(self).wf(),
            final(self).id == old(self).id,
            final(self).kv_store == old(self).kv_store,
            final(self).files_store == old(self).files_store,
            models(r@) == sort_by_distance(
                spec_rt_all_peers(old(self).routing_table),
                target,
            ).take(
                if 4 <= spec_rt_all_peers(old(self).routing_table).len() {
                    4
                } else {
                    spec_rt_all_peers(old(self).routing_table).len() as int
                },
            ),
            sorted_by_distance(models(r@), target),
            old(self).routing_table.recent_peers_cache_enabled ==> crate::routing_table::rt_knows(
                final(self).routing_table,
                sender.id,
            ),
            (old(self).routing_table.recent_peers_cache_enabled && crate::bucket_tree::spec_add(
                old(self).routing_table.bucket_tree@,
                crate::routing_table::remap_model(sender@, old(self).id),
                now_ms,
            ).0 != crate::bucket_tree::InsertResult::AlreadyPresent)
                ==> crate::routing_table::rt_holds_contact(final(self).routing_table, sender@),
            final(self).routing_table.id == old(self).routing_table.id,
            final(self).routing_table.recent_peers_cache_enabled == old(
                self,
            ).routing_table.recent_peers_cache_enabled,
            final(self).routing_table.bucket_tree@ == crate::bucket_tree::spec_add(
                old(self).routing_table.bucket_tree@,
                crate::routing_table::remap_model(sender@, old(self).id),
                now_ms,
            ).1,
            models(final(self).routing_table.latest_too_far_peers@) == (if crate::bucket_tree::spec_add(
                old(self).routing_table.bucket_tree@,
                crate::routing_table::remap_model(sender@, old(self).id),
                now_ms,
            ).0 == crate::bucket_tree::InsertResult::NoRoom && old(
                self,
            ).routing_table.recent_peers_cache_enabled {
                crate::routing_table::spec_cache_insert(
                    models(old(self).routing_table.latest_too_far_peers@),
                    sender@,
                )
            } else {
                models(old(self).routing_table.latest_too_far_peers@)
            }),
    {
        let res = self.routing_table.get_closest_peers_from(target, 4);
        self.routing_table.add_node(sender, now_ms);
        res
    }

    /// The single closest known peer to the target, if any.
    pub fn find_closest_peer(&self, target: u32) -> (r: Option<PeerNode>)
        ensures
            (r is Some) ==> (spec_rt_all_peers(self.routing_table).len() > 0 && r.unwrap()@
                == sort_by_distance(spec_rt_all_peers(self.routing_table), target)[0]),
            (r is None) ==> spec_rt_all_peers(self.routing_table).len() == 0,
    {
        let mut res = self.routing_table.get_closest_peers_from(target, 1);
        proof {
            crate::routing_table::lemma_sort_by_distance(
                spec_rt_all_peers(self.routing_table),
                target,
            );
        }
        if res.len() == 0 {
            proof {
                let all = spec_rt_all_peers(self.routing_table);
                let sorted = sort_by_distance(all, target);
                if all.len() > 0 {
                    assert(sorted.len() == all.len());
                    assert(models(res@) == sorted.take(1));
                    assert(models(res@).len() == 1);
                }
            }
            None
        } else {
            let ghost pre = res@;
            let p = res.remove(0);
            proof {
                let all = spec_rt_all_peers(self.routing_table);
                let sorted = sort_by_distance(all, target);
                assert(p@ == models(pre)[0]);
                assert(sorted.len() == all.len());
                assert(all.len() > 0) by {
                    if all.len() == 0 {
                        assert(models(pre).len() == 0);
                    }
                }
                assert(models(pre) == sorted.take(1));
                assert(sorted.take(1)[0] == sorted[0]);
                assert(spec_rt_all_peers(self.routing_table).len() > 0);
                assert(p@ == sort_by_distance(spec_rt_all_peers(self.routing_table), target)[0]);
            }
            Some(p)
        }
    }

    /// The `nb` closest known peers to the target, closest first.
    pub fn find_closest_peers(&self, target: u32, nb: usize) -> (r: Vec<PeerNode>)
        ensures
            models(r@) == sort_by_distance(spec_rt_all_peers(self.routing_table), target).take(
                if nb as int <= spec_rt_all_peers(self.routing_table).len() {
                    nb as int
                } else {
                    spec_rt_all_peers(self.routing_table).len() as int
                },
            ),
            sorted_by_distance(models(r@), target),
    {
        self.routing_table.get_closest_peers_from(target, nb)
    }

    /// Store a value under a key, overwriting any previous value.
    pub fn store_value(&mut self, key: u32, message: String)
        requires
            old(self).wf(),
        ensures
            final(self).wf(),
            final(self).id == old(self).id,
            final(self).routing_table == old(self).routing_table,
            final(self).files_store == old(self).files_store,
            final(self).kv() =~= old(self).kv().insert(key, message@),
    {
        let ghost s0 = self.kv_store@;
        let mut i: usize = 0;
        while i < self.kv_store.len()
            invariant
                i <= self.kv_store@.len(),
                self.kv_store@ == s0,
                s0 == old(self).kv_store@,
                kv_unique(s0),
                old(self).wf(),
                self.id == old(self).id,
                self.routing_table == old(self).routing_table,
                self.files_store == old(self).files_store,
                forall|t: int| 0 <= t < i ==> (#[trigger] s0[t]).0 != key,
            decreases self.kv_store@.len() - i,
        {
            if self.kv_store[i].0 == key {
                self.kv_store.remove(i);
                self.kv_store.push((key, message));
                proof {
                    lemma_kv_update_via_remove(s0, i as int, key, message);
                }
                return ;
            }
            i = i + 1;
        }
        self.kv_store.push((key, message));
        proof {
            assert(self.kv_store@.drop_last() =~= s0);
        }
    }

    /// The value stored under a key, if any.
    pub fn get_value(&self, key: u32) -> (r: Option<String>)
        requires
            self.wf(),
        ensures
            match r {
                Some(v) => self.kv().contains_key(key) && self.kv()[key] == v@,
                None => !self.kv().contains_key(key),
            },
    {
        let mut i: usize = 0;
        while i < self.kv_store.len()
            invariant
                self.wf(),
                i <= self.kv_store@.len(),
                forall|t: int| 0 <= t < i ==> (#[trigger] self.kv_store@[t]).0 != key,
            decreases self.kv_store@.len() - i,
        {
            if self.kv_store[i].0 == key {
                let v = self.kv_store[i].1.clone();
                proof {
                    lemma_kv_lookup(self.kv_store@, i as int);
                }
                return Some(v);
            }
            i = i + 1;
        }
        proof {
            lemma_kv_absent(self.kv_store@, key);
        }
        None
    }

    /// Record that a peer owns a file, deduplicated.
    pub fn store_file_peer(&mut self, key: u32, peer: Peer)
        requires
            old(self).wf(),
        ensures
            final(self).wf(),
            final(self).id == old(self).id,
            final(self).routing_table == old(self).routing_table,
            final(self).kv_store == old(self).kv_store,
            final(self).files() =~= old(self).files().insert(
                key,
                (if old(self).files().contains_key(key) {
                    old(self).files()[key]
                } else {
                    Set::<PeerData>::empty()
                }).insert(peer@),
            ),
    {
        let ghost s0 = self.files_store@;
        let mut i: usize = 0;
        while i < self.files_store.len()
            invariant
                i <= self.files_store@.len(),
                self.files_store@ == s0,
                s0 == old(self).files_store@,
                files_unique(s0),
                old(self).wf(),
                self.id == old(self).id,
                self.routing_table == old(self).routing_table,
                self.kv_store == old(self).kv_store,
                forall|t: int| 0 <= t < i ==> (#[trigger] s0[t]).0 != key,
            decreases self.files_store@.len() - i,
        {
            if self.files_store[i].0 == key {
                proof {
                    lemma_files_lookup(s0, i as int);
                }
                let mut entry = self.files_store.remove(i);
                let ghost ev = entry.1@;
                let ghost pm = peer@;
                let already = peer_vec_contains(&entry.1, &peer);
                if !already {
                    entry.1.push(peer);
                    proof {
                        crate::protocol::lemma_peer_models_push(ev, entry.1@[ev.len() as int]);
                        assert(peer_models(entry.1@) == peer_models(ev).push(pm));
                        assert(peer_models(ev).push(pm).drop_last() =~= peer_models(ev));
                        assert(peer_set(peer_models(entry.1@)) =~= peer_set(peer_models(
                            ev,
                        )).insert(pm));
                    }
                } else {
                    proof {
                        let t = choose|t: int|
                            0 <= t < peer_models(ev).len() && peer_models(ev)[t] == pm;
                        lemma_peer_set_has(peer_models(ev), t);
                        assert(peer_set(peer_models(ev)).contains(pm));
                        assert(peer_set(peer_models(entry.1@)) =~= peer_set(peer_models(
                            ev,
                        )).insert(pm));
                    }
                }
                let nv = entry.1;
                self.files_store.insert(i, (key, nv));
                proof {
                    assert(self.files_store@ =~= s0.update(i as int, (key, self.files_store@[
                        i as int
                    ].1)));
                    lemma_files_update(s0, i as int, self.files_store@[i as int].1);
                    assert(files_unique(self.files_store@)) by {
                        assert forall|a: int, b: int|
                            0 <= a < b < self.files_store@.len() implies (
                        #[trigger] self.files_store@[a]).0 != (#[trigger] self.files_store@[
                            b
                        ]).0 by {
                            assert(self.files_store@[a].0 == s0[a].0);
                            assert(self.files_store@[b].0 == s0[b].0);
                        }
                    }
                }
                return ;
            }
            i = i + 1;
        }
        proof {
            lemma_files_absent(s0, key);
        }
        let mut nv: Vec<Peer> = Vec::new();
        nv.push(peer);
        self.files_store.push((key, nv));
        proof {
            assert(self.files_store@.drop_last() =~= s0);
            let lastv = self.files_store@.last().1@;
            assert(peer_models(lastv).len() == 1);
            assert(peer_models(lastv)[0] == peer@);
            assert(peer_models(lastv).drop_last() =~= Seq::<PeerData>::empty());
            assert(peer_set(peer_models(lastv)) == peer_set(Seq::<PeerData>::empty()).insert(
                peer@,
            ));
            assert(peer_set(peer_models(lastv)) =~= Set::<PeerData>::empty().insert(peer@));
        }
    }

    /// The peers recorded as owning a file, if any are.
    pub fn get_file_peers(&self, key: u32) -> (r: Option<Vec<Peer>>)
        requires
            self.wf(),
        ensures
            match r {
                Some(v) => self.files().contains_key(key) && peer_set(peer_models(v@))
                    == self.files()[key],
                None => !self.files().contains_key(key),
            },
    {
        let mut i: usize = 0;
        while i < self.files_store.len()
            invariant
                self.wf(),
                i <= self.files_store@.len(),
                forall|t: int| 0 <= t < i ==> (#[trigger] self.files_store@[t]).0 != key,
            decreases self.files_store@.len() - i,
        {
            if self.files_store[i].0 == key {
                proof {
                    lemma_files_lookup(self.files_store@, i as int);
                }
                let mut out: Vec<Peer> = Vec::new();
                let entry = &self.files_store[i].1;
                let mut t: usize = 0;
                while t < entry.len()
                    invariant
                        t <= entry@.len(),
                        peer_models(out@) =~= peer_models(entry@).take(t as int),
                    decreases entry@.len() - t,
                {
                    let ghost pre = out@;
                    out.push(entry[t].clone());
                    proof {
                        crate::protocol::lemma_peer_models_push(pre, entry@[t as int]);
                        assert(peer_models(entry@).take(t + 1) =~= peer_models(entry@).take(
                            t as int,
                        ).push(entry@[t as int]@));
                    }
                    t = t + 1;
                }
                proof {
                    assert(peer_models(entry@).take(entry@.len() as int) =~= peer_models(entry@));
                    assert(peer_models(out@) =~= peer_models(entry@));
                }
                return Some(out);
            }
            i = i + 1;
        }
        proof {
            lemma_files_absent(self.files_store@, key);
        }
        None
    }

    /// Record that a request went out to the peer with this real id.
    pub fn peer_was_requested(&mut self, target: u32, now_ms: u64)
        requires
            old(self).wf(),
        ensures
            final(self).wf(),
            final(self).id == old(self).id,
            final(self).kv_store == old(self).kv_store,
            final(self).files_store == old(self).files_store,
            final(self).routing_table.bucket_tree@ == crate::bucket_tree::spec_mark_requested(
                old(self).routing_table.bucket_tree@,
                target ^ old(self).id,
                now_ms,
            ),
            final(self).routing_table.id == old(self).routing_table.id,
            final(self).routing_table.recent_peers_cache_enabled == old(
                self,
            ).routing_table.recent_peers_cache_enabled,
            final(self).routing_table.latest_too_far_peers == old(
                self,
            ).routing_table.latest_too_far_peers,
    {
        self.routing_table.peer_was_requested(target, now_ms);
    }

    /// Record that a response arrived from the peer with this real id.
    pub fn peer_has_responded(&mut self, target: u32, now_ms: u64)
        requires
            old(self).wf(),
        ensures
            final(self).wf(),
            final(self).id == old(self).id,
            final(self).kv_store == old(self).kv_store,
            final(self).files_store == old(self).files_store,
            final(self).routing_table.bucket_tree@ == crate::bucket_tree::spec_mark_responded(
                old(self).routing_table.bucket_tree@,
                target ^ old(self).id,
                now_ms,
            ),
            final(self).routing_table.id == old(self).routing_table.id,
            final(self).routing_table.recent_peers_cache_enabled == old(
                self,
            ).routing_table.recent_peers_cache_enabled,
            final(self).routing_table.latest_too_far_peers == old(
                self,
            ).routing_table.latest_too_far_peers,
    {
        self.routing_table.peer_has_responded(target, now_ms);
    }

    /// How many peers the table knows, cache included.
    pub fn len(&self) -> (r: usize)
        ensures
            r == spec_rt_all_peers(self.routing_table).len(),
    {
        let all = self.routing_table.get_all_peers();
        all.len()
    }

    /// All known real peer ids, in ascending order: exactly the ids the
    /// table knows, one entry per held peer.
    pub fn peer_ids(&self) -> (r: Vec<u32>)
        ensures
            r@.len() == spec_rt_all_peers(self.routing_table).len(),
            forall|a: int, b: int| 0 <= a < b < r@.len() ==> r@[a] <= r@[b],
            forall|x: u32|
                r@.contains(x) <==> crate::bucket_tree::run_contains(
                    spec_rt_all_peers(self.routing_table),
                    x,
                ),
    {
        let all = self.routing_table.get_all_peers();
        let mut ids: Vec<u32> = Vec::new();
        let mut i: usize = 0;
        while i < all.len()
            invariant
                i <= all@.len(),
                ids@.len() == i,
                models(all@) == spec_rt_all_peers(self.routing_table),
                forall|t: int| 0 <= t < i ==> ids@[t] == models(all@)[t].id,
            decreases all@.len() - i,
        {
            ids.push(all[i].id);
            i = i + 1;
        }
        proof {
            assert forall|x: u32|
                ids@.contains(x) <==> crate::bucket_tree::run_contains(
                models(all@),
                x,
            ) by {
                if ids@.contains(x) {
                    let t = choose|t: int| 0 <= t < ids@.len() && ids@[t] == x;
                    assert(models(all@)[t].id == x);
                }
                if crate::bucket_tree::run_contains(models(all@), x) {
                    let t = choose|t: int|
                        0 <= t < models(all@).len() && models(all@)[t].id == x;
                    assert(ids@[t] == x);
                }
            }
        }
        sort_u32s(ids)
    }
}

/// Whether the vector holds this exact peer (same id and address).
fn peer_vec_contains(v: &Vec<Peer>, p: &Peer) -> (r: bool)
    ensures
        r == peer_models(v@).contains(p@),
{
    let mut i: usize = 0;
    while i < v.len()
        invariant
            i <= v@.len(),
            forall|t: int| 0 <= t < i ==> peer_models(v@)[t] != p@,
        decreases v@.len() - i,
    {
        if v[i].id == p.id && v[i].addr == p.addr {
            proof {
                assert(peer_models(v@)[i as int] == p@);
            }
            return true;
        }
        proof {
            assert(peer_models(v@)[i as int] != p@);
        }
        i = i + 1;
    }
    proof {
        if peer_models(v@).contains(p@) {
            let t = choose|t: int| 0 <= t < peer_models(v@).len() && peer_models(v@)[t] == p@;
        }
    }
    false
}

/// Every peer of a run is in the run's set.
proof fn lemma_peer_set_has(s: Seq<PeerData>, i: int)
    requires
        0 <= i < s.len(),
    ensures
        peer_set(s).contains(s[i]),
    decreases s.len(),
{
    if i < s.len() - 1 {
        let front = s.drop_last();
        assert(front[i] == s[i]);
        lemma_peer_set_has(front, i);
    }
}

/// Taking one entry out of a kv store takes its key out of the map, when
/// keys are unique.
proof fn lemma_kv_remove(s: Seq<(u32, String)>, i: int)
    requires
        kv_unique(s),
        0 <= i < s.len(),
    ensures
        kv_model(s.remove(i)) =~= kv_model(s).remove(s[i].0),
    decreases s.len(),
{
    let s2 = s.remove(i);
    if i == s.len() - 1 {
        assert(s2 =~= s.drop_last());
        assert forall|t: int| 0 <= t < s.drop_last().len() implies (#[trigger] s.drop_last()[
            t
        ]).0 != s[i].0 by {
            assert(s.drop_last()[t] == s[t]);
        }
        lemma_kv_absent(s.drop_last(), s[i].0);
        assert(kv_model(s.drop_last()) =~= kv_model(s.drop_last()).remove(s[i].0));
    } else {
        assert(s2.drop_last() =~= s.drop_last().remove(i));
        assert(s2.last() == s.last());
        assert(s.drop_last()[i] == s[i]);
        lemma_kv_remove(s.drop_last(), i);
        assert(s.last().0 != s[i].0);
        assert(kv_model(s2) =~= kv_model(s).remove(s[i].0));
    }
}

/// Replacing the entry for a key by removing it and pushing a fresh one
/// yields the map with the key rewritten.
proof fn lemma_kv_update_via_remove(s: Seq<(u32, String)>, i: int, key: u32, message: String)
    requires
        kv_unique(s),
        0 <= i < s.len(),
        s[i].0 == key,
    ensures
        kv_model(s.remove(i).push((key, message))) =~= kv_model(s).insert(key, message@),
        kv_unique(s.remove(i).push((key, message))),
{
    lemma_kv_remove(s, i);
    let s2 = s.remove(i);
    let s3 = s2.push((key, message));
    assert(s3.drop_last() =~= s2);
    assert(kv_model(s3) == kv_model(s2).insert(key, message@));
    assert(kv_model(s3) =~= kv_model(s).insert(key, message@));
    assert forall|a: int, b: int| 0 <= a < b < s3.len() implies (#[trigger] s3[a]).0 != (
    #[trigger] s3[b]).0 by {
        if b < s3.len() - 1 {
            let av = if a < i {
                s[a]
            } else {
                s[a + 1]
            };
            assert(s3[a] == av);
            let bv = if b < i {
                s[b]
            } else {
                s[b + 1]
            };
            assert(s3[b] == bv);
        } else {
            let av = if a < i {
                s[a]
            } else {
                s[a + 1]
            };
            assert(s3[a] == av);
            assert(s3[b].0 == key);
        }
    }
}

/// Sort 32-bit values ascending: same length, same values present.
fn sort_u32s(xs: Vec<u32>) -> (r: Vec<u32>)
    ensures
        r@.len() == xs@.len(),
        forall|a: int, b: int| 0 <= a < b < r@.len() ==> r@[a] <= r@[b],
        forall|x: u32| r@.contains(x) <==> xs@.contains(x),
{
    let mut res: Vec<u32> = Vec::new();
    let mut i: usize = 0;
    while i < xs.len()
        invariant
            i <= xs@.len(),
            res@.len() == i,
            forall|a: int, b: int| 0 <= a < b < res@.len() ==> res@[a] <= res@[b],
            forall|x: u32| res@.contains(x) <==> xs@.take(i as int).contains(x),
        decreases xs@.len() - i,
    {
        let x = xs[i];
        let mut pos: usize = 0;
        while pos < res.len() && res[pos] <= x
            invariant
                pos <= res@.len(),
                forall|t: int| 0 <= t < pos ==> res@[t] <= x,
            decreases res@.len() - pos,
        {
            pos = pos + 1;
        }
        let ghost pre = res@;
        res.insert(pos, x);
        proof {
            assert forall|a: int, b: int| 0 <= a < b < res@.len() implies res@[a] <= res@[b] by {
                let av = if a < pos {
                    pre[a]
                } else if a == pos {
                    x
                } else {
                    pre[a - 1]
                };
                assert(res@[a] == av);
                let bv = if b < pos {
                    pre[b]
                } else if b == pos {
                    x
                } else {
                    pre[b - 1]
                };
                assert(res@[b] == bv);
                if a == pos && b > pos {
                    assert(pos < pre.len());
                    assert(pre[pos as int] > x);
                }
            }
            assert forall|x2: u32|
                res@.contains(x2) <==> xs@.take(i + 1).contains(x2) by {
                assert(xs@.take(i + 1) == xs@.take(i as int).push(xs@[i as int]));
                if res@.contains(x2) {
                    let t = choose|t: int| 0 <= t < res@.len() && res@[t] == x2;
                    if t < pos {
                        assert(pre[t] == x2);
                        assert(pre.contains(x2));
                        assert(xs@.take(i as int).contains(x2));
                        let u = choose|u: int|
                            0 <= u < xs@.take(i as int).len() && xs@.take(i as int)[u] == x2;
                        assert(xs@.take(i + 1)[u] == x2);
                    } else if t > pos {
                        assert(pre[t - 1] == x2);
                        assert(pre.contains(x2));
                        assert(xs@.take(i as int).contains(x2));
                        let u = choose|u: int|
                            0 <= u < xs@.take(i as int).len() && xs@.take(i as int)[u] == x2;
                        assert(xs@.take(i + 1)[u] == x2);
                    } else {
                        assert(x2 == x);
                        assert(xs@.take(i + 1)[i as int] == x2);
                    }
                    assert(xs@.take(i + 1).contains(x2));
                }
                if xs@.take(i + 1).contains(x2) {
                    let u = choose|u: int|
                        0 <= u < xs@.take(i + 1).len() && #[trigger] xs@.take(i + 1)[u] == x2;
                    if u < i {
                        assert(xs@.take(i as int)[u] == x2);
                        assert(xs@.take(i as int).contains(x2));
                        assert(pre.contains(x2));
                        let t = choose|t: int| 0 <= t < pre.len() && pre[t] == x2;
                        if t < pos {
                            assert(res@[t] == x2);
                        } else {
                            assert(res@[t + 1] == x2);
                        }
                    } else {
                        assert(x2 == x);
                        assert(res@[pos as int] == x2);
                    }
                    assert(res@.contains(x2));
                }
            }
        }
        i = i + 1;
    }
    proof {
        assert(xs@.take(xs@.len() as int) == xs@);
    }
    res
}

} // verus!
