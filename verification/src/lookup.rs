//! The iterative lookup engine, as a state machine.
//!
//! One round pops up to `LOOKUP_ALPHA` unvisited candidates, queries them
//! (the caller performs the queries: the engine never touches the
//! network), and absorbs the returned peers: mark the queried ones
//! visited, drop what was already visited, keep the frontier sorted by
//! distance to the target, and decide whether to go on.
//!
//! Two stopping rules: the classic one ends a search whose round brought
//! nothing closer; the greedy one, used when a hop limit is set, runs
//! until the target is found, the limit is reached, or the frontier runs
//! dry.

use vstd::prelude::*;

use crate::protocol::{peer_models, Peer};

verus! {

/// How many candidates one round queries in parallel.
pub const LOOKUP_ALPHA: usize = 3;

/// The frontier and bookkeeping of one search.
pub struct LookupState {
    /// Candidates still to query, farthest first (cheap to pop).
    pub queue: Vec<Peer>,
    /// Identifiers already queried, plus the searcher's own.
    pub visited: Vec<u32>,
    /// Smallest distance to the target seen so far.
    pub best_distance: u32,
    /// The peer with the target's exact identifier, once seen.
    pub found_peer: Option<Peer>,
    /// Rounds completed.
    pub hop: u32,
    /// The hop limit; set, the greedy rule applies, unset, the classic.
    pub max_hop: Option<u32>,
    /// The searcher's identifier, never queried.
    pub sender: u32,
    /// The identifier searched for.
    pub target: u32,
    /// Whether the search has ended.
    pub done: bool,
}

/// One batch drawn off the frontier: pop from the back, skip (and drop)
/// already-visited peers, mark each picked peer visited at once, and stop
/// when `room` peers are picked or the frontier is empty. Yields the
/// batch in pop order, the remaining frontier, and the new visited set.
pub open spec fn spec_next_batch(queue: Seq<Peer>, visited: Seq<u32>, room: int) -> (
    Seq<Peer>,
    Seq<Peer>,
    Seq<u32>,
)
    decreases queue.len(),
{
    if room <= 0 || queue.len() == 0 {
        (Seq::empty(), queue, visited)
    } else {
        let p = queue.last();
        let rest = queue.drop_last();
        if visited.contains(p.id) {
            spec_next_batch(rest, visited, room)
        } else {
            let t = spec_next_batch(rest, visited.push(p.id), room - 1);
            (seq![p] + t.0, t.1, t.2)
        }
    }
}

/// The responses whose peers are not yet visited, kept in order.
pub open spec fn spec_filter_unvisited(responses: Seq<Peer>, visited: Seq<u32>) -> Seq<Peer>
    decreases responses.len(),
{
    if responses.len() == 0 {
        Seq::empty()
    } else {
        let front = spec_filter_unvisited(responses.drop_last(), visited);
        if visited.contains(responses.last().id) {
            front
        } else {
            front.push(responses.last())
        }
    }
}

/// Length of the leading run of peers at distance at most `key` to the
/// target.
pub open spec fn peer_run(s: Seq<Peer>, key: u32, target: u32) -> int
    decreases s.len(),
{
    if s.len() == 0 {
        0
    } else if (s[0].id ^ target) <= key {
        1 + peer_run(s.drop_first(), key, target)
    } else {
        0
    }
}

/// Stable sort by distance to the target, closest first: insert each peer,
/// in order, after every peer at most as close.
pub open spec fn spec_sort_contacts(s: Seq<Peer>, target: u32) -> Seq<Peer>
    decreases s.len(),
{
    if s.len() == 0 {
        Seq::empty()
    } else {
        let front = spec_sort_contacts(s.drop_last(), target);
        front.insert(peer_run(front, (s.last().id ^ target), target), s.last())
    }
}

/// Drop every peer whose id equals the last kept one's.
pub open spec fn spec_dedup_rest(s: Seq<Peer>, last_id: u32) -> Seq<Peer>
    decreases s.len(),
{
    if s.len() == 0 {
        Seq::empty()
    } else if s[0].id == last_id {
        spec_dedup_rest(s.drop_first(), last_id)
    } else {
        seq![s[0]] + spec_dedup_rest(s.drop_first(), s[0].id)
    }
}

/// Drop every peer whose id equals its kept predecessor's.
pub open spec fn spec_dedup(s: Seq<Peer>) -> Seq<Peer> {
    if s.len() == 0 {
        Seq::empty()
    } else {
        seq![s[0]] + spec_dedup_rest(s.drop_first(), s[0].id)
    }
}

/// Index of the first peer carrying this id, or the length if none does.
pub open spec fn first_with_id(s: Seq<Peer>, id: u32) -> int
    decreases s.len(),
{
    if s.len() == 0 {
        0
    } else if s[0].id == id {
        0
    } else {
        1 + first_with_id(s.drop_first(), id)
    }
}

/// The peers in reverse order.
pub open spec fn spec_reverse(s: Seq<Peer>) -> Seq<Peer> {
    Seq::new(s.len(), |i: int| s[s.len() - 1 - i])
}

/// What one round leaves on the frontier: the unvisited responses sorted
/// closest first, appended to the old frontier, the whole re-sorted,
/// stripped of repeated ids, and reversed so the closest sits last.
pub open spec fn spec_merged_queue(
    queue: Seq<Peer>,
    responses: Seq<Peer>,
    visited: Seq<u32>,
    target: u32,
) -> Seq<Peer> {
    spec_reverse(
        spec_dedup(
            spec_sort_contacts(
                queue + spec_sort_contacts(spec_filter_unvisited(responses, visited), target),
                target,
            ),
        ),
    )
}

impl LookupState {
    /// The engine invariant: the searcher is always marked visited, and a
    /// found peer really has the target's identifier.
    pub open spec fn wf(self) -> bool {
        &&& self.visited@.contains(self.sender)
        &&& match self.found_peer {
            Some(p) => p.id == self.target,
            None => true,
        }
    }

    /// A fresh search from one known peer.
    pub fn new(initial_peer: Peer, sender: u32, target: u32, max_hop: Option<u32>) -> (r: Self)
        ensures
            r.wf(),
            r.queue@.len() == 1,
            r.queue@[0] == initial_peer,
            r.visited@ == seq![sender],
            r.best_distance == u32::MAX,
            (r.found_peer is None),
            r.hop == 0,
            r.max_hop == max_hop,
            r.sender == sender,
            r.target == target,
            !r.done,
    {
        let mut queue: Vec<Peer> = Vec::new();
        queue.push(initial_peer);
        let mut visited: Vec<u32> = Vec::new();
        visited.push(sender);
        proof {
            assert(visited@ =~= seq![sender]);
            assert(visited@[0] == sender);
        }
        LookupState {
            queue,
            visited,
            best_distance: u32::MAX,
            found_peer: None,
            hop: 0,
            max_hop,
            sender,
            target,
            done: false,
        }
    }

    /// Pop up to `LOOKUP_ALPHA` unvisited candidates off the frontier and
    /// mark them visited. The searcher itself is never handed out.
    pub fn next_batch(&mut self) -> (r: Vec<Peer>)
        requires
            old(self).wf(),
        ensures
            final(self).wf(),
            final(self).best_distance == old(self).best_distance,
            final(self).found_peer == old(self).found_peer,
            final(self).hop == old(self).hop,
            final(self).max_hop == old(self).max_hop,
            final(self).sender == old(self).sender,
            final(self).target == old(self).target,
            final(self).done == old(self).done,
            r@.len() <= LOOKUP_ALPHA,
            forall|i: int|
                0 <= i < r@.len() ==> !old(self).visited@.contains((#[trigger] r@[i]).id),
            forall|i: int| 0 <= i < r@.len() ==> (#[trigger] r@[i]).id != old(self).sender,
            forall|i: int|
                0 <= i < r@.len() ==> peer_models(old(self).queue@).contains(
                    (#[trigger] r@[i])@,
                ),
            forall|x: u32|
                final(self).visited@.contains(x) <==> (old(self).visited@.contains(x) || (
                exists|i: int| 0 <= i < r@.len() && (#[trigger] r@[i]).id == x)),
            forall|i: int, j: int|
                0 <= i < j < r@.len() ==> (#[trigger] r@[i]).id != (#[trigger] r@[j]).id,
            r@.len() == LOOKUP_ALPHA || final(self).queue@.len() == 0,
            final(self).queue@ == old(self).queue@.take(final(self).queue@.len() as int),
            r@ == spec_next_batch(old(self).queue@, old(self).visited@, LOOKUP_ALPHA as int).0,
            final(self).queue@ == spec_next_batch(
                old(self).queue@,
                old(self).visited@,
                LOOKUP_ALPHA as int,
            ).1,
            final(self).visited@ == spec_next_batch(
                old(self).queue@,
                old(self).visited@,
                LOOKUP_ALPHA as int,
            ).2,
    {
        let ghost target = spec_next_batch(
            old(self).queue@,
            old(self).visited@,
            LOOKUP_ALPHA as int,
        );
        let mut batch: Vec<Peer> = Vec::new();
        while batch.len() < LOOKUP_ALPHA && self.queue.len() > 0
            invariant
                old(self).wf(),
                self.wf(),
                self.best_distance == old(self).best_distance,
                self.found_peer == old(self).found_peer,
                self.hop == old(self).hop,
                self.max_hop == old(self).max_hop,
                self.sender == old(self).sender,
                self.target == old(self).target,
                self.done == old(self).done,
                batch@.len() <= LOOKUP_ALPHA,
                self.queue@.len() <= old(self).queue@.len(),
                self.queue@ == old(self).queue@.take(self.queue@.len() as int),
                forall|i: int|
                    0 <= i < batch@.len() ==> !old(self).visited@.contains(
                        (#[trigger] batch@[i]).id,
                    ),
                forall|i: int|
                    0 <= i < batch@.len() ==> peer_models(old(self).queue@).contains(
                        (#[trigger] batch@[i])@,
                    ),
                forall|x: u32|
                    self.visited@.contains(x) <==> (old(self).visited@.contains(x) || (
                    exists|i: int| 0 <= i < batch@.len() && (#[trigger] batch@[i]).id == x)),
                forall|i: int, j: int|
                    0 <= i < j < batch@.len() ==> (#[trigger] batch@[i]).id != (
                    #[trigger] batch@[j]).id,
                target == spec_next_batch(
                    old(self).queue@,
                    old(self).visited@,
                    LOOKUP_ALPHA as int,
                ),
                target.0 == batch@ + spec_next_batch(
                    self.queue@,
                    self.visited@,
                    LOOKUP_ALPHA - batch@.len(),
                ).0,
                target.1 == spec_next_batch(
                    self.queue@,
                    self.visited@,
                    LOOKUP_ALPHA - batch@.len(),
                ).1,
                target.2 == spec_next_batch(
                    self.queue@,
                    self.visited@,
                    LOOKUP_ALPHA - batch@.len(),
                ).2,
            decreases self.queue@.len(),
        {
            let ghost q0 = self.queue@;
            let popped = self.queue.pop();
            match popped {
                Some(p) => {
                    proof {
                        assert(p == q0.last());
                        assert(old(self).queue@.take(q0.len() as int)[q0.len() - 1] == old(
                            self,
                        ).queue@[q0.len() - 1]);
                        assert(self.queue@ =~= old(self).queue@.take(self.queue@.len() as int));
                        assert(peer_models(old(self).queue@)[q0.len() - 1] == p@);
                        assert(peer_models(old(self).queue@).contains(p@));
                    }
                    if !contains_u32(&self.visited, p.id) {
                        let ghost b0 = batch@;
                        let ghost v0 = self.visited@;
                        self.visited.push(p.id);
                        batch.push(p);
                        proof {
                            assert(batch@ == b0.push(batch@[b0.len() as int]));
                            assert(batch@[b0.len() as int].id == self.visited@[v0.len() as int]);
                            assert forall|x: u32|
                                self.visited@.contains(x) implies (old(self).visited@.contains(x)
                                || (exists|i: int|
                                0 <= i < batch@.len() && (#[trigger] batch@[i]).id == x)) by {
                                let t = choose|t: int|
                                    0 <= t < self.visited@.len() && self.visited@[t] == x;
                                if t < v0.len() {
                                    assert(v0[t] == x);
                                    assert(v0.contains(x));
                                    if !old(self).visited@.contains(x) {
                                        let i = choose|i: int|
                                            0 <= i < b0.len() && b0[i].id == x;
                                        assert(batch@[i] == b0[i]);
                                        assert((batch@[i]).id == x);
                                    }
                                } else {
                                    assert(x == batch@[b0.len() as int].id);
                                }
                            }
                            assert forall|x: u32|
                                (old(self).visited@.contains(x) || (exists|i: int|
                                0 <= i < batch@.len() && (#[trigger] batch@[i]).id
                                    == x)) implies self.visited@.contains(x) by {
                                if old(self).visited@.contains(x) {
                                    assert(v0.contains(x));
                                    let t = choose|t: int| 0 <= t < v0.len() && v0[t] == x;
                                    assert(self.visited@[t] == x);
                                } else {
                                    let i = choose|i: int|
                                        0 <= i < batch@.len() && batch@[i].id == x;
                                    if i < b0.len() {
                                        assert(b0[i] == batch@[i]);
                                        assert(b0[i].id == x);
                                        assert(v0.contains(x));
                                        let t = choose|t: int|
                                            0 <= t < v0.len() && v0[t] == x;
                                        assert(self.visited@[t] == x);
                                    } else {
                                        assert(self.visited@[v0.len() as int] == x);
                                    }
                                }
                            }
                        }
                    }
                },
                None => {
                },
            }
        }
        proof {
            assert forall|i: int| 0 <= i < batch@.len() implies (#[trigger] batch@[i]).id != old(
                self,
            ).sender by {
                assert(old(self).visited@.contains(old(self).sender));
            }
        }
        batch
    }

    /// Absorb one round's responses: drop already-visited peers, record
    /// an exact match and any improvement of the best distance, merge the
    /// rest into the frontier (closest last), and decide whether the
    /// search goes on.
    pub fn absorb_round(&mut self, responses: Vec<Peer>)
        requires
            old(self).wf(),
        ensures
            final(self).wf(),
            final(self).max_hop == old(self).max_hop,
            final(self).sender == old(self).sender,
            final(self).target == old(self).target,
            final(self).visited == old(self).visited,
            final(self).hop == (if old(self).hop == u32::MAX {
                u32::MAX as int
            } else {
                old(self).hop + 1
            }),
            ((final(self).found_peer is Some) <==> ((old(self).found_peer is Some) || (
            exists|i: int|
                0 <= i < responses@.len() && (#[trigger] responses@[i]).id == old(self).target
                    && !old(self).visited@.contains(old(self).target)))),
            final(self).found_peer == (if first_with_id(
                spec_filter_unvisited(responses@, old(self).visited@),
                old(self).target,
            ) < spec_filter_unvisited(responses@, old(self).visited@).len() {
                Some(
                    spec_filter_unvisited(responses@, old(self).visited@)[first_with_id(
                        spec_filter_unvisited(responses@, old(self).visited@),
                        old(self).target,
                    )],
                )
            } else {
                old(self).found_peer
            }),
            final(self).best_distance <= old(self).best_distance,
            forall|i: int|
                (0 <= i < responses@.len() && !old(self).visited@.contains(
                    (#[trigger] responses@[i]).id,
                )) ==> final(self).best_distance <= (responses@[i].id ^ old(self).target),
            ((final(self).best_distance < old(self).best_distance) <==> (exists|i: int|
                0 <= i < responses@.len() && !old(self).visited@.contains(
                    (#[trigger] responses@[i]).id,
                ) && (responses@[i].id ^ old(self).target) < old(self).best_distance)),
            (final(self).best_distance < old(self).best_distance) ==> (exists|i: int|
                0 <= i < responses@.len() && !old(self).visited@.contains(
                    (#[trigger] responses@[i]).id,
                ) && (responses@[i].id ^ old(self).target) == final(self).best_distance),
            forall|i: int|
                0 <= i < final(self).queue@.len() ==> (peer_models(old(self).queue@).contains(
                    (#[trigger] final(self).queue@[i])@,
                ) || peer_models(responses@).contains(final(self).queue@[i]@)),
            final(self).queue@ == spec_merged_queue(
                old(self).queue@,
                responses@,
                old(self).visited@,
                old(self).target,
            ),
            final(self).done == (match old(self).max_hop {
                Some(mh) => (final(self).found_peer is Some) || final(self).hop >= mh || final(
                    self
                ).queue@.len() == 0,
                None => !(final(self).best_distance < old(self).best_distance),
            }),
    {
        let ghost v0 = self.visited@;
        let ghost t0 = self.target;
        let ghost b0 = self.best_distance;

        let fresh = filter_unvisited(&self.visited, &responses);
        let nb = best_of(&fresh, self.target, self.best_distance);
        let improved = nb < self.best_distance;
        self.best_distance = nb;
        match find_exact(&fresh, self.target) {
            Some(p) => {
                self.found_peer = Some(p);
            },
            None => {
            },
        }
        proof {
            // An unvisited exact match among the responses survives the
            // filter, and the other way round.
            if exists|i: int|
                0 <= i < responses@.len() && (#[trigger] responses@[i]).id == t0 && !v0.contains(
                    t0,
                ) {
                let i = choose|i: int|
                    0 <= i < responses@.len() && (#[trigger] responses@[i]).id == t0
                        && !v0.contains(t0);
                assert(peer_models(fresh@).contains(responses@[i]@));
                let u = choose|u: int|
                    0 <= u < peer_models(fresh@).len() && peer_models(fresh@)[u] == responses@[
                        i
                    ]@;
                assert(fresh@[u].id == t0);
            }
            if exists|u: int| 0 <= u < fresh@.len() && (#[trigger] fresh@[u]).id == t0 {
                let u = choose|u: int| 0 <= u < fresh@.len() && (#[trigger] fresh@[u]).id == t0;
                assert(peer_models(responses@).contains(fresh@[u]@));
                let i = choose|i: int|
                    0 <= i < peer_models(responses@).len() && peer_models(responses@)[i]
                        == fresh@[u]@;
                assert(responses@[i].id == t0);
                assert(!v0.contains(fresh@[u].id));
            }
            // Distances seen among unvisited responses are distances seen
            // in the filtered run, and the other way round.
            assert forall|i: int|
                (0 <= i < responses@.len() && !v0.contains(
                    (#[trigger] responses@[i]).id,
                )) implies nb <= (responses@[i].id ^ t0) by {
                assert(peer_models(fresh@).contains(responses@[i]@));
                let u = choose|u: int|
                    0 <= u < peer_models(fresh@).len() && peer_models(fresh@)[u] == responses@[
                        i
                    ]@;
                assert(fresh@[u].id == responses@[i].id);
            }
            if nb < b0 {
                let u = choose|u: int|
                    0 <= u < fresh@.len() && ((#[trigger] fresh@[u]).id ^ t0) < b0;
                assert(peer_models(responses@).contains(fresh@[u]@));
                let i = choose|i: int|
                    0 <= i < peer_models(responses@).len() && peer_models(responses@)[i]
                        == fresh@[u]@;
                assert(responses@[i].id == fresh@[u].id);
                assert(!v0.contains(responses@[i].id));
                let w = choose|w: int|
                    0 <= w < fresh@.len() && ((#[trigger] fresh@[w]).id ^ t0) == nb;
                assert(peer_models(responses@).contains(fresh@[w]@));
                let iw = choose|iw: int|
                    0 <= iw < peer_models(responses@).len() && peer_models(responses@)[iw]
                        == fresh@[w]@;
                assert(responses@[iw].id == fresh@[w].id);
                assert(!v0.contains(responses@[iw].id));
            }
            if exists|i: int|
                0 <= i < responses@.len() && !v0.contains((#[trigger] responses@[i]).id) && ((
                responses@[i].id ^ t0) < b0) {
                let i = choose|i: int|
                    0 <= i < responses@.len() && !v0.contains((#[trigger] responses@[i]).id) && ((
                    responses@[i].id ^ t0) < b0);
                assert(peer_models(fresh@).contains(responses@[i]@));
                let u = choose|u: int|
                    0 <= u < peer_models(fresh@).len() && peer_models(fresh@)[u] == responses@[
                        i
                    ]@;
                assert(fresh@[u].id == responses@[i].id);
            }
        }

        // Merge the frontier: closest last, duplicate ids dropped.
        let ghost q0 = self.queue@;
        let ghost fresh_v = fresh@;
        let sorted = sort_contacts(fresh, self.target);
        let ghost sorted_v = sorted@;
        let mut merged = take_vec(&mut self.queue);
        append_peers(&mut merged, sorted);
        let ghost merged_v = merged@;
        let sorted_all = sort_contacts(merged, self.target);
        let ghost sorted_all_v = sorted_all@;
        let deduped = dedup_by_id(sorted_all);
        let ghost deduped_v = deduped@;
        let reversed = reverse_peers(deduped);
        self.queue = reversed;
        proof {
            assert(fresh_v == spec_filter_unvisited(responses@, v0));
            assert(sorted_v == spec_sort_contacts(fresh_v, t0));
            assert(merged_v == q0 + sorted_v);
            assert(sorted_all_v == spec_sort_contacts(merged_v, t0));
            assert(deduped_v == spec_dedup(sorted_all_v));
            assert(self.queue@ == spec_reverse(deduped_v));
            assert(self.queue@ == spec_merged_queue(q0, responses@, v0, t0));
            assert forall|i: int|
                0 <= i < self.queue@.len() implies (peer_models(q0).contains(
                (#[trigger] self.queue@[i])@,
            ) || peer_models(responses@).contains(self.queue@[i]@)) by {
                let m = self.queue@[i]@;
                assert(peer_models(deduped_v).contains(m));
                let a = choose|a: int|
                    0 <= a < deduped_v.len() && peer_models(deduped_v)[a] == m;
                assert(peer_models(sorted_all_v).contains(deduped_v[a]@));
                let b = choose|b: int|
                    0 <= b < sorted_all_v.len() && peer_models(sorted_all_v)[b] == m;
                assert(peer_models(merged_v).contains(sorted_all_v[b]@));
                let c = choose|c: int|
                    0 <= c < merged_v.len() && peer_models(merged_v)[c] == m;
                assert(merged_v == q0 + sorted_v);
                if c < q0.len() {
                    assert(merged_v[c] == q0[c]);
                    assert(peer_models(q0)[c] == m);
                } else {
                    assert(merged_v[c] == sorted_v[c - q0.len()]);
                    assert(peer_models(sorted_v)[c - q0.len()] == m);
                    assert(peer_models(fresh_v).contains(sorted_v[c - q0.len()]@));
                    let d = choose|d: int|
                        0 <= d < fresh_v.len() && peer_models(fresh_v)[d] == m;
                    assert(peer_models(responses@).contains(fresh_v[d]@));
                }
            }
        }

        // One more hop; decide whether the search ends.
        if self.hop < u32::MAX {
            self.hop = self.hop + 1;
        }
        let stop = match self.max_hop {
            Some(mh) => self.found_peer.is_some() || self.hop >= mh || self.queue.len() == 0,
            None => !improved,
        };
        self.done = stop;
    }

    /// Whether the greedy rule just ended the search on an exact match,
    /// which the caller then records in its own table.
    pub fn should_store_found(&self) -> (r: bool)
        ensures
            r == (self.done && (self.max_hop is Some) && (self.found_peer is Some)),
    {
        self.done && self.max_hop.is_some() && self.found_peer.is_some()
    }
}

/// The responses whose peers were not visited yet, in order.
fn filter_unvisited(visited: &Vec<u32>, responses: &Vec<Peer>) -> (r: Vec<Peer>)
    ensures
        r@ == spec_filter_unvisited(responses@, visited@),
        forall|t: int|
            0 <= t < r@.len() ==> (peer_models(responses@).contains((#[trigger] r@[t])@)
                && !visited@.contains(r@[t].id)),
        forall|t: int|
            (0 <= t < responses@.len() && !visited@.contains((#[trigger] responses@[t]).id))
                ==> peer_models(r@).contains(responses@[t]@),
{
    let mut out: Vec<Peer> = Vec::new();
    let mut i: usize = 0;
    while i < responses.len()
        invariant
            i <= responses@.len(),
            out@ == spec_filter_unvisited(responses@.take(i as int), visited@),
            forall|t: int|
                0 <= t < out@.len() ==> (peer_models(responses@).contains((#[trigger] out@[t])@)
                    && !visited@.contains(out@[t].id)),
            forall|t: int|
                (0 <= t < i && !visited@.contains((#[trigger] responses@[t]).id))
                    ==> peer_models(out@).contains(responses@[t]@),
        decreases responses@.len() - i,
    {
        if !contains_u32(visited, responses[i].id) {
            let p = responses[i].clone();
            let ghost o0 = out@;
            out.push(p);
            proof {
                assert(peer_models(responses@)[i as int] == responses@[i as int]@);
                assert(peer_models(out@)[o0.len() as int] == responses@[i as int]@);
                assert forall|t: int|
                    (0 <= t < i + 1 && !visited@.contains(
                        (#[trigger] responses@[t]).id,
                    )) implies peer_models(out@).contains(responses@[t]@) by {
                    if t < i {
                        let u = choose|u: int|
                            0 <= u < peer_models(o0).len() && peer_models(o0)[u] == responses@[
                                t
                            ]@;
                        assert(peer_models(out@)[u] == responses@[t]@);
                    }
                }
                assert forall|t: int|
                    0 <= t < out@.len() implies (peer_models(responses@).contains(
                    (#[trigger] out@[t])@,
                ) && !visited@.contains(out@[t].id)) by {
                    if t < o0.len() {
                        assert(out@[t] == o0[t]);
                    }
                }
            }
        }
        proof {
            assert(responses@.take(i + 1).drop_last() =~= responses@.take(i as int));
            assert(responses@.take(i + 1).last() == responses@[i as int]);
            assert(out@ == spec_filter_unvisited(responses@.take(i + 1), visited@));
        }
        i = i + 1;
    }
    proof {
        assert(responses@.take(responses@.len() as int) =~= responses@);
    }
    out
}

/// The smallest distance to the target among these peers and a floor.
fn best_of(fresh: &Vec<Peer>, target: u32, start_best: u32) -> (r: u32)
    ensures
        r <= start_best,
        forall|u: int| 0 <= u < fresh@.len() ==> r <= ((#[trigger] fresh@[u]).id ^ target),
        ((r < start_best) <==> (exists|u: int|
            0 <= u < fresh@.len() && ((#[trigger] fresh@[u]).id ^ target) < start_best)),
        r == start_best || (exists|u: int|
            0 <= u < fresh@.len() && ((#[trigger] fresh@[u]).id ^ target) == r),
{
    let mut best = start_best;
    let mut u: usize = 0;
    while u < fresh.len()
        invariant
            u <= fresh@.len(),
            best <= start_best,
            forall|t: int| 0 <= t < u ==> best <= ((#[trigger] fresh@[t]).id ^ target),
            ((best < start_best) <==> (exists|t: int|
                0 <= t < u && ((#[trigger] fresh@[t]).id ^ target) < start_best)),
            best == start_best || (exists|t: int|
                0 <= t < u && ((#[trigger] fresh@[t]).id ^ target) == best),
        decreases fresh@.len() - u,
    {
        let d = crate::math::distance(fresh[u].id, target);
        if d < best {
            best = d;
        }
        u = u + 1;
    }
    best
}

/// A position that ends the run of other ids is the first occurrence.
proof fn lemma_first_with_id_char(s: Seq<Peer>, id: u32, k: int)
    requires
        0 <= k <= s.len(),
        forall|i: int| 0 <= i < k ==> (#[trigger] s[i]).id != id,
        k < s.len() ==> s[k].id == id,
    ensures
        first_with_id(s, id) == k,
    decreases s.len(),
{
    if s.len() == 0 {
    } else if s[0].id == id {
        assert(k == 0);
    } else {
        assert(k >= 1);
        let rest = s.drop_first();
        assert forall|i: int| 0 <= i < k - 1 implies (#[trigger] rest[i]).id != id by {
            assert(rest[i] == s[i + 1]);
        }
        assert(k - 1 < rest.len() ==> rest[k - 1].id == id);
        lemma_first_with_id_char(rest, id, k - 1);
    }
}

/// The first peer carrying exactly the target's identifier, if any.
fn find_exact(fresh: &Vec<Peer>, target: u32) -> (r: Option<Peer>)
    ensures
        match r {
            Some(p) => p.id == target && peer_models(fresh@).contains(p@) && first_with_id(
                fresh@,
                target,
            ) < fresh@.len() && p == fresh@[first_with_id(fresh@, target)],
            None => (forall|u: int|
                0 <= u < fresh@.len() ==> (#[trigger] fresh@[u]).id != target)
                && first_with_id(fresh@, target) == fresh@.len(),
        },
{
    let mut u: usize = 0;
    while u < fresh.len()
        invariant
            u <= fresh@.len(),
            forall|t: int| 0 <= t < u ==> (#[trigger] fresh@[t]).id != target,
        decreases fresh@.len() - u,
    {
        if fresh[u].id == target {
            let p = fresh[u].clone();
            proof {
                assert(peer_models(fresh@)[u as int] == p@);
                lemma_first_with_id_char(fresh@, target, u as int);
            }
            return Some(p);
        }
        u = u + 1;
    }
    proof {
        lemma_first_with_id_char(fresh@, target, fresh@.len() as int);
    }
    None
}

/// Whether the vector holds this value.
fn contains_u32(v: &Vec<u32>, x: u32) -> (r: bool)
    ensures
        r == v@.contains(x),
{
    let mut i: usize = 0;
    while i < v.len()
        invariant
            i <= v@.len(),
            forall|t: int| 0 <= t < i ==> v@[t] != x,
        decreases v@.len() - i,
    {
        if v[i] == x {
            return true;
        }
        i = i + 1;
    }
    proof {
        if v@.contains(x) {
            let t = choose|t: int| 0 <= t < v@.len() && v@[t] == x;
        }
    }
    false
}

/// Take the vector out, leaving an empty one.
fn take_vec(v: &mut Vec<Peer>) -> (r: Vec<Peer>)
    ensures
        r@ == old(v)@,
        final(v)@.len() == 0,
{
    let mut out: Vec<Peer> = Vec::new();
    core::mem::swap(v, &mut out);
    out
}

/// Move every peer of `src` onto the end of `dst`.
fn append_peers(dst: &mut Vec<Peer>, src: Vec<Peer>)
    ensures
        final(dst)@ == old(dst)@ + src@,
{
    let ghost s0 = src@;
    let mut src = src;
    let mut rev: Vec<Peer> = Vec::new();
    while src.len() > 0
        invariant
            rev@.len() + src@.len() == s0.len(),
            forall|i: int| 0 <= i < src@.len() ==> #[trigger] src@[i] == s0[i],
            forall|i: int| 0 <= i < rev@.len() ==> #[trigger] rev@[i] == s0[s0.len() - 1 - i],
        decreases src@.len(),
    {
        match src.pop() {
            Some(p) => {
                proof {
                    assert(p == s0[src@.len() as int]);
                }
                rev.push(p);
            },
            None => {
            },
        }
    }
    proof {
        assert(dst@ =~= old(dst)@ + s0.take(s0.len() - rev@.len()));
    }
    while rev.len() > 0
        invariant
            rev@.len() <= s0.len(),
            forall|i: int| 0 <= i < rev@.len() ==> #[trigger] rev@[i] == s0[s0.len() - 1 - i],
            dst@ == old(dst)@ + s0.take(s0.len() - rev@.len()),
        decreases rev@.len(),
    {
        match rev.pop() {
            Some(p) => {
                proof {
                    assert(p == s0[s0.len() - 1 - rev@.len()]);
                }
                let ghost d0 = dst@;
                dst.push(p);
                proof {
                    assert(s0.take(s0.len() - rev@.len()) =~= s0.take(
                        s0.len() - rev@.len() - 1,
                    ).push(s0[s0.len() - 1 - rev@.len()]));
                    assert(dst@ =~= old(dst)@ + s0.take(s0.len() - rev@.len()));
                }
            },
            None => {
            },
        }
    }
    proof {
        assert(s0.take(s0.len() as int) =~= s0);
    }
}

/// A position that ends the leading at-most-`key` run is the run's
/// length.
proof fn lemma_peer_run_char(s: Seq<Peer>, key: u32, target: u32, k: int)
    requires
        0 <= k <= s.len(),
        forall|i: int| 0 <= i < k ==> ((#[trigger] s[i]).id ^ target) <= key,
        k < s.len() ==> (s[k].id ^ target) > key,
    ensures
        peer_run(s, key, target) == k,
    decreases s.len(),
{
    if s.len() == 0 {
    } else if (s[0].id ^ target) <= key {
        assert(k >= 1);
        let rest = s.drop_first();
        assert forall|i: int| 0 <= i < k - 1 implies ((#[trigger] rest[i]).id ^ target)
            <= key by {
            assert(rest[i] == s[i + 1]);
        }
        assert(k - 1 < rest.len() ==> (rest[k - 1].id ^ target) > key);
        lemma_peer_run_char(rest, key, target, k - 1);
    } else {
        assert(k == 0);
    }
}

/// Sort peers by distance to the target, stably, closest first. Every
/// peer of the result is one of the input's.
fn sort_contacts(v: Vec<Peer>, target: u32) -> (r: Vec<Peer>)
    ensures
        r@ == spec_sort_contacts(v@, target),
        r@.len() == v@.len(),
        forall|i: int|
            0 <= i < r@.len() ==> peer_models(v@).contains((#[trigger] r@[i])@),
{
    let mut out: Vec<Peer> = Vec::new();
    let mut i: usize = 0;
    proof {
        assert(out@ =~= spec_sort_contacts(v@.take(0), target));
    }
    while i < v.len()
        invariant
            i <= v@.len(),
            out@.len() == i,
            out@ == spec_sort_contacts(v@.take(i as int), target),
            forall|t: int|
                0 <= t < out@.len() ==> peer_models(v@).contains((#[trigger] out@[t])@),
        decreases v@.len() - i,
    {
        let p = v[i].clone();
        proof {
            assert(peer_models(v@)[i as int] == v@[i as int]@);
        }
        let key = crate::math::distance(p.id, target);
        let mut pos: usize = 0;
        while pos < out.len() && crate::math::distance(out[pos].id, target) <= key
            invariant
                pos <= out@.len(),
                forall|t: int| 0 <= t < pos ==> ((#[trigger] out@[t]).id ^ target) <= key,
            decreases out@.len() - pos,
        {
            pos = pos + 1;
        }
        proof {
            lemma_peer_run_char(out@, key, target, pos as int);
        }
        let ghost pre = out@;
        out.insert(pos, p);
        proof {
            assert(v@.take(i + 1).drop_last() =~= v@.take(i as int));
            assert(v@.take(i + 1).last() == v@[i as int]);
            assert(out@ == spec_sort_contacts(v@.take(i + 1), target));
            assert forall|t: int|
                0 <= t < out@.len() implies peer_models(v@).contains((#[trigger] out@[t])@) by {
                if t < pos {
                    assert(out@[t] == pre[t]);
                } else if t > pos {
                    assert(out@[t] == pre[t - 1]);
                } else {
                    assert(out@[t]@ == v@[i as int]@);
                }
            }
        }
        i = i + 1;
    }
    proof {
        assert(v@.take(v@.len() as int) =~= v@);
    }
    out
}

/// Drop every peer whose id equals its kept predecessor's.
fn dedup_by_id(v: Vec<Peer>) -> (r: Vec<Peer>)
    ensures
        r@ == spec_dedup(v@),
        forall|i: int|
            0 <= i < r@.len() ==> peer_models(v@).contains((#[trigger] r@[i])@),
        v@.len() > 0 ==> r@.len() > 0,
        v@.len() == 0 ==> r@.len() == 0,
{
    let mut out: Vec<Peer> = Vec::new();
    let mut i: usize = 0;
    while i < v.len()
        invariant
            i <= v@.len(),
            forall|t: int|
                0 <= t < out@.len() ==> peer_models(v@).contains((#[trigger] out@[t])@),
            i > 0 ==> out@.len() > 0,
            out@.len() <= i,
            i == 0 ==> out@.len() == 0,
            i > 0 ==> spec_dedup(v@) == out@ + spec_dedup_rest(
                v@.skip(i as int),
                out@.last().id,
            ),
        decreases v@.len() - i,
    {
        let keep = if out.len() == 0 {
            true
        } else {
            out[out.len() - 1].id != v[i].id
        };
        let ghost pre = out@;
        if keep {
            let p = v[i].clone();
            proof {
                assert(peer_models(v@)[i as int] == v@[i as int]@);
            }
            out.push(p);
        }
        proof {
            if i == 0 {
                assert(out@ =~= seq![v@[0]]);
                assert(v@.skip(1) =~= v@.drop_first());
                assert(spec_dedup(v@) == seq![v@[0]] + spec_dedup_rest(
                    v@.drop_first(),
                    v@[0].id,
                ));
                assert(spec_dedup(v@) == out@ + spec_dedup_rest(v@.skip(1), out@.last().id));
            } else {
                assert(v@.skip(i as int)[0] == v@[i as int]);
                assert(v@.skip(i as int).drop_first() =~= v@.skip(i + 1));
                if keep {
                    assert(spec_dedup_rest(v@.skip(i as int), pre.last().id) == seq![
                        v@[i as int]
                    ] + spec_dedup_rest(v@.skip(i + 1), v@[i as int].id));
                    assert(pre + (seq![v@[i as int]] + spec_dedup_rest(
                        v@.skip(i + 1),
                        v@[i as int].id,
                    )) =~= out@ + spec_dedup_rest(v@.skip(i + 1), v@[i as int].id));
                    assert(out@.last() == v@[i as int]);
                } else {
                    assert(spec_dedup_rest(v@.skip(i as int), pre.last().id)
                        == spec_dedup_rest(v@.skip(i + 1), pre.last().id));
                }
            }
        }
        i = i + 1;
    }
    proof {
        if i > 0 {
            assert(v@.skip(v@.len() as int) =~= Seq::<Peer>::empty());
            assert(spec_dedup_rest(Seq::<Peer>::empty(), out@.last().id)
                =~= Seq::<Peer>::empty());
            assert(out@ + Seq::<Peer>::empty() =~= out@);
        }
    }
    out
}

/// The peers in reverse order.
fn reverse_peers(v: Vec<Peer>) -> (r: Vec<Peer>)
    ensures
        r@ == spec_reverse(v@),
        r@.len() == v@.len(),
        forall|i: int|
            0 <= i < r@.len() ==> peer_models(v@).contains((#[trigger] r@[i])@),
{
    let mut src = v;
    let mut out: Vec<Peer> = Vec::new();
    let ghost s0 = src@;
    while src.len() > 0
        invariant
            out@.len() + src@.len() == s0.len(),
            forall|i: int| 0 <= i < src@.len() ==> #[trigger] src@[i] == s0[i],
            forall|i: int| 0 <= i < out@.len() ==> #[trigger] out@[i] == s0[s0.len() - 1 - i],
            forall|i: int|
                0 <= i < out@.len() ==> peer_models(s0).contains((#[trigger] out@[i])@),
        decreases src@.len(),
    {
        let p = src.pop();
        match p {
            Some(p) => {
                proof {
                    assert(p == s0[src@.len() as int]);
                    assert(peer_models(s0)[src@.len() as int] == p@);
                }
                out.push(p);
            },
            None => {
            },
        }
    }
    proof {
        assert(out@ =~= spec_reverse(s0));
    }
    out
}

} // verus!
