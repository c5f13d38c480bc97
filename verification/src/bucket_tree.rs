//! The bucket tree of the routing table.
//!
//! The tree is unbalanced on purpose: every internal node owns a left
//! subtree for the lower half of its range and keeps a plain bucket for the
//! upper half. Only the leftmost leaf can split further, so the whole tree
//! is exactly a partition of `[0, u32::MAX)` into consecutive ranges, held
//! here as a vector of buckets in ascending range order; bucket `0` is the
//! splittable leaf and every later bucket is a kept upper half.
//!
//! The verified invariant: the ranges partition the identifier space, every
//! peer sits in the bucket whose range holds its id, peers are strictly
//! sorted by id, and no bucket ever holds more than `BUCKET_SIZE` peers.
//!
//! The covered space is `[0, u32::MAX)`: the one identifier at the very
//! top — a peer at the maximum XOR distance from the owner — is refused
//! outright and lives only in the routing table's recency cache. The split
//! boundaries, and with them which peers the tree can hold, all follow
//! from that top bound.

use vstd::prelude::*;

use crate::peer_node::{spec_status, PeerNode, PeerStatus};

verus! {

/// Maximum peers per bucket.
pub const BUCKET_SIZE: usize = 4;

/// What an insertion attempt did.
#[derive(Debug, Clone, Copy, PartialEq, Eq, Structural)]
pub enum InsertResult {
    /// The peer is now in the tree.
    Added,
    /// A peer with the same id is already there; nothing changed.
    AlreadyPresent,
    /// The bucket for this id is full, cannot split, and holds no stale
    /// peer to evict; the contents are unchanged.
    NoRoom,
}

/// Mathematical image of one peer.
pub ghost struct PeerModel {
    pub id: u32,
    pub addr: Seq<char>,
    pub last_request: Option<u64>,
    pub last_response: Option<u64>,
    pub nb_successive_try: u64,
}

impl View for PeerNode {
    type V = PeerModel;

    open spec fn view(&self) -> PeerModel {
        PeerModel {
            id: self.id,
            addr: self.addr@,
            last_request: self.last_request,
            last_response: self.last_response,
            nb_successive_try: self.nb_successive_try,
        }
    }
}

/// The status of a peer model at time `now_ms`; same rule as
/// [`spec_status`] on the concrete peer.
pub open spec fn model_status(p: PeerModel, now_ms: u64) -> PeerStatus {
    match p.last_request {
        None => PeerStatus::Unknown,
        Some(last_req) => {
            if p.nb_successive_try > 0 && last_req + crate::peer_node::BAD_PEER_TIMEOUT_MS
                < now_ms {
                PeerStatus::Bad
            } else if p.last_response is Some {
                PeerStatus::Good
            } else {
                PeerStatus::Questionable
            }
        },
    }
}

/// Mathematical image of one bucket: a range and its peers.
pub ghost struct BucketModel {
    pub start: u32,
    pub end: u32,
    pub peers: Seq<PeerModel>,
}

/// One bucket: the peers whose ids fall in `[start, end)`.
pub struct Bucket {
    pub start: u32,
    pub end: u32,
    pub peers: Vec<PeerNode>,
}

/// The peer models of a vector of peers, in order.
pub open spec fn models(s: Seq<PeerNode>) -> Seq<PeerModel> {
    Seq::new(s.len(), |i: int| s[i]@)
}

impl View for Bucket {
    type V = BucketModel;

    open spec fn view(&self) -> BucketModel {
        BucketModel { start: self.start, end: self.end, peers: models(self.peers@) }
    }
}

/// The whole tree, as the ascending sequence of its bucket ranges.
pub struct BucketTree {
    pub buckets: Vec<Bucket>,
}

impl View for BucketTree {
    type V = Seq<BucketModel>;

    open spec fn view(&self) -> Seq<BucketModel> {
        Seq::new(self.buckets@.len(), |i: int| self.buckets@[i]@)
    }
}

// Well-formedness ---------------------------------------------------------

/// Strictly ascending ids.
pub open spec fn sorted_by_id(s: Seq<PeerModel>) -> bool {
    forall|a: int, b: int| 0 <= a < b < s.len() ==> s[a].id < s[b].id
}

/// A sound bucket: a non-empty range, at most `BUCKET_SIZE` peers, peers
/// strictly sorted by id, every id inside the range.
pub open spec fn bucket_wf(b: BucketModel) -> bool {
    &&& b.start < b.end
    &&& b.peers.len() <= BUCKET_SIZE
    &&& sorted_by_id(b.peers)
    &&& forall|t: int| 0 <= t < b.peers.len() ==> b.start <= #[trigger] b.peers[t].id < b.end
}

/// A sound tree: consecutive sound buckets partitioning `[0, u32::MAX)`.
pub open spec fn wf_buckets(bs: Seq<BucketModel>) -> bool {
    &&& bs.len() >= 1
    &&& bs[0].start == 0
    &&& bs[bs.len() - 1].end == u32::MAX
    &&& forall|i: int| 0 <= i < bs.len() - 1 ==> #[trigger] bs[i].end == bs[i + 1].start
    &&& forall|i: int| 0 <= i < bs.len() ==> bucket_wf(#[trigger] bs[i])
}

/// Does this run of peers hold one with this id?
pub open spec fn run_contains(s: Seq<PeerModel>, id: u32) -> bool {
    exists|t: int| 0 <= t < s.len() && s[t].id == id
}

/// Does this run hold exactly this peer, fields and all?
pub open spec fn run_has_peer(s: Seq<PeerModel>, p: PeerModel) -> bool {
    exists|t: int| 0 <= t < s.len() && s[t] == p
}

/// Does the tree hold exactly this peer, fields and all?
pub open spec fn tree_has_peer(bs: Seq<BucketModel>, p: PeerModel) -> bool {
    exists|i: int| 0 <= i < bs.len() && run_has_peer(#[trigger] bs[i].peers, p)
}

/// Does this bucket hold a peer with this id?
pub open spec fn bucket_contains(b: BucketModel, id: u32) -> bool {
    run_contains(b.peers, id)
}

/// Does the tree hold a peer with this id?
pub open spec fn tree_contains(bs: Seq<BucketModel>, id: u32) -> bool {
    exists|i: int| 0 <= i < bs.len() && bucket_contains(#[trigger] bs[i], id)
}

/// Index of the bucket whose range holds `id`: the first bucket whose end
/// lies beyond it.
pub open spec fn spec_find_bucket(bs: Seq<BucketModel>, id: u32) -> int
    decreases bs.len(),
{
    if bs.len() <= 1 {
        0
    } else if id < bs[0].end {
        0
    } else {
        1 + spec_find_bucket(bs.drop_first(), id)
    }
}

/// Ranges are ascending: the end of an earlier bucket never exceeds the
/// start of a later one.
pub proof fn lemma_ranges_ascending(bs: Seq<BucketModel>, i: int, j: int)
    requires
        wf_buckets(bs),
        0 <= i < j < bs.len(),
    ensures
        bs[i].end <= bs[j].start,
    decreases j - i,
{
    if j == i + 1 {
    } else {
        lemma_ranges_ascending(bs, i, j - 1);
        assert(bs[j - 1].end == bs[j].start);
        assert(bs[j - 1].start < bs[j - 1].end);
    }
}

/// In a sound tree the found bucket really holds the id's range, and it is
/// the only bucket whose range does.
pub proof fn lemma_find_bucket(bs: Seq<BucketModel>, id: u32)
    requires
        wf_buckets(bs),
        id < u32::MAX,
    ensures
        0 <= spec_find_bucket(bs, id) < bs.len(),
        bs[spec_find_bucket(bs, id)].start <= id < bs[spec_find_bucket(bs, id)].end,
        forall|i: int|
            0 <= i < bs.len() && i != spec_find_bucket(bs, id) ==> !(#[trigger] bs[i].start <= id
                < bs[i].end),
{
    lemma_find_bucket_steps(bs, id);
    let j = spec_find_bucket(bs, id);
    assert forall|i: int| 0 <= i < bs.len() && i != j implies !(#[trigger] bs[i].start <= id
        < bs[i].end) by {
        if i < j {
            lemma_ranges_ascending(bs, i, j);
        } else {
            lemma_ranges_ascending(bs, j, i);
        }
    }
}

/// Unfold the search: it stops at the first bucket whose end is beyond the
/// id, and starts are what the ends of the previous buckets dictate.
proof fn lemma_find_bucket_steps(bs: Seq<BucketModel>, id: u32)
    requires
        bs.len() >= 1,
        bs[bs.len() - 1].end == u32::MAX,
        forall|i: int| 0 <= i < bs.len() - 1 ==> #[trigger] bs[i].end == bs[i + 1].start,
        id < u32::MAX,
    ensures
        0 <= spec_find_bucket(bs, id) < bs.len(),
        id < bs[spec_find_bucket(bs, id)].end,
        spec_find_bucket(bs, id) > 0 ==> bs[spec_find_bucket(bs, id)].start <= id,
        bs[0].start <= id ==> bs[spec_find_bucket(bs, id)].start <= id,
    decreases bs.len(),
{
    if bs.len() <= 1 {
    } else if id < bs[0].end {
    } else {
        let rest = bs.drop_first();
        lemma_find_bucket_steps(rest, id);
        let j = spec_find_bucket(rest, id);
        assert(bs[1 + j] == rest[j]);
        assert(rest[0].start == bs[0].end);
        if j == 0 {
            assert(rest[0].start <= id);
        }
    }
}

// Sorted insertion ---------------------------------------------------------

/// Length of the leading run of peers whose id lies below `m`.
pub open spec fn split_point(s: Seq<PeerModel>, m: u32) -> int
    decreases s.len(),
{
    if s.len() == 0 {
        0
    } else if s[0].id < m {
        1 + split_point(s.drop_first(), m)
    } else {
        0
    }
}

/// The leading run: everything before it is below `m`, and the run stops
/// at the first peer at or above `m`.
pub proof fn lemma_split_point(s: Seq<PeerModel>, m: u32)
    ensures
        0 <= split_point(s, m) <= s.len(),
        forall|i: int| 0 <= i < split_point(s, m) ==> #[trigger] s[i].id < m,
        split_point(s, m) < s.len() ==> s[split_point(s, m)].id >= m,
    decreases s.len(),
{
    if s.len() > 0 && s[0].id < m {
        lemma_split_point(s.drop_first(), m);
        let rest = s.drop_first();
        assert forall|i: int| 0 <= i < split_point(s, m) implies #[trigger] s[i].id < m by {
            if i > 0 {
                assert(s[i] == rest[i - 1]);
            }
        }
    }
}

/// For sorted peers the leading run is the whole lower part: everything
/// from the split point on is at or above `m`.
pub proof fn lemma_split_point_sorted(s: Seq<PeerModel>, m: u32)
    requires
        sorted_by_id(s),
    ensures
        0 <= split_point(s, m) <= s.len(),
        forall|i: int| 0 <= i < split_point(s, m) ==> #[trigger] s[i].id < m,
        forall|i: int| split_point(s, m) <= i < s.len() ==> #[trigger] s[i].id >= m,
{
    lemma_split_point(s, m);
    let k = split_point(s, m);
    assert forall|i: int| k <= i < s.len() implies #[trigger] s[i].id >= m by {
        if i > k {
            assert(s[k].id < s[i].id);
        }
    }
}

/// Insert a peer into a sorted run, before the first peer with a greater
/// id.
pub open spec fn spec_insert_sorted(s: Seq<PeerModel>, p: PeerModel) -> Seq<PeerModel> {
    s.insert(split_point(s, p.id), p)
}

/// Sorted insertion keeps peers sorted, adds exactly the new peer, and
/// keeps every id that was there.
pub proof fn lemma_insert_sorted(s: Seq<PeerModel>, p: PeerModel)
    requires
        sorted_by_id(s),
        !run_contains(s, p.id),
    ensures
        spec_insert_sorted(s, p).len() == s.len() + 1,
        sorted_by_id(spec_insert_sorted(s, p)),
        forall|id: u32| #[trigger]
            run_contains(spec_insert_sorted(s, p), id) <==> (id == p.id || run_contains(s, id)),
        forall|t: int|
            0 <= t < spec_insert_sorted(s, p).len() ==> (#[trigger] spec_insert_sorted(s, p)[t]
                == p || exists|u: int| 0 <= u < s.len() && spec_insert_sorted(s, p)[t] == s[u]),
        run_has_peer(spec_insert_sorted(s, p), p),
{
    lemma_split_point_sorted(s, p.id);
    let k = split_point(s, p.id);
    let r = spec_insert_sorted(s, p);
    assert(r.len() == s.len() + 1);
    assert(r[k] == p);
    assert forall|i: int| 0 <= i < r.len() implies (r[i] == p || exists|u: int|
        0 <= u < s.len() && r[i] == s[u]) by {
        if i < k {
            assert(r[i] == s[i]);
        } else if i > k {
            assert(r[i] == s[i - 1]);
        }
    }
    assert forall|a: int, b: int| 0 <= a < b < r.len() implies r[a].id < r[b].id by {
        if b < k {
        } else if a < k && b == k {
            assert(r[a] == s[a]);
        } else if a < k && b > k {
            assert(r[a] == s[a] && r[b] == s[b - 1]);
            if b - 1 == a {
                assert(s[a].id < p.id && p.id <= s[a].id + 1 ==> s[b - 1].id >= p.id);
                assert(s[b - 1].id >= p.id || s[b - 1].id < p.id);
                assert(s[b - 1].id >= p.id);
            } else {
                assert(s[a].id < s[b - 1].id || a == b - 1);
            }
            assert(s[b - 1].id >= p.id);
            assert(s[b - 1].id != p.id);
            assert(s[a].id < p.id);
            assert(s[a].id < s[b - 1].id || a == b - 1 || s[a].id < s[b - 1].id);
        } else if a == k {
            assert(r[b] == s[b - 1]);
            assert(s[b - 1].id >= p.id && s[b - 1].id != p.id);
        } else {
            assert(r[a] == s[a - 1] && r[b] == s[b - 1]);
        }
    }
    assert forall|id: u32| #[trigger] run_contains(r, id) implies (id == p.id || run_contains(
        s,
        id,
    )) by {
        let t = choose|t: int| 0 <= t < r.len() && r[t].id == id;
        if t < k {
            assert(s[t].id == id);
        } else if t > k {
            assert(s[t - 1].id == id);
        }
    }
    assert forall|id: u32| (id == p.id || run_contains(s, id)) implies #[trigger] run_contains(
        r,
        id,
    ) by {
        if id == p.id {
            assert(r[k].id == id);
        } else {
            let t = choose|t: int| 0 <= t < s.len() && s[t].id == id;
            if t < k {
                assert(r[t].id == id);
            } else {
                assert(r[t + 1].id == id);
            }
        }
    }
}

// The split loop, as a recursive specification ----------------------------

/// Index of the first peer with status `Bad` at time `now_ms`, or the
/// length if none is stale.
pub open spec fn first_bad_index(s: Seq<PeerModel>, now_ms: u64) -> int
    decreases s.len(),
{
    if s.len() == 0 {
        0
    } else if model_status(s[0], now_ms) == PeerStatus::Bad {
        0
    } else {
        1 + first_bad_index(s.drop_first(), now_ms)
    }
}

/// The first stale peer: nothing before it is stale, and it is stale if it
/// exists.
pub proof fn lemma_first_bad_index(s: Seq<PeerModel>, now_ms: u64)
    ensures
        0 <= first_bad_index(s, now_ms) <= s.len(),
        forall|i: int|
            0 <= i < first_bad_index(s, now_ms) ==> model_status(#[trigger] s[i], now_ms)
                != PeerStatus::Bad,
        first_bad_index(s, now_ms) < s.len() ==> model_status(s[first_bad_index(s, now_ms)], now_ms)
            == PeerStatus::Bad,
    decreases s.len(),
{
    if s.len() > 0 && model_status(s[0], now_ms) != PeerStatus::Bad {
        lemma_first_bad_index(s.drop_first(), now_ms);
        let rest = s.drop_first();
        assert forall|i: int| 0 <= i < first_bad_index(s, now_ms) implies model_status(
            #[trigger] s[i],
            now_ms,
        ) != PeerStatus::Bad by {
            if i > 0 {
                assert(s[i] == rest[i - 1]);
            }
        }
    }
}

/// Split the leaf bucket in half until the new peer finds room.
///
/// Each round halves the leaf range at its midpoint, moves the lower
/// peers into a new leaf and keeps the upper peers, then retries the
/// insertion in the half the peer belongs to: a kept upper half that is
/// still full ends the attempt, a full lower half of a range already at
/// bucket size ends it too, and otherwise the splitting goes on.
pub open spec fn spec_split_insert(bs: Seq<BucketModel>, p: PeerModel) -> (InsertResult, Seq<
    BucketModel,
>)
    decreases bs[0].end,
{
    let b0 = bs[0];
    let e = b0.end;
    let m = (e / 2) as u32;
    let k = split_point(b0.peers, m);
    let left = BucketModel { start: 0, end: m, peers: b0.peers.take(k) };
    let right = BucketModel { start: m, end: e, peers: b0.peers.skip(k) };
    let rest = bs.drop_first();
    if p.id < m {
        if left.peers.len() < BUCKET_SIZE {
            (
                InsertResult::Added,
                seq![
                    BucketModel { peers: spec_insert_sorted(left.peers, p), ..left },
                    right,
                ] + rest,
            )
        } else if e <= BUCKET_SIZE {
            (InsertResult::NoRoom, seq![left, right] + rest)
        } else {
            spec_split_insert(seq![left, right] + rest, p)
        }
    } else {
        if right.peers.len() < BUCKET_SIZE {
            (
                InsertResult::Added,
                seq![
                    left,
                    BucketModel { peers: spec_insert_sorted(right.peers, p), ..right },
                ] + rest,
            )
        } else {
            (InsertResult::NoRoom, seq![left, right] + rest)
        }
    }
}

/// Facts about the split loop, by induction on the halving: the result is
/// sound, at least one split happened, the outcome is a plain success or
/// failure, and the ids afterwards are the old ids plus, on success, the
/// new one.
pub proof fn lemma_split_insert(bs: Seq<BucketModel>, p: PeerModel)
    requires
        wf_buckets(bs),
        bs[0].peers.len() == BUCKET_SIZE,
        p.id < bs[0].end,
        !tree_contains(bs, p.id),
    ensures
        wf_buckets(spec_split_insert(bs, p).1),
        spec_split_insert(bs, p).1.len() >= bs.len() + 1,
        spec_split_insert(bs, p).0 == InsertResult::Added || spec_split_insert(bs, p).0
            == InsertResult::NoRoom,
        forall|id: u32|
            tree_contains(#[trigger] spec_split_insert(bs, p).1, id) <==> (tree_contains(bs, id)
                || (spec_split_insert(bs, p).0 == InsertResult::Added && id == p.id)),
        spec_split_insert(bs, p).0 == InsertResult::Added ==> tree_has_peer(
            spec_split_insert(bs, p).1,
            p,
        ),
    decreases bs[0].end,
{
    let b0 = bs[0];
    let e = b0.end;
    let m = (e / 2) as u32;
    let k = split_point(b0.peers, m);
    lemma_split_point_sorted(b0.peers, m);
    let left = BucketModel { start: 0, end: m, peers: b0.peers.take(k) };
    let right = BucketModel { start: m, end: e, peers: b0.peers.skip(k) };
    let rest = bs.drop_first();
    let split = seq![left, right] + rest;

    // The two halves carry the old peers between them.
    assert(b0.start == 0 && e >= 1);
    assert(m < e);
    assert forall|t: int| 0 <= t < left.peers.len() implies (#[trigger] left.peers[t]
        == b0.peers[t] && left.peers[t].id < m) by {}
    assert forall|t: int| 0 <= t < right.peers.len() implies (#[trigger] right.peers[t]
        == b0.peers[k + t] && right.peers[t].id >= m) by {}

    // The split tree is sound and holds exactly the old ids.
    assert(m >= 1) by {
        assert(e >= 2 || b0.peers.len() == 0 || (b0.peers[0].id >= 0 && b0.peers[0].id < e));
        if e < 2 {
            assert(b0.peers.len() == BUCKET_SIZE);
            assert(b0.peers[0].id < e && b0.peers[1].id < e && b0.peers[0].id < b0.peers[1].id);
        }
    }
    assert(wf_buckets(split)) by {
        assert(bucket_wf(left));
        assert(bucket_wf(right));
        assert forall|i: int| 0 <= i < split.len() implies bucket_wf(#[trigger] split[i]) by {
            if i >= 2 {
                assert(split[i] == bs[i - 1]);
            }
        }
        assert forall|i: int| 0 <= i < split.len() - 1 implies #[trigger] split[i].end == split[i
            + 1].start by {
            if i >= 2 {
                assert(split[i] == bs[i - 1] && split[i + 1] == bs[i]);
            }
        }
        assert(split[split.len() - 1].end == bs[bs.len() - 1].end);
    }
    assert forall|id: u32| tree_contains(split, id) <==> tree_contains(bs, id) by {
        lemma_split_preserves_ids(bs, split, k, m);
    }

    assert(!tree_contains(split, p.id));

    if p.id < m {
        if left.peers.len() < BUCKET_SIZE {
            assert(!run_contains(left.peers, p.id)) by {
                if run_contains(left.peers, p.id) {
                    assert(bucket_contains(split[0], p.id));
                }
            }
            lemma_insert_sorted(left.peers, p);
            let left2 = BucketModel { peers: spec_insert_sorted(left.peers, p), ..left };
            assert(bucket_wf(left2)) by {
                assert forall|t: int| 0 <= t < left2.peers.len() implies left2.start
                    <= #[trigger] left2.peers[t].id < left2.end by {
                    assert(left2.peers[t] == p || exists|u: int|
                        0 <= u < left.peers.len() && left2.peers[t] == left.peers[u]);
                }
            }
            lemma_tree_update_bucket(split, 0, left2, p.id);
            lemma_tree_update_has_peer(split, 0, left2, p);
            assert(spec_split_insert(bs, p).1 =~= split.update(0, left2));
        } else if e <= BUCKET_SIZE {
        } else {
            assert(split[0].peers.len() == BUCKET_SIZE);
            lemma_split_insert(split, p);
        }
    } else {
        if right.peers.len() < BUCKET_SIZE {
            assert(!run_contains(right.peers, p.id)) by {
                if run_contains(right.peers, p.id) {
                    assert(bucket_contains(split[1], p.id));
                }
            }
            lemma_insert_sorted(right.peers, p);
            let right2 = BucketModel { peers: spec_insert_sorted(right.peers, p), ..right };
            assert(bucket_wf(right2)) by {
                assert forall|t: int| 0 <= t < right2.peers.len() implies right2.start
                    <= #[trigger] right2.peers[t].id < right2.end by {
                    assert(right2.peers[t] == p || exists|u: int|
                        0 <= u < right.peers.len() && right2.peers[t] == right.peers[u]);
                }
            }
            lemma_tree_update_bucket(split, 1, right2, p.id);
            lemma_tree_update_has_peer(split, 1, right2, p);
            assert(spec_split_insert(bs, p).1 =~= split.update(1, right2));
        } else {
        }
    }
}

/// The two halves of a split hold exactly the ids the old leaf held, and
/// the later buckets are untouched.
proof fn lemma_split_preserves_ids(bs: Seq<BucketModel>, split: Seq<BucketModel>, k: int, m: u32)
    requires
        bs.len() >= 1,
        split.len() == bs.len() + 1,
        0 <= k <= bs[0].peers.len(),
        split[0].peers == bs[0].peers.take(k),
        split[1].peers == bs[0].peers.skip(k),
        forall|i: int| 2 <= i < split.len() ==> #[trigger] split[i] == bs[i - 1],
    ensures
        forall|id: u32| #[trigger] tree_contains(split, id) <==> tree_contains(bs, id),
{
    assert forall|id: u32| #[trigger] tree_contains(split, id) implies tree_contains(bs, id) by {
        let i = choose|i: int| 0 <= i < split.len() && bucket_contains(split[i], id);
        if i == 0 {
            let t = choose|t: int| 0 <= t < split[0].peers.len() && split[0].peers[t].id == id;
            assert(bs[0].peers[t].id == id);
            assert(bucket_contains(bs[0], id));
        } else if i == 1 {
            let t = choose|t: int| 0 <= t < split[1].peers.len() && split[1].peers[t].id == id;
            assert(bs[0].peers[k + t].id == id);
            assert(bucket_contains(bs[0], id));
        } else {
            assert(bucket_contains(bs[i - 1], id));
        }
    }
    assert forall|id: u32| tree_contains(bs, id) implies #[trigger] tree_contains(split, id) by {
        let i = choose|i: int| 0 <= i < bs.len() && bucket_contains(bs[i], id);
        if i == 0 {
            let t = choose|t: int| 0 <= t < bs[0].peers.len() && bs[0].peers[t].id == id;
            if t < k {
                assert(split[0].peers[t].id == id);
                assert(bucket_contains(split[0], id));
            } else {
                assert(split[1].peers[t - k].id == id);
                assert(bucket_contains(split[1], id));
            }
        } else {
            assert(split[i + 1] == bs[i]);
            assert(bucket_contains(split[i + 1], id));
        }
    }
}

/// Replacing one bucket of a sound tree by a sound bucket with the same
/// range and one extra id keeps the tree sound and adds exactly that id.
proof fn lemma_tree_update_bucket(bs: Seq<BucketModel>, j: int, nb: BucketModel, want: u32)
    requires
        wf_buckets(bs),
        0 <= j < bs.len(),
        nb.start == bs[j].start,
        nb.end == bs[j].end,
        bucket_wf(nb),
        forall|id: u32| #[trigger]
            run_contains(nb.peers, id) <==> (run_contains(bs[j].peers, id) || id == want),
    ensures
        wf_buckets(bs.update(j, nb)),
        forall|id: u32| #[trigger]
            tree_contains(bs.update(j, nb), id) <==> (tree_contains(bs, id) || id == want),
{
    let res = bs.update(j, nb);
    assert(wf_buckets(res)) by {
        assert forall|i: int| 0 <= i < res.len() implies bucket_wf(#[trigger] res[i]) by {
            if i != j {
                assert(res[i] == bs[i]);
            }
        }
        assert forall|i: int| 0 <= i < res.len() - 1 implies #[trigger] res[i].end == res[i
            + 1].start by {
            assert(res[i].end == bs[i].end && res[i + 1].start == bs[i + 1].start);
        }
        assert(res[res.len() - 1].end == bs[bs.len() - 1].end);
        assert(res[0].start == bs[0].start);
    }
    assert forall|id: u32| #[trigger]
        tree_contains(res, id) <==> (tree_contains(bs, id) || id == want) by {
        if tree_contains(res, id) {
            let i = choose|i: int| 0 <= i < res.len() && bucket_contains(res[i], id);
            if i == j {
                assert(run_contains(nb.peers, id));
                if id != want {
                    assert(bucket_contains(bs[j], id));
                }
            } else {
                assert(bucket_contains(bs[i], id));
            }
        }
        if tree_contains(bs, id) {
            let i = choose|i: int| 0 <= i < bs.len() && bucket_contains(bs[i], id);
            if i == j {
                assert(run_contains(nb.peers, id));
                assert(bucket_contains(res[j], id));
            } else {
                assert(bucket_contains(res[i], id));
            }
        }
        if id == want {
            assert(run_contains(nb.peers, id));
            assert(bucket_contains(res[j], id));
        }
    }
}

/// Replacing one bucket of a sound tree by a sound bucket with the same
/// range keeps the tree sound; the new bucket's ids are in the tree.
proof fn lemma_tree_update_bucket_weak(bs: Seq<BucketModel>, j: int, nb: BucketModel, want: u32)
    requires
        wf_buckets(bs),
        0 <= j < bs.len(),
        nb.start == bs[j].start,
        nb.end == bs[j].end,
        bucket_wf(nb),
        run_contains(nb.peers, want),
    ensures
        wf_buckets(bs.update(j, nb)),
        tree_contains(bs.update(j, nb), want),
{
    let res = bs.update(j, nb);
    assert forall|i: int| 0 <= i < res.len() implies bucket_wf(#[trigger] res[i]) by {
        if i != j {
            assert(res[i] == bs[i]);
        }
    }
    assert forall|i: int| 0 <= i < res.len() - 1 implies #[trigger] res[i].end == res[i
        + 1].start by {
        assert(res[i].end == bs[i].end && res[i + 1].start == bs[i + 1].start);
    }
    assert(res[res.len() - 1].end == bs[bs.len() - 1].end);
    assert(res[0].start == bs[0].start);
    assert(bucket_contains(res[j], want));
}

/// A bucket that holds the peer puts it in the tree the bucket lands in.
proof fn lemma_tree_update_has_peer(bs: Seq<BucketModel>, j: int, nb: BucketModel, p: PeerModel)
    requires
        0 <= j < bs.len(),
        run_has_peer(nb.peers, p),
    ensures
        tree_has_peer(bs.update(j, nb), p),
{
    assert(bs.update(j, nb)[j] == nb);
}

// Characterizations of the scanning positions ------------------------------

/// A position that ends the leading below-`m` run is the split point.
proof fn lemma_split_point_char(s: Seq<PeerModel>, m: u32, k: int)
    requires
        0 <= k <= s.len(),
        forall|i: int| 0 <= i < k ==> #[trigger] s[i].id < m,
        k < s.len() ==> s[k].id >= m,
    ensures
        split_point(s, m) == k,
    decreases s.len(),
{
    if s.len() == 0 {
    } else if s[0].id < m {
        assert(k >= 1);
        let rest = s.drop_first();
        assert forall|i: int| 0 <= i < k - 1 implies #[trigger] rest[i].id < m by {
            assert(rest[i] == s[i + 1]);
        }
        assert(k - 1 < rest.len() ==> rest[k - 1].id >= m);
        lemma_split_point_char(rest, m, k - 1);
    } else {
        assert(k == 0);
    }
}

/// A position that ends the leading not-stale run is the first stale
/// index.
proof fn lemma_first_bad_char(s: Seq<PeerModel>, now_ms: u64, k: int)
    requires
        0 <= k <= s.len(),
        forall|i: int|
            0 <= i < k ==> model_status(#[trigger] s[i], now_ms) != PeerStatus::Bad,
        k < s.len() ==> model_status(s[k], now_ms) == PeerStatus::Bad,
    ensures
        first_bad_index(s, now_ms) == k,
    decreases s.len(),
{
    if s.len() == 0 {
    } else if model_status(s[0], now_ms) == PeerStatus::Bad {
        assert(k == 0);
    } else {
        assert(k >= 1);
        let rest = s.drop_first();
        assert forall|i: int| 0 <= i < k - 1 implies model_status(
            #[trigger] rest[i],
            now_ms,
        ) != PeerStatus::Bad by {
            assert(rest[i] == s[i + 1]);
        }
        assert(k - 1 < rest.len() ==> model_status(rest[k - 1], now_ms) == PeerStatus::Bad);
        lemma_first_bad_char(rest, now_ms, k - 1);
    }
}

/// Index of the first peer with the given id, or the length if absent.
pub open spec fn peer_index(s: Seq<PeerModel>, id: u32) -> int
    decreases s.len(),
{
    if s.len() == 0 {
        0
    } else if s[0].id == id {
        0
    } else {
        1 + peer_index(s.drop_first(), id)
    }
}

/// The first occurrence: nothing before it has the id, it has the id if it
/// is a real index, and there is one exactly when the id is present.
pub proof fn lemma_peer_index(s: Seq<PeerModel>, id: u32)
    ensures
        0 <= peer_index(s, id) <= s.len(),
        forall|i: int| 0 <= i < peer_index(s, id) ==> #[trigger] s[i].id != id,
        peer_index(s, id) < s.len() ==> s[peer_index(s, id)].id == id,
        (peer_index(s, id) < s.len()) <==> run_contains(s, id),
    decreases s.len(),
{
    if s.len() > 0 && s[0].id != id {
        lemma_peer_index(s.drop_first(), id);
        let rest = s.drop_first();
        assert forall|i: int| 0 <= i < peer_index(s, id) implies #[trigger] s[i].id != id by {
            if i > 0 {
                assert(s[i] == rest[i - 1]);
            }
        }
        if run_contains(s, id) {
            let t = choose|t: int| 0 <= t < s.len() && s[t].id == id;
            assert(rest[t - 1].id == id);
            assert(run_contains(rest, id));
        }
        if run_contains(rest, id) {
            let t = choose|t: int| 0 <= t < rest.len() && rest[t].id == id;
            assert(s[t + 1].id == id);
            assert(run_contains(s, id));
        }
    } else if s.len() > 0 {
        assert(run_contains(s, id));
    } else {
        if run_contains(s, id) {
            let t = choose|t: int| 0 <= t < s.len() && s[t].id == id;
            assert(false);
        }
    }
}

// From peer vectors to peer models -----------------------------------------

/// Inserting into the vector inserts the model.
pub(crate) proof fn lemma_models_insert(v: Seq<PeerNode>, k: int, p: PeerNode)
    requires
        0 <= k <= v.len(),
    ensures
        models(v.insert(k, p)) =~= models(v).insert(k, p@),
{
    let a = models(v.insert(k, p));
    let b = models(v).insert(k, p@);
    assert forall|i: int| 0 <= i < a.len() implies a[i] == b[i] by {
        if i < k {
            assert(v.insert(k, p)[i] == v[i]);
            assert(b[i] == models(v)[i]);
        } else if i == k {
            assert(v.insert(k, p)[i] == p);
        } else {
            assert(v.insert(k, p)[i] == v[i - 1]);
            assert(b[i] == models(v)[i - 1]);
        }
    }
}

/// Removing from the vector removes the model.
pub(crate) proof fn lemma_models_remove(v: Seq<PeerNode>, k: int)
    requires
        0 <= k < v.len(),
    ensures
        models(v.remove(k)) =~= models(v).remove(k),
{
    let a = models(v.remove(k));
    let b = models(v).remove(k);
    assert forall|i: int| 0 <= i < a.len() implies a[i] == b[i] by {
        if i < k {
            assert(v.remove(k)[i] == v[i]);
            assert(b[i] == models(v)[i]);
        } else {
            assert(v.remove(k)[i] == v[i + 1]);
            assert(b[i] == models(v)[i + 1]);
        }
    }
}

/// Removing one peer keeps the rest sorted and cannot introduce an id.
proof fn lemma_remove_keeps_order(s: Seq<PeerModel>, k: int, id: u32)
    requires
        sorted_by_id(s),
        0 <= k < s.len(),
    ensures
        sorted_by_id(s.remove(k)),
        !run_contains(s, id) ==> !run_contains(s.remove(k), id),
{
    let s2 = s.remove(k);
    assert forall|a: int, c: int| 0 <= a < c < s2.len() implies s2[a].id < s2[c].id by {
        if c < k {
        } else if a < k {
            assert(s2[a] == s[a] && s2[c] == s[c + 1]);
        } else {
            assert(s2[a] == s[a + 1] && s2[c] == s[c + 1]);
        }
    }
    if !run_contains(s, id) && run_contains(s2, id) {
        let t = choose|t: int| 0 <= t < s2.len() && s2[t].id == id;
        if t < k {
            assert(s[t].id == id);
        } else {
            assert(s[t + 1].id == id);
        }
        assert(run_contains(s, id));
    }
}

// The whole insertion, as one specification --------------------------------

/// Evict the first stale peer and put the newcomer in its sorted place.
pub open spec fn spec_replace_bad(s: Seq<PeerModel>, p: PeerModel, now_ms: u64) -> Seq<
    PeerModel,
> {
    spec_insert_sorted(s.remove(first_bad_index(s, now_ms)), p)
}

/// What one insertion attempt does to the tree: refuse the top identifier
/// outright; report a duplicate; push into a bucket with room; evict a
/// stale peer from a full bucket; refuse a full kept bucket; otherwise
/// split the leaf until the newcomer fits or no room is left.
pub open spec fn spec_add(bs: Seq<BucketModel>, p: PeerModel, now_ms: u64) -> (InsertResult, Seq<
    BucketModel,
>) {
    if p.id >= u32::MAX {
        (InsertResult::NoRoom, bs)
    } else {
        let j = spec_find_bucket(bs, p.id);
        let b = bs[j];
        if bucket_contains(b, p.id) {
            (InsertResult::AlreadyPresent, bs)
        } else if b.peers.len() < BUCKET_SIZE {
            (
                InsertResult::Added,
                bs.update(j, BucketModel { peers: spec_insert_sorted(b.peers, p), ..b }),
            )
        } else if first_bad_index(b.peers, now_ms) < b.peers.len() {
            (
                InsertResult::Added,
                bs.update(j, BucketModel { peers: spec_replace_bad(b.peers, p, now_ms), ..b }),
            )
        } else if j > 0 {
            (InsertResult::NoRoom, bs)
        } else {
            spec_split_insert(bs, p)
        }
    }
}

// Reading the tree ---------------------------------------------------------

/// All peers, kept upper halves first: the order of a walk from the root.
pub open spec fn spec_all_peers(bs: Seq<BucketModel>) -> Seq<PeerModel>
    decreases bs.len(),
{
    if bs.len() == 0 {
        Seq::empty()
    } else {
        bs.last().peers + spec_all_peers(bs.drop_last())
    }
}

/// The walk, stopped at the first bucket that brings the count to `nb`.
pub open spec fn spec_collect(bs: Seq<BucketModel>, nb: int) -> Seq<PeerModel>
    decreases bs.len(),
{
    if bs.len() == 0 {
        Seq::empty()
    } else if bs.last().peers.len() >= nb {
        bs.last().peers
    } else {
        bs.last().peers + spec_collect(bs.drop_last(), nb - bs.last().peers.len())
    }
}

// Freshness updates --------------------------------------------------------

/// The peer after a request was sent to it at `now_ms`.
pub open spec fn spec_requested_peer(p: PeerModel, now_ms: u64) -> PeerModel {
    PeerModel {
        last_request: Some(now_ms),
        nb_successive_try: if p.nb_successive_try == u64::MAX {
            u64::MAX
        } else {
            (p.nb_successive_try + 1) as u64
        },
        ..p
    }
}

/// The peer after a response from it arrived at `now_ms`.
pub open spec fn spec_responded_peer(p: PeerModel, now_ms: u64) -> PeerModel {
    PeerModel {
        last_response: Some(now_ms),
        last_request: if p.last_request is None {
            Some(now_ms)
        } else {
            p.last_request
        },
        nb_successive_try: 0,
        ..p
    }
}

/// The tree after a request to the peer with this id was recorded: its
/// entry is rewritten, everything else stays; an absent id changes
/// nothing.
pub open spec fn spec_mark_requested(bs: Seq<BucketModel>, id: u32, now_ms: u64) -> Seq<
    BucketModel,
> {
    if id >= u32::MAX {
        bs
    } else {
        let j = spec_find_bucket(bs, id);
        let b = bs[j];
        let t = peer_index(b.peers, id);
        if t < b.peers.len() {
            bs.update(
                j,
                BucketModel { peers: b.peers.update(t, spec_requested_peer(b.peers[t], now_ms)), ..b },
            )
        } else {
            bs
        }
    }
}

/// The tree after a response from the peer with this id was recorded.
pub open spec fn spec_mark_responded(bs: Seq<BucketModel>, id: u32, now_ms: u64) -> Seq<
    BucketModel,
> {
    if id >= u32::MAX {
        bs
    } else {
        let j = spec_find_bucket(bs, id);
        let b = bs[j];
        let t = peer_index(b.peers, id);
        if t < b.peers.len() {
            bs.update(
                j,
                BucketModel { peers: b.peers.update(t, spec_responded_peer(b.peers[t], now_ms)), ..b },
            )
        } else {
            bs
        }
    }
}

/// Rewriting one peer's freshness never changes which ids the tree
/// holds: the marked trees hold exactly the old ids.
pub proof fn lemma_mark_preserves_contains(bs: Seq<BucketModel>, id: u32, now_ms: u64, x: u32)
    requires
        wf_buckets(bs),
    ensures
        tree_contains(spec_mark_requested(bs, id, now_ms), x) == tree_contains(bs, x),
        tree_contains(spec_mark_responded(bs, id, now_ms), x) == tree_contains(bs, x),
{
    if id < u32::MAX {
        lemma_find_bucket(bs, id);
        let j = spec_find_bucket(bs, id);
        let b = bs[j];
        lemma_peer_index(b.peers, id);
        let t = peer_index(b.peers, id);
        if t < b.peers.len() {
            lemma_update_same_id_contains(
                bs,
                j,
                t,
                spec_requested_peer(b.peers[t], now_ms),
                x,
            );
            lemma_update_same_id_contains(
                bs,
                j,
                t,
                spec_responded_peer(b.peers[t], now_ms),
                x,
            );
        }
    }
}

/// Replacing one peer by another with the same id keeps the same ids in
/// the tree.
proof fn lemma_update_same_id_contains(
    bs: Seq<BucketModel>,
    j: int,
    t: int,
    nq: PeerModel,
    x: u32,
)
    requires
        0 <= j < bs.len(),
        0 <= t < bs[j].peers.len(),
        nq.id == bs[j].peers[t].id,
    ensures
        tree_contains(
            bs.update(j, (BucketModel { peers: bs[j].peers.update(t, nq), ..bs[j] })),
            x,
        ) == tree_contains(bs, x),
{
    let res = bs.update(j, (BucketModel { peers: bs[j].peers.update(t, nq), ..bs[j] }));
    if tree_contains(res, x) {
        let i = choose|i: int| 0 <= i < res.len() && bucket_contains(res[i], x);
        if i == j {
            let u = choose|u: int| 0 <= u < res[j].peers.len() && res[j].peers[u].id == x;
            assert(bs[j].peers[u].id == x);
            assert(bucket_contains(bs[j], x));
        } else {
            assert(res[i] == bs[i]);
        }
        assert(tree_contains(bs, x));
    }
    if tree_contains(bs, x) {
        let i = choose|i: int| 0 <= i < bs.len() && bucket_contains(bs[i], x);
        if i == j {
            let u = choose|u: int| 0 <= u < bs[j].peers.len() && bs[j].peers[u].id == x;
            assert(res[j].peers[u].id == x);
            assert(bucket_contains(res[j], x));
        } else {
            assert(res[i] == bs[i]);
            assert(bucket_contains(res[i], x));
        }
        assert(tree_contains(res, x));
    }
}

// Executable helpers -------------------------------------------------------

/// Length of the leading run of peers with ids below `m`.
fn find_run_end(peers: &Vec<PeerNode>, m: u32) -> (k: usize)
    ensures
        k == split_point(models(peers@), m),
        k <= peers@.len(),
{
    let mut k: usize = 0;
    while k < peers.len() && peers[k].id < m
        invariant
            k <= peers@.len(),
            forall|i: int| 0 <= i < k ==> #[trigger] peers@[i].id < m,
        decreases peers@.len() - k,
    {
        k = k + 1;
    }
    proof {
        assert forall|i: int| 0 <= i < k implies #[trigger] models(peers@)[i].id < m by {
            assert(peers@[i].id < m);
        }
        lemma_split_point_char(models(peers@), m, k as int);
    }
    k
}

/// Whether some peer in the vector has this id.
fn has_id(peers: &Vec<PeerNode>, id: u32) -> (b: bool)
    ensures
        b == run_contains(models(peers@), id),
{
    let mut i: usize = 0;
    while i < peers.len()
        invariant
            i <= peers@.len(),
            forall|t: int| 0 <= t < i ==> #[trigger] peers@[t].id != id,
        decreases peers@.len() - i,
    {
        if peers[i].id == id {
            proof {
                assert(models(peers@)[i as int].id == id);
            }
            return true;
        }
        i = i + 1;
    }
    proof {
        if run_contains(models(peers@), id) {
            let t = choose|t: int|
                0 <= t < models(peers@).len() && models(peers@)[t].id == id;
            assert(peers@[t].id != id);
        }
    }
    false
}

/// Index of the first stale peer at `now_ms`, or the length if none.
fn find_first_bad(peers: &Vec<PeerNode>, now_ms: u64) -> (k: usize)
    ensures
        k == first_bad_index(models(peers@), now_ms),
        k <= peers@.len(),
{
    let mut i: usize = 0;
    while i < peers.len()
        invariant
            i <= peers@.len(),
            forall|t: int|
                0 <= t < i ==> model_status(#[trigger] models(peers@)[t], now_ms)
                    != PeerStatus::Bad,
        decreases peers@.len() - i,
    {
        let st = peers[i].status(now_ms);
        proof {
            assert(model_status(models(peers@)[i as int], now_ms) == spec_status(
                peers@[i as int],
                now_ms,
            ));
        }
        if st == PeerStatus::Bad {
            proof {
                lemma_first_bad_char(models(peers@), now_ms, i as int);
            }
            return i;
        }
        i = i + 1;
    }
    proof {
        lemma_first_bad_char(models(peers@), now_ms, i as int);
    }
    i
}

/// Put the peer into its sorted place in the vector.
fn insert_peer_sorted(peers: &mut Vec<PeerNode>, peer: PeerNode)
    ensures
        models(final(peers)@) == spec_insert_sorted(models(old(peers)@), peer@),
        final(peers)@.len() == old(peers)@.len() + 1,
{
    let pos = find_run_end(peers, peer.id);
    proof {
        lemma_split_point(models(peers@), peer.id);
    }
    peers.insert(pos, peer);
    proof {
        lemma_models_insert(old(peers)@, pos as int, peer);
        assert(models(peers@) =~= models(old(peers)@).insert(pos as int, peer@));
    }
}

// The tree itself ----------------------------------------------------------

impl BucketTree {
    /// The tree invariant: see [`wf_buckets`].
    pub open spec fn wf(self) -> bool {
        wf_buckets(self@)
    }

    /// A fresh tree: one empty bucket covering the whole identifier space.
    pub fn new() -> (r: Self)
        ensures
            r.wf(),
            r@.len() == 1,
            r@[0].peers.len() == 0,
            forall|id: u32| !tree_contains(r@, id),
    {
        let mut buckets: Vec<Bucket> = Vec::new();
        buckets.push(Bucket { start: 0, end: u32::MAX, peers: Vec::new() });
        let r = BucketTree { buckets };
        proof {
            assert(r@[0].peers.len() == 0);
            assert(r.wf());
            assert forall|id: u32| !tree_contains(r@, id) by {
                if tree_contains(r@, id) {
                    let i = choose|i: int| 0 <= i < r@.len() && bucket_contains(r@[i], id);
                    assert(run_contains(r@[0].peers, id));
                    let t = choose|t: int|
                        0 <= t < r@[0].peers.len() && r@[0].peers[t].id == id;
                }
            }
        }
        r
    }

    /// Index of the bucket whose range holds `id`.
    fn find_bucket_index(&self, id: u32) -> (j: usize)
        requires
            self.wf(),
            id < u32::MAX,
        ensures
            j == spec_find_bucket(self@, id),
            j < self@.len(),
            self@[j as int].start <= id < self@[j as int].end,
    {
        let n = self.buckets.len();
        let mut j: usize = 0;
        while id >= self.buckets[j].end
            invariant
                self.wf(),
                id < u32::MAX,
                n == self@.len(),
                j < n,
                forall|i: int| 0 <= i < j ==> #[trigger] self@[i].end <= id,
            decreases self@.len() - j,
        {
            proof {
                if j + 1 == self@.len() {
                    assert(self@[j as int].end == u32::MAX);
                }
            }
            j = j + 1;
        }
        proof {
            lemma_find_bucket(self@, id);
            if j > 0 {
                assert(self@[j - 1].end <= id);
                assert(self@[j as int].start == self@[j - 1].end);
            }
            assert(self@[j as int].start <= id < self@[j as int].end);
        }
        j
    }

    /// Put the peer into bucket `j`, which has room.
    fn insert_at(&mut self, j: usize, peer: PeerNode)
        requires
            j < old(self)@.len(),
        ensures
            final(self)@ == old(self)@.update(
                j as int,
                (BucketModel {
                    peers: spec_insert_sorted(old(self)@[j as int].peers, peer@),
                    ..old(self)@[j as int]
                }),
            ),
    {
        let mut b = self.buckets.remove(j);
        insert_peer_sorted(&mut b.peers, peer);
        self.buckets.insert(j, b);
        proof {
            assert(final(self)@ =~= old(self)@.update(
                j as int,
                (BucketModel {
                    peers: spec_insert_sorted(old(self)@[j as int].peers, peer@),
                    ..old(self)@[j as int]
                }),
            ));
        }
    }

    /// Evict the peer at index `k` of bucket `j` and put the newcomer in.
    fn replace_at(&mut self, j: usize, k: usize, peer: PeerNode)
        requires
            j < old(self)@.len(),
            k < old(self)@[j as int].peers.len(),
        ensures
            final(self)@ == old(self)@.update(
                j as int,
                (BucketModel {
                    peers: spec_insert_sorted(
                        old(self)@[j as int].peers.remove(k as int),
                        peer@,
                    ),
                    ..old(self)@[j as int]
                }),
            ),
    {
        let mut b = self.buckets.remove(j);
        let ghost pv = b.peers@;
        b.peers.remove(k);
        proof {
            lemma_models_remove(pv, k as int);
            assert(models(b.peers@) =~= old(self)@[j as int].peers.remove(k as int));
        }
        insert_peer_sorted(&mut b.peers, peer);
        self.buckets.insert(j, b);
        proof {
            assert(final(self)@ =~= old(self)@.update(
                j as int,
                (BucketModel {
                    peers: spec_insert_sorted(
                        old(self)@[j as int].peers.remove(k as int),
                        peer@,
                    ),
                    ..old(self)@[j as int]
                }),
            ));
        }
    }

    /// The split loop: halve the leaf until the peer fits or no room is
    /// left. Implements [`spec_split_insert`] exactly.
    #[verifier::loop_isolation(false)]
    fn split_insert(&mut self, peer: PeerNode) -> (r: InsertResult)
        requires
            old(self)@.len() >= 1,
            peer.id < old(self)@[0].end,
        ensures
            r == spec_split_insert(old(self)@, peer@).0,
            final(self)@ == spec_split_insert(old(self)@, peer@).1,
    {
        let ghost target = spec_split_insert(old(self)@, peer@);
        loop
            invariant
                self.buckets@.len() >= 1,
                peer.id < self@[0].end,
                spec_split_insert(self@, peer@) == target,
            decreases self@[0].end,
        {
            let ghost pre = self@;
            let e = self.buckets[0].end;
            let m = e / 2;
            let mut b0 = self.buckets.remove(0);
            let k2 = find_run_end(&b0.peers, m);
            let right_peers = b0.peers.split_off(k2);
            let left = Bucket { start: 0, end: m, peers: b0.peers };
            let right = Bucket { start: m, end: e, peers: right_peers };
            let ghost left_m = BucketModel {
                start: 0,
                end: m,
                peers: pre[0].peers.take(k2 as int),
            };
            let ghost right_m = BucketModel {
                start: m,
                end: e,
                peers: pre[0].peers.skip(k2 as int),
            };
            proof {
                assert(models(left.peers@) =~= left_m.peers);
                assert(models(right.peers@) =~= right_m.peers);
                assert(left@ == left_m);
                assert(right@ == right_m);
                assert(k2 as int == split_point(pre[0].peers, m));
            }
            if peer.id < m {
                if left.peers.len() < BUCKET_SIZE {
                    let mut lb = left;
                    insert_peer_sorted(&mut lb.peers, peer);
                    self.buckets.insert(0, right);
                    self.buckets.insert(0, lb);
                    proof {
                        let done = seq![
                            BucketModel { peers: spec_insert_sorted(left_m.peers, peer@), ..left_m },
                            right_m,
                        ] + pre.drop_first();
                        assert(self@ =~= done);
                        assert(spec_split_insert(pre, peer@) == (InsertResult::Added, done));
                    }
                    return InsertResult::Added;
                } else if e <= 4 {
                    self.buckets.insert(0, right);
                    self.buckets.insert(0, left);
                    proof {
                        let done = seq![left_m, right_m] + pre.drop_first();
                        assert(self@ =~= done);
                        assert(spec_split_insert(pre, peer@) == (InsertResult::NoRoom, done));
                    }
                    return InsertResult::NoRoom;
                } else {
                    self.buckets.insert(0, right);
                    self.buckets.insert(0, left);
                    proof {
                        let next = seq![left_m, right_m] + pre.drop_first();
                        assert(self@ =~= next);
                        assert(spec_split_insert(pre, peer@) == spec_split_insert(next, peer@));
                    }
                }
            } else {
                if right.peers.len() < BUCKET_SIZE {
                    let mut rb = right;
                    insert_peer_sorted(&mut rb.peers, peer);
                    self.buckets.insert(0, rb);
                    self.buckets.insert(0, left);
                    proof {
                        let done = seq![
                            left_m,
                            BucketModel { peers: spec_insert_sorted(right_m.peers, peer@), ..right_m },
                        ] + pre.drop_first();
                        assert(self@ =~= done);
                        assert(spec_split_insert(pre, peer@) == (InsertResult::Added, done));
                    }
                    return InsertResult::Added;
                } else {
                    self.buckets.insert(0, right);
                    self.buckets.insert(0, left);
                    proof {
                        let done = seq![left_m, right_m] + pre.drop_first();
                        assert(self@ =~= done);
                        assert(spec_split_insert(pre, peer@) == (InsertResult::NoRoom, done));
                    }
                    return InsertResult::NoRoom;
                }
            }
        }
    }

    /// Try to add a peer, at time `now_ms`.
    ///
    /// A duplicate id is reported and changes nothing. A bucket with room
    /// takes the peer in sorted order. A full bucket first evicts its
    /// first stale peer; a full kept bucket without one refuses; a full
    /// leaf splits until the peer fits or no room is left.
    #[verifier::rlimit(100)]
    pub fn add_peer_node(&mut self, peer: PeerNode, now_ms: u64) -> (r: InsertResult)
        requires
            old(self).wf(),
        ensures
            final(self).wf(),
            r == spec_add(old(self)@, peer@, now_ms).0,
            final(self)@ == spec_add(old(self)@, peer@, now_ms).1,
            ((r == InsertResult::AlreadyPresent) <==> tree_contains(old(self)@, peer.id)),
            r == InsertResult::AlreadyPresent ==> final(self)@ == old(self)@,
            r == InsertResult::Added ==> tree_contains(final(self)@, peer.id),
            r == InsertResult::Added ==> tree_has_peer(final(self)@, peer@),
            r == InsertResult::NoRoom ==> !tree_contains(final(self)@, peer.id),
            (peer.id < u32::MAX && !tree_contains(old(self)@, peer.id) && (exists|t: int|
                0 <= t < old(self)@[spec_find_bucket(old(self)@, peer.id)].peers.len()
                    && model_status(
                    #[trigger] old(self)@[spec_find_bucket(old(self)@, peer.id)].peers[t],
                    now_ms,
                ) == PeerStatus::Bad)) ==> r == InsertResult::Added,
            (old(self)@.len() == 1 && peer.id < u32::MAX && old(self)@[0].peers.len()
                == BUCKET_SIZE && !tree_contains(old(self)@, peer.id) && (forall|t: int|
                0 <= t < old(self)@[0].peers.len() ==> model_status(
                    #[trigger] old(self)@[0].peers[t],
                    now_ms,
                ) != PeerStatus::Bad)) ==> final(self)@.len() >= 2,
    {
        let ghost bs0 = self@;
        if peer.id >= u32::MAX {
            proof {
                if tree_contains(bs0, peer.id) {
                    let i = choose|i: int| 0 <= i < bs0.len() && bucket_contains(bs0[i], peer.id);
                    let t = choose|t: int|
                        0 <= t < bs0[i].peers.len() && bs0[i].peers[t].id == peer.id;
                    assert(bs0[i].peers[t].id < bs0[i].end);
                    if i < bs0.len() - 1 {
                        lemma_ranges_ascending(bs0, i, bs0.len() - 1);
                    }
                }
            }
            return InsertResult::NoRoom;
        }
        let j = self.find_bucket_index(peer.id);
        if has_id(&self.buckets[j].peers, peer.id) {
            return InsertResult::AlreadyPresent;
        }
        proof {
            assert(!tree_contains(bs0, peer.id)) by {
                if tree_contains(bs0, peer.id) {
                    let i = choose|i: int| 0 <= i < bs0.len() && bucket_contains(bs0[i], peer.id);
                    let t = choose|t: int|
                        0 <= t < bs0[i].peers.len() && bs0[i].peers[t].id == peer.id;
                    lemma_find_bucket(bs0, peer.id);
                    assert(bs0[i].start <= peer.id < bs0[i].end);
                    assert(i == j as int);
                }
            }
        }
        let blen = self.buckets[j].peers.len();
        if blen < BUCKET_SIZE {
            self.insert_at(j, peer);
            proof {
                let nb = BucketModel {
                    peers: spec_insert_sorted(bs0[j as int].peers, peer@),
                    ..bs0[j as int]
                };
                lemma_insert_sorted(bs0[j as int].peers, peer@);
                assert(bucket_wf(nb)) by {
                    assert forall|t: int| 0 <= t < nb.peers.len() implies nb.start
                        <= #[trigger] nb.peers[t].id < nb.end by {
                        let old_peers = bs0[j as int].peers;
                        assert(nb.peers[t] == peer@ || exists|u: int|
                            0 <= u < old_peers.len() && nb.peers[t] == old_peers[u]);
                    }
                }
                lemma_tree_update_bucket(bs0, j as int, nb, peer.id);
                lemma_tree_update_has_peer(bs0, j as int, nb, peer@);
            }
            return InsertResult::Added;
        }
        let k = find_first_bad(&self.buckets[j].peers, now_ms);
        if k < self.buckets[j].peers.len() {
            self.replace_at(j, k, peer);
            proof {
                let s = bs0[j as int].peers;
                let s2 = s.remove(k as int);
                lemma_first_bad_index(s, now_ms);
                lemma_remove_keeps_order(s, k as int, peer.id);
                lemma_insert_sorted(s2, peer@);
                let nb = BucketModel { peers: spec_replace_bad(s, peer@, now_ms), ..bs0[j as int] };
                assert(spec_replace_bad(s, peer@, now_ms) == spec_insert_sorted(s2, peer@));
                assert(bucket_wf(nb)) by {
                    assert forall|t: int| 0 <= t < nb.peers.len() implies nb.start
                        <= #[trigger] nb.peers[t].id < nb.end by {
                        assert(nb.peers[t] == peer@ || exists|u: int|
                            0 <= u < s2.len() && nb.peers[t] == s2[u]);
                        if nb.peers[t] != peer@ {
                            let u = choose|u: int| 0 <= u < s2.len() && nb.peers[t] == s2[u];
                            if u < k {
                                assert(s2[u] == s[u]);
                            } else {
                                assert(s2[u] == s[u + 1]);
                            }
                        }
                    }
                }
                lemma_tree_update_bucket_weak(bs0, j as int, nb, peer.id);
                lemma_tree_update_has_peer(bs0, j as int, nb, peer@);
            }
            return InsertResult::Added;
        }
        if j > 0 {
            proof {
                lemma_first_bad_index(bs0[j as int].peers, now_ms);
            }
            return InsertResult::NoRoom;
        }
        proof {
            lemma_first_bad_index(bs0[0].peers, now_ms);
            lemma_split_insert(bs0, peer@);
        }
        let r = self.split_insert(peer);
        proof {
            lemma_first_bad_index(bs0[0].peers, now_ms);
        }
        r
    }

    /// Collect peers walking from the kept upper halves down to the leaf,
    /// whole buckets at a time, stopping once `nb` peers are gathered.
    pub fn search_closest_peers(&self, nb: usize) -> (r: Vec<PeerNode>)
        ensures
            models(r@) == spec_collect(self@, nb as int),
    {
        let mut res: Vec<PeerNode> = Vec::new();
        let mut i = self.buckets.len();
        proof {
            assert(models(res@) =~= Seq::<PeerModel>::empty());
            assert(self@.take(i as int) =~= self@);
        }
        while i > 0
            invariant
                i <= self@.len(),
                spec_collect(self@, nb as int) == models(res@) + spec_collect(
                    self@.take(i as int),
                    nb - models(res@).len(),
                ),
            decreases i,
        {
            i = i - 1;
            let ghost prior = models(res@);
            push_all(&mut res, &self.buckets[i].peers);
            proof {
                assert(models(self.buckets@[i as int].peers@) == self@[i as int].peers);
                assert(models(res@) =~= prior + self@[i as int].peers);
                let sub = self@.take(i + 1);
                assert(sub.last() == self@[i as int]);
                assert(sub.drop_last() =~= self@.take(i as int));
            }
            if res.len() >= nb {
                proof {
                    assert(spec_collect(self@.take(i + 1), nb - prior.len())
                        == self@[i as int].peers);
                }
                return res;
            }
            proof {
                assert(spec_collect(self@.take(i + 1), nb - prior.len()) == self@[
                    i as int
                ].peers + spec_collect(self@.take(i as int), nb - models(res@).len()));
            }
        }
        proof {
            assert(self@.take(0) =~= Seq::<BucketModel>::empty());
        }
        res
    }

    /// All peers in the tree, kept upper halves first.
    pub fn get_all_peers(&self) -> (r: Vec<PeerNode>)
        ensures
            models(r@) == spec_all_peers(self@),
    {
        let mut res: Vec<PeerNode> = Vec::new();
        let mut i = self.buckets.len();
        proof {
            assert(models(res@) =~= Seq::<PeerModel>::empty());
            assert(self@.take(i as int) =~= self@);
        }
        while i > 0
            invariant
                i <= self@.len(),
                spec_all_peers(self@) == models(res@) + spec_all_peers(self@.take(i as int)),
            decreases i,
        {
            i = i - 1;
            let ghost prior = models(res@);
            push_all(&mut res, &self.buckets[i].peers);
            proof {
                assert(models(self.buckets@[i as int].peers@) == self@[i as int].peers);
                assert(models(res@) =~= prior + self@[i as int].peers);
                let sub = self@.take(i + 1);
                assert(sub.last() == self@[i as int]);
                assert(sub.drop_last() =~= self@.take(i as int));
                assert(spec_all_peers(self@.take(i + 1)) == self@[i as int].peers
                    + spec_all_peers(self@.take(i as int)));
            }
        }
        proof {
            assert(self@.take(0) =~= Seq::<BucketModel>::empty());
        }
        res
    }

    /// Record that a request went out to the peer with this (stored) id.
    pub fn peer_was_requested(&mut self, id: u32, now_ms: u64)
        requires
            old(self).wf(),
        ensures
            final(self).wf(),
            final(self)@ == spec_mark_requested(old(self)@, id, now_ms),
    {
        let ghost bs0 = self@;
        if id == u32::MAX {
            return;
        }
        let j = self.find_bucket_index(id);
        let t = find_peer_pos(&self.buckets[j].peers, id);
        if t < self.buckets[j].peers.len() {
            let mut b = self.buckets.remove(j);
            let ghost pv = b.peers@;
            let mut q = b.peers.remove(t);
            q.update_last_request(now_ms);
            b.peers.insert(t, q);
            self.buckets.insert(j, b);
            proof {
                let s = bs0[j as int].peers;
                let nq = spec_requested_peer(s[t as int], now_ms);
                assert(q@ == nq);
                lemma_models_remove(pv, t as int);
                lemma_models_insert(pv.remove(t as int), t as int, q);
                assert(models(b.peers@) =~= s.update(t as int, nq));
                let nb = BucketModel { peers: s.update(t as int, nq), ..bs0[j as int] };
                assert(self@ =~= bs0.update(j as int, nb));
                lemma_update_same_id(bs0, j as int, t as int, nq);
            }
        }
    }

    /// Record that a response arrived from the peer with this (stored) id.
    pub fn peer_has_responded(&mut self, id: u32, now_ms: u64)
        requires
            old(self).wf(),
        ensures
            final(self).wf(),
            final(self)@ == spec_mark_responded(old(self)@, id, now_ms),
    {
        let ghost bs0 = self@;
        if id == u32::MAX {
            return;
        }
        let j = self.find_bucket_index(id);
        let t = find_peer_pos(&self.buckets[j].peers, id);
        if t < self.buckets[j].peers.len() {
            let mut b = self.buckets.remove(j);
            let ghost pv = b.peers@;
            let mut q = b.peers.remove(t);
            q.update_last_response(now_ms);
            b.peers.insert(t, q);
            self.buckets.insert(j, b);
            proof {
                let s = bs0[j as int].peers;
                let nq = spec_responded_peer(s[t as int], now_ms);
                assert(q@ == nq);
                lemma_models_remove(pv, t as int);
                lemma_models_insert(pv.remove(t as int), t as int, q);
                assert(models(b.peers@) =~= s.update(t as int, nq));
                let nb = BucketModel { peers: s.update(t as int, nq), ..bs0[j as int] };
                assert(self@ =~= bs0.update(j as int, nb));
                lemma_update_same_id(bs0, j as int, t as int, nq);
            }
        }
    }
}

/// Pushing onto the vector pushes onto the model.
proof fn lemma_models_push(v: Seq<PeerNode>, p: PeerNode)
    ensures
        models(v.push(p)) =~= models(v).push(p@),
{
    assert forall|i: int| 0 <= i < models(v.push(p)).len() implies models(v.push(p))[i]
        == models(v).push(p@)[i] by {
        if i < v.len() {
            assert(v.push(p)[i] == v[i]);
        } else {
            assert(v.push(p)[i] == p);
        }
    }
}

/// Append clones of all peers of `src` to `res`.
pub(crate) fn push_all(res: &mut Vec<PeerNode>, src: &Vec<PeerNode>)
    ensures
        models(final(res)@) == models(old(res)@) + models(src@),
        final(res)@.len() == old(res)@.len() + src@.len(),
{
    let mut t: usize = 0;
    while t < src.len()
        invariant
            t <= src@.len(),
            models(res@) =~= models(old(res)@) + models(src@).take(t as int),
        decreases src@.len() - t,
    {
        let x = src[t].clone();
        let ghost pre = res@;
        let ghost xm = x@;
        res.push(x);
        proof {
            assert(res@ == pre.push(x));
            assert(xm == models(src@)[t as int]);
            lemma_models_push(pre, x);
            assert(models(res@) == models(pre).push(xm));
            assert(models(src@).take(t + 1) =~= models(src@).take(t as int).push(xm));
            assert((models(old(res)@) + models(src@).take(t as int)).push(xm)
                =~= models(old(res)@) + models(src@).take(t as int).push(xm));
            assert(models(res@) =~= models(old(res)@) + models(src@).take(t + 1));
        }
        t = t + 1;
    }
    proof {
        assert(models(src@).take(src@.len() as int) =~= models(src@));
    }
}

/// Index of the first peer with this id, or the length if absent.
pub(crate) fn find_peer_pos(peers: &Vec<PeerNode>, id: u32) -> (t: usize)
    ensures
        t == peer_index(models(peers@), id),
        t <= peers@.len(),
{
    let mut i: usize = 0;
    while i < peers.len()
        invariant
            i <= peers@.len(),
            forall|u: int| 0 <= u < i ==> #[trigger] peers@[u].id != id,
        decreases peers@.len() - i,
    {
        if peers[i].id == id {
            proof {
                lemma_peer_index_char(models(peers@), id, i as int);
            }
            return i;
        }
        i = i + 1;
    }
    proof {
        lemma_peer_index_char(models(peers@), id, i as int);
    }
    i
}

/// A position that ends the run of other ids is the first occurrence.
proof fn lemma_peer_index_char(s: Seq<PeerModel>, id: u32, k: int)
    requires
        0 <= k <= s.len(),
        forall|i: int| 0 <= i < k ==> #[trigger] s[i].id != id,
        k < s.len() ==> s[k].id == id,
    ensures
        peer_index(s, id) == k,
    decreases s.len(),
{
    if s.len() == 0 {
    } else if s[0].id == id {
        assert(k == 0);
    } else {
        assert(k >= 1);
        let rest = s.drop_first();
        assert forall|i: int| 0 <= i < k - 1 implies #[trigger] rest[i].id != id by {
            assert(rest[i] == s[i + 1]);
        }
        assert(k - 1 < rest.len() ==> rest[k - 1].id == id);
        lemma_peer_index_char(rest, id, k - 1);
    }
}

/// Rewriting one peer by another with the same id keeps the tree sound and
/// is exactly the marked tree.
proof fn lemma_update_same_id(bs: Seq<BucketModel>, j: int, t: int, nq: PeerModel)
    requires
        wf_buckets(bs),
        0 <= j < bs.len(),
        0 <= t < bs[j].peers.len(),
        nq.id == bs[j].peers[t].id,
    ensures
        wf_buckets(bs.update(j, (BucketModel { peers: bs[j].peers.update(t, nq), ..bs[j] }))),
{
    let nb = BucketModel { peers: bs[j].peers.update(t, nq), ..bs[j] };
    let res = bs.update(j, nb);
    assert(bucket_wf(nb)) by {
        let s = bs[j].peers;
        let s2 = nb.peers;
        assert forall|a: int, c: int| 0 <= a < c < s2.len() implies s2[a].id < s2[c].id by {
            assert(s2[a].id == s[a].id && s2[c].id == s[c].id);
        }
        assert forall|u: int| 0 <= u < s2.len() implies nb.start <= #[trigger] s2[u].id
            < nb.end by {
            assert(s2[u].id == s[u].id);
        }
    }
    assert forall|i: int| 0 <= i < res.len() implies bucket_wf(#[trigger] res[i]) by {
        if i != j {
            assert(res[i] == bs[i]);
        }
    }
    assert forall|i: int| 0 <= i < res.len() - 1 implies #[trigger] res[i].end == res[i
        + 1].start by {
        assert(res[i].end == bs[i].end && res[i + 1].start == bs[i + 1].start);
    }
    assert(res[res.len() - 1].end == bs[bs.len() - 1].end);
    assert(res[0].start == bs[0].start);
}


} // verus!
