//! The replicated state of the whole cluster and the reconciliation
//! algorithms: digest, delta computation, delta application, collection.
use vstd::prelude::*;

use crate::assoc::{has_key, keys_distinct, lemma_push_distinct, lemma_to_map_at, lemma_to_map_dom, lemma_to_map_insert, lemma_to_map_push, lemma_to_map_remove, lemma_to_map_update, to_map};
use vstd::utf8::encode_utf8;

use crate::delta::{encode_kv, encode_node_id, lemma_delta_size, serialized_size, Delta, DeltaWriter, NodeDelta, EMPTY_DELTA_SIZE};
use crate::digest::{find_node, Digest};
use crate::key_order::{compare_node_ids, ids_sorted, lemma_node_lt_trans, node_lt};
use crate::node_state::{apply_updates, clock_now, precedes, stale_keys, NodeState, NodeStateView};
use crate::scuttle::{random_seed, NodeSortedByStaleLength};
use crate::types::{contains_id, ids_contain, NodeId, VersionedValueView};

verus! {

/// A node identifier as plain values.
pub type NodeIdView = (Seq<char>, Seq<char>);

/// The state of a node that nothing was heard of yet.
pub open spec fn empty_node_view() -> NodeStateView {
    NodeStateView { key_values: Map::empty(), max_version: 0 }
}

/// The state of `id` in `m`, or an empty one.
pub open spec fn node_or_empty(m: Map<NodeIdView, NodeStateView>, id: NodeIdView) -> NodeStateView {
    if m.contains_key(id) {
        m[id]
    } else {
        empty_node_view()
    }
}

/// The cluster after the sections of a delta, applied in order; a section
/// creates its node when it is unknown.
pub open spec fn apply_sections(m: Map<NodeIdView, NodeStateView>, secs: Seq<(NodeId, NodeDelta)>) -> Map<NodeIdView, NodeStateView>
    decreases secs.len(),
{
    if secs.len() == 0 {
        m
    } else {
        let prev = apply_sections(m, secs.drop_last());
        let id = secs.last().0@;
        prev.insert(id, apply_updates(node_or_empty(prev, id), secs.last().1.key_values@))
    }
}

/// The nodes of `m` that `reset` does not name.
pub open spec fn without_reset(m: Map<NodeIdView, NodeStateView>, reset: Seq<NodeId>) -> Map<NodeIdView, NodeStateView> {
    Map::new(|k: NodeIdView| m.contains_key(k) && !contains_id(reset, k), |k: NodeIdView| m[k])
}

/// The cluster after applying `d`: reset nodes are dropped, then the
/// sections are applied.
pub open spec fn apply_delta_spec(m: Map<NodeIdView, NodeStateView>, d: Delta) -> Map<NodeIdView, NodeStateView> {
    apply_sections(without_reset(m, d.nodes_to_reset@), d.node_deltas@)
}

/// The digest of `m` without the nodes in `dead`.
pub open spec fn digest_spec(m: Map<NodeIdView, NodeStateView>, dead: Seq<NodeId>) -> Map<NodeIdView, u64> {
    Map::new(|k: NodeIdView| m.contains_key(k) && !contains_id(dead, k), |k: NodeIdView| m[k].max_version)
}

/// The version up to which the digest says the peer holds `id` (0 when the
/// digest does not list it).
pub open spec fn digest_floor(digest: Map<NodeIdView, u64>, id: NodeIdView) -> u64 {
    if digest.contains_key(id) {
        digest[id]
    } else {
        0
    }
}

/// The peer is so far behind on `s` that tombstones it never saw may be
/// collected here already: it must drop its copy and take the full state.
pub open spec fn needs_reset(floor: u64, s: NodeStateView, grace_period: usize) -> bool {
    floor > 0 && floor + grace_period < s.max_version
}

/// The floor above which entries of `s` are sent.
pub open spec fn send_floor(floor: u64, s: NodeStateView, grace_period: usize) -> u64 {
    if needs_reset(floor, s, grace_period) {
        0
    } else {
        floor
    }
}

/// `id` is a live node of `m` that the peer must reset.
pub open spec fn reset_ok(
    m: Map<NodeIdView, NodeStateView>,
    digest: Map<NodeIdView, u64>,
    dead: Seq<NodeId>,
    grace_period: usize,
    id: NodeIdView,
) -> bool {
    &&& m.contains_key(id)
    &&& !contains_id(dead, id)
    &&& needs_reset(digest_floor(digest, id), m[id], grace_period)
}

/// A section of a delta computed from `m` against `digest`: its node is live
/// and known, reset on the peer when it must be; its updates are entries of
/// that node above the sending floor, of distinct keys, by ascending version;
/// every entry left out has a version no lower than any sent; and when the
/// section is `complete` no entry is left out.
pub open spec fn section_ok(
    m: Map<NodeIdView, NodeStateView>,
    digest: Map<NodeIdView, u64>,
    dead: Seq<NodeId>,
    grace_period: usize,
    resets: Seq<NodeId>,
    sec: (NodeId, NodeDelta),
    complete: bool,
) -> bool {
    let id = sec.0@;
    let kvs = sec.1.key_values@;
    let s = m[id];
    let floor = send_floor(digest_floor(digest, id), s, grace_period);
    &&& m.contains_key(id)
    &&& !contains_id(dead, id)
    &&& needs_reset(digest_floor(digest, id), s, grace_period) ==> contains_id(resets, id)
    &&& forall|i: int|
        0 <= i < kvs.len() ==> s.key_values.contains_key(#[trigger] kvs[i].0@) && s.key_values[kvs[i].0@]
            == kvs[i].1@ && kvs[i].1.version > floor
    &&& forall|i: int, j: int| 0 <= i < j < kvs.len() ==> #[trigger] kvs[i].1.version <= #[trigger] kvs[j].1.version
    &&& forall|i: int, j: int| 0 <= i < j < kvs.len() ==> #[trigger] kvs[i].0@ != #[trigger] kvs[j].0@
    &&& forall|k: Seq<char>|
        #[trigger] s.key_values.contains_key(k) && s.key_values[k].version > floor && !(exists|i: int|
            0 <= i < kvs.len() && #[trigger] kvs[i].0@ == k) ==> (!complete && forall|i: int|
            0 <= i < kvs.len() ==> #[trigger] kvs[i].1.version <= s.key_values[k].version)
}

/// How many entries of node `id` of `m` the peer that sent `digest` misses.
pub open spec fn stale_count(m: Map<NodeIdView, NodeStateView>, digest: Map<NodeIdView, u64>, grace_period: usize, id: NodeIdView) -> nat {
    stale_keys(m[id].key_values, send_floor(digest_floor(digest, id), m[id], grace_period)).len()
}

/// After a delta `d` was applied at `now`, turning `before` into `after`:
/// every node with a section was heard from at `now`, and every other node
/// is one of `before`, unchanged.
pub open spec fn heartbeats_after(
    before: Seq<(NodeId, NodeState)>,
    d: Delta,
    after: Seq<(NodeId, NodeState)>,
    now: std::time::Instant,
) -> bool {
    forall|i: int|
        0 <= i < after.len() ==> if has_section(d.node_deltas@, (#[trigger] after[i]).0@) {
            after[i].1.last_heartbeat == now
        } else {
            exists|j: int| 0 <= j < before.len() && before[j] == after[i]
        }
}

/// Some section of `secs` is for `id`.
pub open spec fn has_section(secs: Seq<(NodeId, NodeDelta)>, id: NodeIdView) -> bool {
    exists|i: int| 0 <= i < secs.len() && #[trigger] secs[i].0@ == id
}

/// Bytes that a node identifier takes on the wire.
pub open spec fn node_id_size(id: NodeIdView) -> int {
    (16 + encode_utf8(id.0).len() + encode_utf8(id.1).len()) as int
}

/// Bytes that an update takes on the wire.
pub open spec fn kv_size(key: Seq<char>, v: VersionedValueView) -> int {
    (25 + encode_utf8(key).len() + encode_utf8(v.value).len()) as int
}

/// A live node of `m` with entries the peer misses.
pub open spec fn is_candidate(
    m: Map<NodeIdView, NodeStateView>,
    digest: Map<NodeIdView, u64>,
    dead: Seq<NodeId>,
    grace_period: usize,
    id: NodeIdView,
) -> bool {
    m.contains_key(id) && !contains_id(dead, id) && stale_count(m, digest, grace_period, id) > 0
}

/// `d` holds every reset that is due and a section for every candidate
/// node, and its last section is complete.
pub open spec fn delta_complete(
    m: Map<NodeIdView, NodeStateView>,
    digest: Map<NodeIdView, u64>,
    dead: Seq<NodeId>,
    grace_period: usize,
    d: Delta,
) -> bool {
    &&& resets_complete(m, digest, dead, grace_period, d)
    &&& forall|k: NodeIdView| #[trigger] is_candidate(m, digest, dead, grace_period, k) ==> has_section(d.node_deltas@, k)
    &&& d.node_deltas@.len() > 0 ==> section_ok(m, digest, dead, grace_period, d.nodes_to_reset@, d.node_deltas@.last(), true)
}

/// Every reset that is due is listed in `d`.
pub open spec fn resets_complete(
    m: Map<NodeIdView, NodeStateView>,
    digest: Map<NodeIdView, u64>,
    dead: Seq<NodeId>,
    grace_period: usize,
    d: Delta,
) -> bool {
    forall|k: NodeIdView| #[trigger] reset_ok(m, digest, dead, grace_period, k) ==> contains_id(d.nodes_to_reset@, k)
}

/// A due reset was left out because it did not fit; nothing was written
/// after it.
pub open spec fn reset_refused(
    m: Map<NodeIdView, NodeStateView>,
    digest: Map<NodeIdView, u64>,
    dead: Seq<NodeId>,
    mtu: usize,
    grace_period: usize,
    d: Delta,
) -> bool {
    &&& d.node_deltas@.len() == 0
    &&& exists|k: NodeIdView|
        #[trigger] reset_ok(m, digest, dead, grace_period, k) && !contains_id(d.nodes_to_reset@, k)
            && serialized_size(d) + node_id_size(k) > mtu
}

/// All due resets and complete sections were written, and then the header
/// of a candidate node without a section did not fit.
pub open spec fn header_refused(
    m: Map<NodeIdView, NodeStateView>,
    digest: Map<NodeIdView, u64>,
    dead: Seq<NodeId>,
    mtu: usize,
    grace_period: usize,
    d: Delta,
) -> bool {
    let secs = d.node_deltas@;
    &&& resets_complete(m, digest, dead, grace_period, d)
    &&& secs.len() > 0 ==> section_ok(m, digest, dead, grace_period, d.nodes_to_reset@, secs.last(), true)
    &&& exists|k: NodeIdView|
        #[trigger] is_candidate(m, digest, dead, grace_period, k) && !has_section(secs, k)
            && serialized_size(d) + node_id_size(k) + 8 > mtu
}

/// All due resets were written, and then an update missing from the last
/// section did not fit.
pub open spec fn update_refused(
    m: Map<NodeIdView, NodeStateView>,
    digest: Map<NodeIdView, u64>,
    dead: Seq<NodeId>,
    mtu: usize,
    grace_period: usize,
    d: Delta,
) -> bool {
    let secs = d.node_deltas@;
    &&& resets_complete(m, digest, dead, grace_period, d)
    &&& secs.len() > 0
    &&& exists|key: Seq<char>|
        #[trigger] m[secs.last().0@].key_values.contains_key(key)
            && m[secs.last().0@].key_values[key].version > send_floor(digest_floor(digest, secs.last().0@), m[secs.last().0@], grace_period)
            && !(exists|i: int| 0 <= i < secs.last().1.key_values@.len() && #[trigger] secs.last().1.key_values@[i].0@ == key)
            && serialized_size(d) + kv_size(key, m[secs.last().0@].key_values[key]) > mtu
}

/// Writing stopped at the first item that did not fit.
pub open spec fn budget_exhausted(
    m: Map<NodeIdView, NodeStateView>,
    digest: Map<NodeIdView, u64>,
    dead: Seq<NodeId>,
    mtu: usize,
    grace_period: usize,
    d: Delta,
) -> bool {
    ||| reset_refused(m, digest, dead, mtu, grace_period, d)
    ||| header_refused(m, digest, dead, mtu, grace_period, d)
    ||| update_refused(m, digest, dead, mtu, grace_period, d)
}

/// Sections are for distinct candidate nodes, and no candidate is left out
/// while one with fewer stale entries has a section.
pub open spec fn sections_by_depth(
    m: Map<NodeIdView, NodeStateView>,
    digest: Map<NodeIdView, u64>,
    dead: Seq<NodeId>,
    grace_period: usize,
    secs: Seq<(NodeId, NodeDelta)>,
) -> bool {
    &&& forall|i: int, j: int| 0 <= i < j < secs.len() ==> #[trigger] secs[i].0@ != #[trigger] secs[j].0@
    &&& forall|i: int| 0 <= i < secs.len() ==> is_candidate(m, digest, dead, grace_period, #[trigger] secs[i].0@)
    &&& forall|k: NodeIdView, i: int|
        #[trigger] is_candidate(m, digest, dead, grace_period, k) && 0 <= i < secs.len() && stale_count(m, digest, grace_period, k)
            > stale_count(m, digest, grace_period, #[trigger] secs[i].0@) ==> has_section(secs, k)
}

/// What `compute_delta` promises of its result `d`.
pub open spec fn delta_ok(
    m: Map<NodeIdView, NodeStateView>,
    digest: Map<NodeIdView, u64>,
    dead: Seq<NodeId>,
    mtu: usize,
    grace_period: usize,
    d: Delta,
) -> bool {
    let secs = d.node_deltas@;
    let resets = d.nodes_to_reset@;
    &&& forall|i: int| 0 <= i < resets.len() ==> reset_ok(m, digest, dead, grace_period, #[trigger] resets[i]@)
    &&& forall|i: int, j: int| 0 <= i < j < resets.len() ==> #[trigger] resets[i]@ != #[trigger] resets[j]@
    &&& sections_by_depth(m, digest, dead, grace_period, secs)
    &&& forall|i: int| 0 <= i < secs.len() - 1 ==> section_ok(m, digest, dead, grace_period, resets, #[trigger] secs[i], true)
    &&& secs.len() > 0 ==> section_ok(m, digest, dead, grace_period, resets, secs.last(), false)
    &&& forall|i: int, j: int|
        0 <= i < j < secs.len() ==> stale_count(m, digest, grace_period, #[trigger] secs[i].0@) >= stale_count(
            m,
            digest,
            grace_period,
            #[trigger] secs[j].0@,
        )
    &&& mtu >= EMPTY_DELTA_SIZE ==> serialized_size(d) <= mtu
    &&& mtu < EMPTY_DELTA_SIZE ==> resets.len() == 0 && secs.len() == 0
    &&& mtu >= EMPTY_DELTA_SIZE ==> delta_complete(m, digest, dead, grace_period, d) || budget_exhausted(m, digest, dead, mtu, grace_period, d)
}

/// Sections written in the order `order` (by decreasing stale count, each
/// candidate once) satisfy `sections_by_depth`.
proof fn lemma_sections_by_depth(
    m: Map<NodeIdView, NodeStateView>,
    digest: Map<NodeIdView, u64>,
    dead: Seq<NodeId>,
    grace_period: usize,
    candidates: Map<NodeIdView, usize>,
    order: Seq<NodeId>,
    secs: Seq<(NodeId, NodeDelta)>,
)
    requires
        secs.len() <= order.len(),
        forall|j: int| 0 <= j < secs.len() ==> (#[trigger] secs[j]).0 == order[j],
        forall|t: int, u: int| 0 <= t < u < order.len() ==> #[trigger] order[t]@ != #[trigger] order[u]@,
        forall|t: int| 0 <= t < order.len() ==> candidates.contains_key(#[trigger] order[t]@),
        forall|t: int, u: int| 0 <= t < u < order.len() ==> candidates[#[trigger] order[t]@] >= candidates[#[trigger] order[u]@],
        forall|k: NodeIdView| #[trigger] candidates.contains_key(k) ==> m.contains_key(k) && !contains_id(dead, k),
        forall|k: NodeIdView| #[trigger] candidates.contains_key(k) ==> candidates[k] == stale_count(m, digest, grace_period, k),
        forall|k: NodeIdView| #[trigger] candidates.contains_key(k) ==> candidates[k] > 0,
        forall|k: NodeIdView| #[trigger] is_candidate(m, digest, dead, grace_period, k) ==> candidates.contains_key(k),
        forall|k: NodeIdView| #[trigger] candidates.contains_key(k) ==> exists|t: int| 0 <= t < order.len() && #[trigger] order[t]@ == k,
    ensures
        sections_by_depth(m, digest, dead, grace_period, secs),
{
    assert forall|i: int, j: int| 0 <= i < j < secs.len() implies #[trigger] secs[i].0@ != #[trigger] secs[j].0@ by {
        assert(secs[i].0 == order[i] && secs[j].0 == order[j]);
    }
    assert forall|i: int| 0 <= i < secs.len() implies is_candidate(m, digest, dead, grace_period, #[trigger] secs[i].0@) by {
        assert(secs[i].0 == order[i]);
        assert(candidates.contains_key(order[i]@));
    }
    assert forall|k: NodeIdView, i: int|
        #[trigger] is_candidate(m, digest, dead, grace_period, k) && 0 <= i < secs.len() && stale_count(m, digest, grace_period, k)
            > stale_count(m, digest, grace_period, #[trigger] secs[i].0@) implies has_section(secs, k) by {
        assert(candidates.contains_key(k));
        let t = choose|t: int| 0 <= t < order.len() && #[trigger] order[t]@ == k;
        assert(secs[i].0 == order[i]);
        assert(candidates.contains_key(order[i]@));
        if t >= i {
            if t > i {
                assert(candidates[order[i]@] >= candidates[order[t]@]);
            }
        }
        assert(t < i);
        assert(secs[t].0 == order[t]);
    }
}

/// A complete section is in particular a valid partial one.
proof fn lemma_section_ok_weaken(
    m: Map<NodeIdView, NodeStateView>,
    digest: Map<NodeIdView, u64>,
    dead: Seq<NodeId>,
    grace_period: usize,
    resets: Seq<NodeId>,
    sec: (NodeId, NodeDelta),
)
    requires
        section_ok(m, digest, dead, grace_period, resets, sec, true),
    ensures
        section_ok(m, digest, dead, grace_period, resets, sec, false),
{
}

proof fn lemma_delta_ok_intro(
    m: Map<NodeIdView, NodeStateView>,
    digest: Map<NodeIdView, u64>,
    dead: Seq<NodeId>,
    mtu: usize,
    grace_period: usize,
    d: Delta,
)
    requires
        forall|i: int| 0 <= i < d.nodes_to_reset@.len() ==> reset_ok(m, digest, dead, grace_period, #[trigger] d.nodes_to_reset@[i]@),
        forall|i: int, j: int| 0 <= i < j < d.nodes_to_reset@.len() ==> #[trigger] d.nodes_to_reset@[i]@ != #[trigger] d.nodes_to_reset@[j]@,
        sections_by_depth(m, digest, dead, grace_period, d.node_deltas@),
        forall|i: int| 0 <= i < d.node_deltas@.len() - 1 ==> section_ok(m, digest, dead, grace_period, d.nodes_to_reset@, #[trigger] d.node_deltas@[i], true),
        d.node_deltas@.len() > 0 ==> section_ok(m, digest, dead, grace_period, d.nodes_to_reset@, d.node_deltas@.last(), false),
        forall|i: int, j: int|
            0 <= i < j < d.node_deltas@.len() ==> stale_count(m, digest, grace_period, #[trigger] d.node_deltas@[i].0@) >= stale_count(
                m,
                digest,
                grace_period,
                #[trigger] d.node_deltas@[j].0@,
            ),
        mtu >= EMPTY_DELTA_SIZE ==> serialized_size(d) <= mtu,
        mtu < EMPTY_DELTA_SIZE ==> d.nodes_to_reset@.len() == 0 && d.node_deltas@.len() == 0,
        mtu >= EMPTY_DELTA_SIZE ==> delta_complete(m, digest, dead, grace_period, d) || budget_exhausted(m, digest, dead, mtu, grace_period, d),
    ensures
        delta_ok(m, digest, dead, mtu, grace_period, d),
{
}

/// The updates at positions `idx[0..t]` of `st`, in that order, make a valid
/// section, complete when `t` covers all of `idx`.
proof fn lemma_section_ok(
    m: Map<NodeIdView, NodeStateView>,
    digest: Map<NodeIdView, u64>,
    dead: Seq<NodeId>,
    grace_period: usize,
    resets: Seq<NodeId>,
    st: NodeState,
    idx: Seq<usize>,
    sec: (NodeId, NodeDelta),
)
    requires
        st.wf(),
        m.contains_key(sec.0@),
        m[sec.0@] == st@,
        !contains_id(dead, sec.0@),
        needs_reset(digest_floor(digest, sec.0@), st@, grace_period) ==> contains_id(resets, sec.0@),
        sec.1.key_values@.len() <= idx.len(),
        forall|u: int| 0 <= u < sec.1.key_values@.len() ==> #[trigger] sec.1.key_values@[u] == st.key_values@[idx[u] as int],
        forall|t: int| 0 <= t < idx.len() ==> #[trigger] idx[t] < st.key_values@.len()
            && st.key_values@[idx[t] as int].1.version > send_floor(digest_floor(digest, sec.0@), st@, grace_period),
        forall|t: int, u: int| 0 <= t < u < idx.len() ==> precedes(st.key_values@, #[trigger] idx[t] as int, #[trigger] idx[u] as int),
        forall|j: int|
            0 <= j < st.key_values@.len() && #[trigger] st.key_values@[j].1.version > send_floor(digest_floor(digest, sec.0@), st@, grace_period)
                ==> exists|t: int| 0 <= t < idx.len() && idx[t] == j,
    ensures
        section_ok(m, digest, dead, grace_period, resets, sec, sec.1.key_values@.len() == idx.len()),
{
    let kvs = sec.1.key_values@;
    let s = st@;
    let floor = send_floor(digest_floor(digest, sec.0@), s, grace_period);
    let n = kvs.len();
    assert forall|i: int| 0 <= i < n implies s.key_values.contains_key(#[trigger] kvs[i].0@) && s.key_values[kvs[i].0@]
        == kvs[i].1@ && kvs[i].1.version > floor by {
        lemma_to_map_at(st.key_values@, idx[i] as int);
    }
    assert forall|i: int, j: int| 0 <= i < j < n implies #[trigger] kvs[i].1.version <= #[trigger] kvs[j].1.version by {
        assert(precedes(st.key_values@, idx[i] as int, idx[j] as int));
    }
    assert forall|i: int, j: int| 0 <= i < j < n implies #[trigger] kvs[i].0@ != #[trigger] kvs[j].0@ by {
        assert(precedes(st.key_values@, idx[i] as int, idx[j] as int));
        assert(idx[i] != idx[j]);
    }
    assert forall|k: Seq<char>|
        #[trigger] s.key_values.contains_key(k) && s.key_values[k].version > floor && !(exists|i: int|
            0 <= i < n && #[trigger] kvs[i].0@ == k) implies (!(n == idx.len()) && forall|i: int|
            0 <= i < n ==> #[trigger] kvs[i].1.version <= s.key_values[k].version) by {
        lemma_to_map_dom(st.key_values@, k);
        let j = choose|j: int| 0 <= j < st.key_values@.len() && #[trigger] st.key_values@[j].0@ == k;
        lemma_to_map_at(st.key_values@, j);
        assert(st.key_values@[j].1.version > floor);
        let t = choose|t: int| 0 <= t < idx.len() && idx[t] == j;
        if t < n {
            assert(kvs[t].0@ == k);
        }
        assert forall|i: int| 0 <= i < n implies #[trigger] kvs[i].1.version <= s.key_values[k].version by {
            assert(precedes(st.key_values@, idx[i] as int, idx[t] as int));
        }
    }
}

/// Appends the entries of `node_state` at `indices`, in that order, to the
/// open section of `writer`, stopping at the first that does not fit.
/// Returns whether all of them were written.
fn write_entries(writer: &mut DeltaWriter, node_state: &NodeState, indices: &Vec<usize>) -> (r: bool)
    requires
        old(writer).wf(),
        !old(writer).reached_capacity,
        old(writer).delta.node_deltas@.len() > 0,
        old(writer).delta.node_deltas@.last().1.key_values@.len() == 0,
        forall|t: int| 0 <= t < indices@.len() ==> #[trigger] indices@[t] < node_state.key_values@.len(),
    ensures
        final(writer).wf(),
        final(writer).mtu == old(writer).mtu,
        final(writer).delta.nodes_to_reset@ == old(writer).delta.nodes_to_reset@,
        final(writer).delta.node_deltas@.len() == old(writer).delta.node_deltas@.len(),
        final(writer).delta.node_deltas@.drop_last() == old(writer).delta.node_deltas@.drop_last(),
        final(writer).delta.node_deltas@.last().0 == old(writer).delta.node_deltas@.last().0,
        final(writer).delta.node_deltas@.last().1.key_values@.len() <= indices@.len(),
        forall|u: int|
            0 <= u < final(writer).delta.node_deltas@.last().1.key_values@.len() ==> #[trigger] final(writer).delta.node_deltas@.last().1.key_values@[u]
                == node_state.key_values@[indices@[u] as int],
        r == (final(writer).delta.node_deltas@.last().1.key_values@.len() == indices@.len()),
        r ==> !final(writer).reached_capacity,
        !r ==> final(writer).reached_capacity && serialized_size(final(writer).delta) + encode_kv(
            node_state.key_values@[indices@[final(writer).delta.node_deltas@.last().1.key_values@.len() as int] as int],
        ).len() > final(writer).mtu,
{
    let ghost start = writer.delta.node_deltas@;
    let mut t: usize = 0;
    while t < indices.len()
        invariant
            t <= indices@.len(),
            writer.wf(),
            !writer.reached_capacity,
            writer.mtu == old(writer).mtu,
            writer.delta.nodes_to_reset@ == old(writer).delta.nodes_to_reset@,
            writer.delta.node_deltas@.len() == start.len(),
            start.len() > 0,
            start == old(writer).delta.node_deltas@,
            writer.delta.node_deltas@.drop_last() == start.drop_last(),
            writer.delta.node_deltas@.last().0 == start.last().0,
            writer.delta.node_deltas@.last().1.key_values@.len() == t,
            forall|i: int| 0 <= i < indices@.len() ==> #[trigger] indices@[i] < node_state.key_values@.len(),
            forall|u: int| 0 <= u < t ==> #[trigger] writer.delta.node_deltas@.last().1.key_values@[u] == node_state.key_values@[indices@[u] as int],
        decreases indices@.len() - t,
    {
        let k = indices[t];
        let key = node_state.key_values[k].0.clone();
        let value = node_state.key_values[k].1.clone();
        let ghost last_before = writer.delta.node_deltas@.last();
        if !writer.add_kv(key, value) {
            return false;
        }
        proof {
            let kvs = writer.delta.node_deltas@.last().1.key_values@;
            assert forall|u: int| 0 <= u < t + 1 implies #[trigger] kvs[u] == node_state.key_values@[indices@[u] as int] by {
                if u < t {
                    assert(kvs[u] == last_before.1.key_values@[u]);
                }
            }
        }
        t = t + 1;
    }
    true
}

/// All node states of the cluster, keyed by node.
#[derive(Debug)]
pub struct ClusterState {
    pub node_states: Vec<(NodeId, NodeState)>,
}

impl View for ClusterState {
    type V = Map<NodeIdView, NodeStateView>;

    open spec fn view(&self) -> Map<NodeIdView, NodeStateView> {
        to_map(self.node_states@)
    }
}

impl Default for ClusterState {
    fn default() -> (r: ClusterState)
        ensures
            r.wf(),
            r@ == Map::<NodeIdView, NodeStateView>::empty(),
    {
        ClusterState { node_states: Vec::new() }
    }
}

impl ClusterState {
    /// Each node is listed once, in ascending identifier order, and each node
    /// state is well formed.
    pub open spec fn wf(&self) -> bool {
        &&& keys_distinct(self.node_states@)
        &&& ids_sorted(self.node_states@)
        &&& forall|i: int| 0 <= i < self.node_states@.len() ==> (#[trigger] self.node_states@[i]).1.wf()
    }

    /// Every well-formed cluster maps each node to a well-formed state.
    pub proof fn lemma_states_wf(&self, k: NodeIdView)
        requires
            self.wf(),
            self@.contains_key(k),
        ensures
            exists|i: int| 0 <= i < self.node_states@.len() && self.node_states@[i].0@ == k
                && #[trigger] self.node_states@[i].1@ == self@[k] && self.node_states@[i].1.wf(),
    {
        lemma_to_map_dom(self.node_states@, k);
        let i = choose|i: int| 0 <= i < self.node_states@.len() && #[trigger] self.node_states@[i].0@ == k;
        lemma_to_map_at(self.node_states@, i);
        assert(self.node_states@[i].1.wf());
    }

    /// The state of `node_id`, if known.
    pub fn node_state(&self, node_id: &NodeId) -> (r: Option<&NodeState>)
        requires
            self.wf(),
        ensures
            r.is_some() == self@.contains_key(node_id@),
            r matches Some(s) ==> s@ == self@[node_id@] && s.wf(),
    {
        match find_node(&self.node_states, node_id) {
            Some(i) => {
                proof {
                    lemma_to_map_at(self.node_states@, i as int);
                    assert(self.node_states@[i as int].1.wf());
                }
                Some(&self.node_states[i].1)
            },
            None => {
                proof {
                    lemma_to_map_dom(self.node_states@, node_id@);
                }
                None
            },
        }
    }

    /// The position of `node_id`, which is added with an empty state when
    /// unknown.
    fn entry_index(&mut self, node_id: &NodeId) -> (r: usize)
        requires
            old(self).wf(),
        ensures
            final(self).wf(),
            r < final(self).node_states@.len(),
            final(self).node_states@[r as int].0@ == node_id@,
            final(self)@ == old(self)@.insert(node_id@, node_or_empty(old(self)@, node_id@)),
            forall|i: int|
                0 <= i < final(self).node_states@.len() && (#[trigger] final(self).node_states@[i]).0@ != node_id@
                    ==> exists|j: int| 0 <= j < old(self).node_states@.len() && old(self).node_states@[j] == final(self).node_states@[i],
    {
        let ghost s = self.node_states@;
        match find_node(&self.node_states, node_id) {
            Some(i) => {
                proof {
                    lemma_to_map_at(s, i as int);
                    assert(self@ =~= old(self)@.insert(node_id@, node_or_empty(old(self)@, node_id@)));
                }
                i
            },
            None => {
                let entry = (node_id.clone(), NodeState::new());
                proof {
                    lemma_to_map_dom(s, node_id@);
                    assert(entry.1@ == empty_node_view());
                }
                let mut p: usize = 0;
                loop
                    invariant
                        p <= s.len(),
                        self.node_states@ == s,
                        !has_key(s, entry.0@),
                        forall|i: int| 0 <= i < p ==> node_lt(#[trigger] s[i].0@, entry.0@),
                    ensures
                        p <= s.len(),
                        forall|i: int| 0 <= i < p ==> node_lt(#[trigger] s[i].0@, entry.0@),
                        p < s.len() ==> node_lt(entry.0@, s[p as int].0@),
                    decreases s.len() - p,
                {
                    if p >= self.node_states.len() {
                        break;
                    }
                    let c = compare_node_ids(&self.node_states[p].0, &entry.0);
                    if c >= 0 {
                        proof {
                            if c == 0 {
                                assert(s[p as int].0@ == entry.0@);
                            }
                        }
                        break;
                    }
                    p = p + 1;
                }
                proof {
                    lemma_to_map_insert(s, p as int, entry);
                }
                self.node_states.insert(p, entry);
                proof {
                    let t = self.node_states@;
                    assert forall|a: int, b: int| 0 <= a < b < t.len() implies node_lt(#[trigger] t[a].0@, #[trigger] t[b].0@) by {
                        if b < p {
                            assert(t[a] == s[a] && t[b] == s[b]);
                        } else if b == p {
                            assert(t[a] == s[a] && t[b] == entry);
                        } else if a < p {
                            assert(t[a] == s[a] && t[b] == s[b - 1]);
                        } else if a == p {
                            assert(t[a] == entry && t[b] == s[b - 1]);
                            if b - 1 > p {
                                lemma_node_lt_trans(entry.0@, s[p as int].0@, s[b - 1].0@);
                            }
                        } else {
                            assert(t[a] == s[a - 1] && t[b] == s[b - 1]);
                        }
                    }
                    assert forall|i: int| 0 <= i < t.len() implies (#[trigger] t[i]).1.wf() by {
                        if i < p {
                            assert(t[i] == s[i]);
                        } else if i > p {
                            assert(t[i] == s[i - 1]);
                        }
                    }
                    assert forall|i: int|
                        0 <= i < t.len() && (#[trigger] t[i]).0@ != node_id@
                            implies exists|j: int| 0 <= j < s.len() && s[j] == t[i] by {
                        if i < p {
                            assert(t[i] == s[i]);
                        } else if i > p {
                            assert(t[i] == s[i - 1]);
                        }
                    }
                }
                p
            },
        }
    }

    /// The state of `node_id`, created empty when unknown, for the caller to
    /// change.
    pub fn node_state_mut(&mut self, node_id: &NodeId) -> (r: &mut NodeState)
        requires
            old(self).wf(),
        ensures
            r.wf(),
            r@ == node_or_empty(old(self)@, node_id@),
            final(self)@ == old(self)@.insert(node_id@, final(r)@),
            final(r).wf() ==> final(self).wf(),
    {
        let i = self.entry_index(node_id);
        proof {
            lemma_to_map_at(self.node_states@, i as int);
        }
        let ghost s = self.node_states@;
        assert(s[i as int].1.wf());
        let r = &mut self.node_states[i].1;
        proof {
            lemma_to_map_update(s, i as int, (s[i as int].0, *final(r)));
        }
        r
    }

    /// The known nodes, in storage order.
    pub fn nodes(&self) -> (r: Vec<NodeId>)
        ensures
            r@.len() == self.node_states@.len(),
            forall|i: int| 0 <= i < r@.len() ==> #[trigger] r@[i] == self.node_states@[i].0,
    {
        let mut out: Vec<NodeId> = Vec::new();
        let mut i: usize = 0;
        while i < self.node_states.len()
            invariant
                i <= self.node_states@.len(),
                out@.len() == i,
                forall|j: int| 0 <= j < i ==> #[trigger] out@[j] == self.node_states@[j].0,
            decreases self.node_states@.len() - i,
        {
            out.push(self.node_states[i].0.clone());
            i = i + 1;
        }
        out
    }

    /// Forgets `node_id`.
    pub fn remove_node(&mut self, node_id: &NodeId)
        requires
            old(self).wf(),
        ensures
            final(self).wf(),
            final(self)@ == old(self)@.remove(node_id@),
    {
        let ghost s = self.node_states@;
        match find_node(&self.node_states, node_id) {
            Some(i) => {
                proof {
                    lemma_to_map_remove(s, i as int);
                }
                self.node_states.remove(i);
                proof {
                    assert forall|j: int| 0 <= j < self.node_states@.len() implies (#[trigger] self.node_states@[j]).1.wf() by {
                        if j < i {
                            assert(self.node_states@[j] == s[j]);
                        } else {
                            assert(self.node_states@[j] == s[j + 1]);
                        }
                    }
                }
            },
            None => {
                proof {
                    lemma_to_map_dom(s, node_id@);
                    assert(self@ =~= old(self)@.remove(node_id@));
                }
            },
        }
    }

    /// For each node not in `dead_nodes`, the highest version known of it.
    pub fn compute_digest(&self, dead_nodes: &Vec<NodeId>) -> (r: Digest)
        requires
            self.wf(),
        ensures
            r.wf(),
            r@ == digest_spec(self@, dead_nodes@),
            ids_sorted(r.node_max_version@),
            r.node_max_version@.len() == self.node_states@.filter(
                |e: (NodeId, NodeState)| !contains_id(dead_nodes@, e.0@),
            ).len(),
    {
        let ghost ns = self.node_states@;
        let ghost live = |e: (NodeId, NodeState)| !contains_id(dead_nodes@, e.0@);
        let mut out: Vec<(NodeId, u64)> = Vec::new();
        let mut i: usize = 0;
        while i < self.node_states.len()
            invariant
                i <= ns.len(),
                ns == self.node_states@,
                keys_distinct(ns),
                forall|e: (NodeId, NodeState)| #[trigger] live(e) == !contains_id(dead_nodes@, e.0@),
                keys_distinct(out@),
                ids_sorted(ns),
                ids_sorted(out@),
                forall|j: int| 0 <= j < out@.len() ==> has_key(ns.take(i as int), #[trigger] out@[j].0@),
                to_map(out@) == digest_spec(to_map(ns.take(i as int)), dead_nodes@),
                out@.len() == ns.take(i as int).filter(live).len(),
            decreases ns.len() - i,
        {
            let ghost pre = ns.take(i as int);
            proof {
                assert(ns.take(i + 1) =~= pre.push(ns[i as int]));
                lemma_to_map_push(pre, ns[i as int]);
                pre.lemma_filter_push(ns[i as int], live);
                assert(!has_key(pre, ns[i as int].0@)) by {
                    if has_key(pre, ns[i as int].0@) {
                        let j = choose|j: int| 0 <= j < pre.len() && #[trigger] pre[j].0@ == ns[i as int].0@;
                        assert(pre[j] == ns[j]);
                    }
                }
                assert forall|j: int| 0 <= j < out@.len() implies has_key(ns.take(i + 1), #[trigger] out@[j].0@) by {
                    let m = choose|m: int| 0 <= m < pre.len() && #[trigger] pre[m].0@ == out@[j].0@;
                    assert(ns.take(i + 1)[m] == pre[m]);
                }
            }
            if !ids_contain(dead_nodes, &self.node_states[i].0) {
                let entry = (self.node_states[i].0.clone(), self.node_states[i].1.max_version);
                proof {
                    assert(!has_key(out@, entry.0@)) by {
                        if has_key(out@, entry.0@) {
                            let j = choose|j: int| 0 <= j < out@.len() && #[trigger] out@[j].0@ == entry.0@;
                            assert(has_key(pre, out@[j].0@));
                        }
                    }
                    lemma_push_distinct(out@, entry);
                    lemma_to_map_push(out@, entry);
                }
                proof {
                    assert forall|j: int| 0 <= j < out@.len() implies node_lt(#[trigger] out@[j].0@, entry.0@) by {
                        let w = choose|w: int| 0 <= w < pre.len() && #[trigger] pre[w].0@ == out@[j].0@;
                        assert(pre[w] == ns[w]);
                        assert(node_lt(ns[w].0@, ns[i as int].0@));
                    }
                }
                let ghost prev_out = out@;
                out.push(entry);
                proof {
                    assert forall|a: int, b: int| 0 <= a < b < out@.len() implies node_lt(#[trigger] out@[a].0@, #[trigger] out@[b].0@) by {
                        assert(out@[a] == prev_out[a]);
                        if b < prev_out.len() {
                            assert(out@[b] == prev_out[b]);
                        }
                    }
                    let n = out@.len() - 1;
                    assert(ns.take(i + 1)[i as int] == ns[i as int]);
                    assert(has_key(ns.take(i + 1), out@[n].0@));
                    assert forall|j: int| 0 <= j < out@.len() implies has_key(ns.take(i + 1), #[trigger] out@[j].0@) by {
                        if j < n {
                            assert(out@[j] == prev_out[j]);
                        }
                    }
                }
            }
            i = i + 1;
            proof {
                assert(to_map(out@) =~= digest_spec(to_map(ns.take(i as int)), dead_nodes@));
            }
        }
        proof {
            assert(ns.take(ns.len() as int) =~= ns);
        }
        Digest { node_max_version: out }
    }

    /// Collects old tombstones in every node not in `dead_nodes`.
    pub fn gc_keys_marked_for_deletion(&mut self, marked_for_deletion_grace_period: usize, dead_nodes: &Vec<NodeId>)
        requires
            old(self).wf(),
        ensures
            final(self).wf(),
            final(self)@.dom() == old(self)@.dom(),
            forall|k: NodeIdView| #[trigger] old(self)@.contains_key(k) ==> final(self)@[k] == (if contains_id(dead_nodes@, k) {
                old(self)@[k]
            } else {
                NodeStateView {
                    key_values: old(self)@[k].after_gc(marked_for_deletion_grace_period),
                    max_version: old(self)@[k].max_version,
                }
            }),
    {
        let ghost orig = self.node_states@;
        let mut i: usize = 0;
        while i < self.node_states.len()
            invariant
                i <= orig.len(),
                self.node_states@.len() == orig.len(),
                keys_distinct(orig),
                forall|j: int| 0 <= j < orig.len() ==> (#[trigger] orig[j]).1.wf(),
                forall|j: int| 0 <= j < orig.len() ==> (#[trigger] self.node_states@[j]).0 == orig[j].0,
                forall|j: int| 0 <= j < orig.len() ==> (#[trigger] self.node_states@[j]).1.wf(),
                forall|j: int| i <= j < orig.len() ==> (#[trigger] self.node_states@[j]).1@ == orig[j].1@,
                forall|j: int| 0 <= j < i ==> (#[trigger] self.node_states@[j]).1@ == (if contains_id(dead_nodes@, orig[j].0@) {
                    orig[j].1@
                } else {
                    NodeStateView {
                        key_values: orig[j].1@.after_gc(marked_for_deletion_grace_period),
                        max_version: orig[j].1@.max_version,
                    }
                }),
            decreases orig.len() - i,
        {
            if !ids_contain(dead_nodes, &self.node_states[i].0) {
                self.node_states[i].1.gc_keys_marked_for_deletion(marked_for_deletion_grace_period);
            }
            i = i + 1;
        }
        proof {
            let ns = self.node_states@;
            assert(keys_distinct(ns)) by {
                assert forall|a: int, b: int| 0 <= a < ns.len() && 0 <= b < ns.len() && a != b implies #[trigger] ns[a].0@
                    != #[trigger] ns[b].0@ by {
                    assert(ns[a].0 == orig[a].0 && ns[b].0 == orig[b].0);
                }
            }
            assert forall|k: NodeIdView| #[trigger] old(self)@.contains_key(k) implies self@.contains_key(k) && self@[k] == (if contains_id(dead_nodes@, k) {
                old(self)@[k]
            } else {
                NodeStateView {
                    key_values: old(self)@[k].after_gc(marked_for_deletion_grace_period),
                    max_version: old(self)@[k].max_version,
                }
            }) by {
                lemma_to_map_dom(orig, k);
                let j = choose|j: int| 0 <= j < orig.len() && #[trigger] orig[j].0@ == k;
                assert(ns[j].0 == orig[j].0);
                lemma_to_map_at(orig, j);
                lemma_to_map_at(ns, j);
            }
            assert forall|k: NodeIdView| #[trigger] self@.contains_key(k) implies old(self)@.contains_key(k) by {
                lemma_to_map_dom(ns, k);
                lemma_to_map_dom(orig, k);
                let j = choose|j: int| 0 <= j < ns.len() && #[trigger] ns[j].0@ == k;
                assert(ns[j].0 == orig[j].0);
            }
            assert(self@.dom() =~= old(self)@.dom());
        }
    }

    /// Drops every node that `reset` names.
    fn drop_reset_nodes(&mut self, reset: &Vec<NodeId>)
        requires
            old(self).wf(),
        ensures
            final(self).wf(),
            final(self)@ == without_reset(old(self)@, reset@),
            forall|i: int|
                0 <= i < final(self).node_states@.len() ==> exists|j: int|
                    0 <= j < old(self).node_states@.len() && old(self).node_states@[j] == #[trigger] final(self).node_states@[i],
    {
        let ghost orig = self.node_states@;
        let mut rest: Vec<(NodeId, NodeState)> = Vec::new();
        std::mem::swap(&mut self.node_states, &mut rest);
        let n = rest.len();
        let mut k: usize = 0;
        while k < n
            invariant
                k <= n == orig.len(),
                rest@ == orig.skip(k as int),
                keys_distinct(orig),
                ids_sorted(orig),
                forall|j: int| 0 <= j < orig.len() ==> (#[trigger] orig[j]).1.wf(),
                self.wf(),
                forall|j: int| 0 <= j < self.node_states@.len() ==> has_key(orig.take(k as int), #[trigger] self.node_states@[j].0@),
                self@ == without_reset(to_map(orig.take(k as int)), reset@),
                forall|i: int|
                    0 <= i < self.node_states@.len() ==> exists|j: int| 0 <= j < orig.len() && orig[j] == #[trigger] self.node_states@[i],
            decreases n - k,
        {
            let ghost pre = orig.take(k as int);
            let entry = rest.remove(0);
            proof {
                assert(entry == orig[k as int]);
                assert(orig.take(k + 1) =~= pre.push(entry));
                lemma_to_map_push(pre, entry);
                assert(!has_key(pre, entry.0@)) by {
                    if has_key(pre, entry.0@) {
                        let j = choose|j: int| 0 <= j < pre.len() && #[trigger] pre[j].0@ == entry.0@;
                        assert(pre[j] == orig[j]);
                    }
                }
                assert forall|j: int| 0 <= j < self.node_states@.len() implies has_key(orig.take(k + 1), #[trigger] self.node_states@[j].0@) by {
                    let m = choose|m: int| 0 <= m < pre.len() && #[trigger] pre[m].0@ == self.node_states@[j].0@;
                    assert(orig.take(k + 1)[m] == pre[m]);
                }
                assert(rest@ =~= orig.skip(k + 1));
            }
            if !ids_contain(reset, &entry.0) {
                let ghost s = self.node_states@;
                proof {
                    assert(!has_key(s, entry.0@)) by {
                        if has_key(s, entry.0@) {
                            let j = choose|j: int| 0 <= j < s.len() && #[trigger] s[j].0@ == entry.0@;
                            assert(has_key(pre, s[j].0@));
                        }
                    }
                    lemma_push_distinct(s, entry);
                    lemma_to_map_push(s, entry);
                    assert forall|j: int| 0 <= j < s.len() implies node_lt(#[trigger] s[j].0@, entry.0@) by {
                        let w = choose|w: int| 0 <= w < pre.len() && #[trigger] pre[w].0@ == s[j].0@;
                        assert(pre[w] == orig[w]);
                        assert(node_lt(orig[w].0@, orig[k as int].0@));
                    }
                }
                self.node_states.push(entry);
                proof {
                    assert forall|a: int, b: int| 0 <= a < b < self.node_states@.len() implies node_lt(#[trigger] self.node_states@[a].0@, #[trigger] self.node_states@[b].0@) by {
                        assert(self.node_states@[a] == s[a]);
                        if b < s.len() {
                            assert(self.node_states@[b] == s[b]);
                        }
                    }
                    assert forall|j: int| 0 <= j < self.node_states@.len() implies (#[trigger] self.node_states@[j]).1.wf() by {
                        if j < s.len() {
                            assert(self.node_states@[j] == s[j]);
                        }
                    }
                    assert forall|i: int|
                        0 <= i < self.node_states@.len() implies exists|j: int| 0 <= j < orig.len() && orig[j] == #[trigger] self.node_states@[i] by {
                        if i == s.len() {
                            assert(orig[k as int] == self.node_states@[i]);
                        } else {
                            assert(self.node_states@[i] == s[i]);
                        }
                    }
                    assert forall|j: int| 0 <= j < self.node_states@.len() implies has_key(orig.take(k + 1), #[trigger] self.node_states@[j].0@) by {
                        if j == s.len() {
                            assert(orig.take(k + 1)[k as int] == entry);
                        } else {
                            assert(self.node_states@[j] == s[j]);
                        }
                    }
                }
            }
            k = k + 1;
            proof {
                assert(self@ =~= without_reset(to_map(orig.take(k as int)), reset@));
            }
        }
        proof {
            assert(orig.take(n as int) =~= orig);
        }
    }

    /// Applies the updates of one section to the state of its node.
    fn apply_section(&mut self, node_id: &NodeId, key_values: &Vec<(String, crate::types::VersionedValue)>, now: std::time::Instant)
        requires
            old(self).wf(),
        ensures
            final(self).wf(),
            final(self)@ == old(self)@.insert(
                node_id@,
                apply_updates(node_or_empty(old(self)@, node_id@), key_values@),
            ),
            forall|i: int|
                0 <= i < final(self).node_states@.len() && (#[trigger] final(self).node_states@[i]).0@ == node_id@
                    ==> final(self).node_states@[i].1.last_heartbeat == now,
            forall|i: int|
                0 <= i < final(self).node_states@.len() && (#[trigger] final(self).node_states@[i]).0@ != node_id@
                    ==> exists|j: int| 0 <= j < old(self).node_states@.len() && old(self).node_states@[j] == final(self).node_states@[i],
    {
        let ghost prev = self@;
        let ghost base = node_or_empty(prev, node_id@);
        let idx = self.entry_index(node_id);
        let ghost after_entry = self.node_states@;
        proof {
            assert(key_values@.take(0) =~= Seq::<(String, crate::types::VersionedValue)>::empty());
        }
        let mut t: usize = 0;
        while t < key_values.len()
            invariant
                t <= key_values@.len(),
                self.wf(),
                idx < self.node_states@.len(),
                self.node_states@[idx as int].0@ == node_id@,
                self@ == prev.insert(node_id@, apply_updates(base, key_values@.take(t as int))),
                self.node_states@.len() == after_entry.len(),
                forall|i: int| 0 <= i < after_entry.len() && i != idx ==> #[trigger] self.node_states@[i] == after_entry[i],
            decreases key_values@.len() - t,
        {
            let ghost s = self.node_states@;
            proof {
                lemma_to_map_at(s, idx as int);
                assert(s[idx as int].1.wf());
            }
            let key = key_values[t].0.clone();
            let value = key_values[t].1.clone();
            self.node_states[idx].1.apply_update(key, value);
            proof {
                lemma_to_map_update(s, idx as int, self.node_states@[idx as int]);
                assert(key_values@.take(t + 1).drop_last() =~= key_values@.take(t as int));
                assert forall|j: int| 0 <= j < self.node_states@.len() implies (#[trigger] self.node_states@[j]).1.wf() by {
                    if j != idx {
                        assert(self.node_states@[j] == s[j]);
                    }
                }
            }
            t = t + 1;
        }
        proof {
            assert(key_values@.take(t as int) =~= key_values@);
        }
        let ghost s = self.node_states@;
        proof {
            lemma_to_map_at(s, idx as int);
        }
        self.node_states[idx].1.refresh_heartbeat(now);
        proof {
            lemma_to_map_update(s, idx as int, self.node_states@[idx as int]);
            assert forall|i: int|
                0 <= i < self.node_states@.len() && (#[trigger] self.node_states@[i]).0@ == node_id@
                    implies self.node_states@[i].1.last_heartbeat == now by {
                if i != idx {
                    assert(self.node_states@[i] == s[i]);
                    assert(s[i].0@ != s[idx as int].0@);
                }
            }
            assert forall|i: int|
                0 <= i < self.node_states@.len() && (#[trigger] self.node_states@[i]).0@ != node_id@
                    implies exists|j: int| 0 <= j < old(self).node_states@.len() && old(self).node_states@[j] == self.node_states@[i] by {
                assert(self.node_states@[i] == s[i]);
                assert(s[i] == after_entry[i]);
                assert(after_entry[i].0@ != node_id@);
            }
            assert forall|j: int| 0 <= j < self.node_states@.len() implies (#[trigger] self.node_states@[j]).1.wf() by {
                if j != idx {
                    assert(self.node_states@[j] == s[j]);
                }
            }
            assert(self@ =~= prev.insert(node_id@, apply_updates(base, key_values@)));
        }
    }

    /// Applies a delta received from a peer at time `now`: reset nodes are
    /// dropped, then every section is applied and its node's heartbeat set
    /// to `now`.
    pub fn apply_delta_at(&mut self, delta: Delta, now: std::time::Instant)
        requires
            old(self).wf(),
        ensures
            final(self).wf(),
            final(self)@ == apply_delta_spec(old(self)@, delta),
            heartbeats_after(old(self).node_states@, delta, final(self).node_states@, now),
    {
        let ghost orig = self.node_states@;
        self.drop_reset_nodes(&delta.nodes_to_reset);
        let ghost start = self@;
        let mut j: usize = 0;
        proof {
            assert(delta.node_deltas@.take(0) =~= Seq::<(NodeId, NodeDelta)>::empty());
        }
        while j < delta.node_deltas.len()
            invariant
                j <= delta.node_deltas@.len(),
                self.wf(),
                self@ == apply_sections(start, delta.node_deltas@.take(j as int)),
                forall|i: int|
                    0 <= i < self.node_states@.len() ==> if has_section(delta.node_deltas@.take(j as int), (#[trigger] self.node_states@[i]).0@) {
                        self.node_states@[i].1.last_heartbeat == now
                    } else {
                        exists|jj: int| 0 <= jj < orig.len() && orig[jj] == self.node_states@[i]
                    },
            decreases delta.node_deltas@.len() - j,
        {
            let ghost before = self.node_states@;
            self.apply_section(&delta.node_deltas[j].0, &delta.node_deltas[j].1.key_values, now);
            proof {
                let secs = delta.node_deltas@;
                assert(secs.take(j + 1).drop_last() =~= secs.take(j as int));
                assert forall|i: int|
                    0 <= i < self.node_states@.len() implies if has_section(secs.take(j + 1), (#[trigger] self.node_states@[i]).0@) {
                        self.node_states@[i].1.last_heartbeat == now
                    } else {
                        exists|jj: int| 0 <= jj < orig.len() && orig[jj] == self.node_states@[i]
                    } by {
                    let k = self.node_states@[i].0@;
                    if k == secs[j as int].0@ {
                        assert(secs.take(j + 1)[j as int].0@ == k);
                    } else {
                        let bi = choose|bi: int| 0 <= bi < before.len() && before[bi] == self.node_states@[i];
                        assert(self.node_states@[i] == before[bi]);
                        if has_section(secs.take(j + 1), k) {
                            let w = choose|w: int| 0 <= w < j + 1 && #[trigger] secs.take(j + 1)[w].0@ == k;
                            assert(secs.take(j as int)[w] == secs.take(j + 1)[w]);
                        }
                        if has_section(secs.take(j as int), k) {
                            let w = choose|w: int| 0 <= w < j && #[trigger] secs.take(j as int)[w].0@ == k;
                            assert(secs.take(j as int)[w] == secs.take(j + 1)[w]);
                        }
                    }
                }
            }
            j = j + 1;
        }
        proof {
            assert(delta.node_deltas@.take(j as int) =~= delta.node_deltas@);
        }
    }

    /// Applies a delta received from a peer, timestamping the refreshed
    /// nodes with one reading of the clock.
    pub fn apply_delta(&mut self, delta: Delta)
        requires
            old(self).wf(),
        ensures
            final(self).wf(),
            final(self)@ == apply_delta_spec(old(self)@, delta),
            exists|now: std::time::Instant| heartbeats_after(old(self).node_states@, delta, final(self).node_states@, now),
    {
        let now = clock_now();
        self.apply_delta_at(delta, now);
    }

    /// Whether the peer must reset `st`, given the floor the digest gives.
    fn must_reset(floor: u64, st: &NodeState, grace_period: usize) -> (r: bool)
        ensures
            r == needs_reset(floor, st@, grace_period),
    {
        floor > 0 && (floor as u128) + (grace_period as u128) < st.max_version as u128
    }

    /// Scuttlebutt reconciliation with scuttle-depth ordering: the updates
    /// the peer that sent `digest` misses, within `mtu` bytes. Nodes with
    /// more stale entries come first; ties are broken by a generator seeded
    /// with `seed`.
    #[verifier::rlimit(60)]
    pub fn compute_delta_seeded(
        &self,
        digest: &Digest,
        mtu: usize,
        dead_nodes: &Vec<NodeId>,
        marked_for_deletion_grace_period: usize,
        seed: u64,
    ) -> (r: Delta)
        requires
            self.wf(),
            digest.wf(),
        ensures
            delta_ok(self@, digest@, dead_nodes@, mtu, marked_for_deletion_grace_period, r),
    {
        let grace = marked_for_deletion_grace_period;
        let ghost m = self@;
        let ghost ns = self.node_states@;
        let mut writer = DeltaWriter::with_mtu(mtu);
        let mut sorted = NodeSortedByStaleLength::new();
        let mut i: usize = 0;
        while i < self.node_states.len()
            invariant
                i <= ns.len(),
                ns == self.node_states@,
                m == self@,
                self.wf(),
                digest.wf(),
                writer.wf(),
                writer.mtu == mtu,
                writer.delta.node_deltas@.len() == 0,
                sorted.wf(),
                forall|j: int| 0 <= j < writer.delta.nodes_to_reset@.len() ==> reset_ok(m, digest@, dead_nodes@, grace, #[trigger] writer.delta.nodes_to_reset@[j]@),
                !writer.reached_capacity ==> forall|j: int|
                    0 <= j < i && reset_ok(m, digest@, dead_nodes@, grace, #[trigger] ns[j].0@) ==> contains_id(writer.delta.nodes_to_reset@, ns[j].0@),
                forall|k: NodeIdView| #[trigger] sorted.stale_lengths().contains_key(k) ==> has_key(ns.take(i as int), k) && m.contains_key(k) && !contains_id(dead_nodes@, k),
                forall|k: NodeIdView| #[trigger] sorted.stale_lengths().contains_key(k) ==> sorted.stale_lengths()[k] == stale_count(m, digest@, grace, k),
                forall|k: NodeIdView| #[trigger] sorted.stale_lengths().contains_key(k) ==> sorted.stale_lengths()[k] > 0,
                forall|j: int| 0 <= j < i && is_candidate(m, digest@, dead_nodes@, grace, #[trigger] ns[j].0@) ==> sorted.stale_lengths().contains_key(ns[j].0@),
                writer.reached_capacity ==> mtu < EMPTY_DELTA_SIZE || exists|k: NodeIdView| #[trigger] reset_ok(m, digest@, dead_nodes@, grace, k)
                    && !contains_id(writer.delta.nodes_to_reset@, k) && serialized_size(writer.delta) + node_id_size(k) > mtu,
                forall|t: int| 0 <= t < writer.delta.nodes_to_reset@.len() ==> has_key(ns.take(i as int), (#[trigger] writer.delta.nodes_to_reset@[t])@),
                forall|a: int, b: int| 0 <= a < b < writer.delta.nodes_to_reset@.len() ==> #[trigger] writer.delta.nodes_to_reset@[a]@ != #[trigger] writer.delta.nodes_to_reset@[b]@,
                grace == marked_for_deletion_grace_period,
            decreases ns.len() - i,
        {
            let node_id = &self.node_states[i].0;
            let node_state = &self.node_states[i].1;
            proof {
                lemma_to_map_at(ns, i as int);
                assert(ns[i as int].1.wf());
                assert(ns.take(i + 1)[i as int] == ns[i as int]);
                assert forall|k: NodeIdView| #[trigger] sorted.stale_lengths().contains_key(k) implies has_key(ns.take(i + 1), k) by {
                    let j = choose|j: int| 0 <= j < i && #[trigger] ns.take(i as int)[j].0@ == k;
                    assert(ns.take(i + 1)[j] == ns.take(i as int)[j]);
                }
                let rs = writer.delta.nodes_to_reset@;
                assert forall|t: int| 0 <= t < rs.len() implies has_key(ns.take(i + 1), (#[trigger] rs[t])@) by {
                    let j = choose|j: int| 0 <= j < i && #[trigger] ns.take(i as int)[j].0@ == rs[t]@;
                    assert(ns.take(i + 1)[j] == ns.take(i as int)[j]);
                }
                assert(!has_key(ns.take(i as int), ns[i as int].0@)) by {
                    if has_key(ns.take(i as int), ns[i as int].0@) {
                        let j = choose|j: int| 0 <= j < i && #[trigger] ns.take(i as int)[j].0@ == ns[i as int].0@;
                        assert(ns.take(i as int)[j] == ns[j]);
                    }
                }
                assert(!contains_id(rs, ns[i as int].0@)) by {
                    if contains_id(rs, ns[i as int].0@) {
                        let t = choose|t: int| 0 <= t < rs.len() && #[trigger] rs[t]@ == ns[i as int].0@;
                        assert(has_key(ns.take(i as int), rs[t]@));
                    }
                }
            }
            if !ids_contain(dead_nodes, node_id) {
                let digest_version = match digest.get(node_id) {
                    Some(v) => v,
                    None => 0,
                };
                let reset = Self::must_reset(digest_version, node_state, grace);
                let ghost resets_before = writer.delta.nodes_to_reset@;
                if reset {
                    let ghost was_full = writer.reached_capacity;
                    let added = writer.add_node_to_reset(node_id.clone());
                    proof {
                        if !added && !was_full {
                            assert(reset_ok(m, digest@, dead_nodes@, grace, ns[i as int].0@));
                            assert(encode_node_id(ns[i as int].0).len() == node_id_size(ns[i as int].0@));
                        }
                        if added {
                            assert(writer.delta.nodes_to_reset@.last() == ns[i as int].0);
                            let rs = writer.delta.nodes_to_reset@;
                            assert forall|t: int| 0 <= t < rs.len() implies has_key(ns.take(i + 1), (#[trigger] rs[t])@) by {
                                if t < resets_before.len() {
                                    assert(rs[t] == resets_before[t]);
                                } else {
                                    assert(ns.take(i + 1)[i as int] == ns[i as int]);
                                }
                            }
                            assert forall|a: int, b: int| 0 <= a < b < rs.len() implies #[trigger] rs[a]@ != #[trigger] rs[b]@ by {
                                assert(rs[a] == resets_before[a]);
                                if b < resets_before.len() {
                                    assert(rs[b] == resets_before[b]);
                                } else {
                                    assert(!contains_id(resets_before, ns[i as int].0@));
                                }
                            }
                            assert forall|j: int| 0 <= j < i + 1 && reset_ok(m, digest@, dead_nodes@, grace, #[trigger] ns[j].0@) implies contains_id(writer.delta.nodes_to_reset@, ns[j].0@) by {
                                if j < i {
                                    let t = choose|t: int| 0 <= t < resets_before.len() && #[trigger] resets_before[t]@ == ns[j].0@;
                                    assert(writer.delta.nodes_to_reset@[t] == resets_before[t]);
                                } else {
                                    assert(writer.delta.nodes_to_reset@[resets_before.len() as int]@ == ns[j].0@);
                                }
                            }
                        }
                    }
                }
                let floor = if reset {
                    0
                } else {
                    digest_version
                };
                let stale = node_state.iter_stale_key_values(floor).len();
                proof {
                    node_state.lemma_stale_count(floor);
                    assert(stale == stale_count(m, digest@, grace, ns[i as int].0@));
                }
                if stale > 0 {
                    proof {
                        assert(!sorted.stale_lengths().contains_key(node_id@)) by {
                            if sorted.stale_lengths().contains_key(node_id@) {
                                let j = choose|j: int| 0 <= j < i && #[trigger] ns.take(i as int)[j].0@ == node_id@;
                                assert(ns.take(i as int)[j] == ns[j]);
                            }
                        }
                    }
                    sorted.insert(node_id, stale);
                }
            }
            i = i + 1;
        }
        let ghost resets = writer.delta.nodes_to_reset@;
        proof {
            assert forall|k: NodeIdView| !writer.reached_capacity && reset_ok(m, digest@, dead_nodes@, grace, k) implies contains_id(resets, k) by {
                lemma_to_map_dom(ns, k);
                let j = choose|j: int| 0 <= j < ns.len() && #[trigger] ns[j].0@ == k;
            }
            assert forall|k: NodeIdView| #[trigger] sorted.stale_lengths().contains_key(k) implies m.contains_key(k) && !contains_id(dead_nodes@, k) by {}
        }
        let ghost candidates = sorted.stale_lengths();
        let order = sorted.into_iter(seed);
        proof {
            assert forall|k: NodeIdView| #[trigger] is_candidate(m, digest@, dead_nodes@, grace, k) implies candidates.contains_key(k) by {
                lemma_to_map_dom(ns, k);
                let j = choose|j: int| 0 <= j < ns.len() && #[trigger] ns[j].0@ == k;
            }
        }
        let mut q: usize = 0;
        while q < order.len()
            invariant
                q <= order@.len(),
                m == self@,
                self.wf(),
                digest.wf(),
                writer.wf(),
                writer.mtu == mtu,
                grace == marked_for_deletion_grace_period,
                writer.delta.nodes_to_reset@ == resets,
                forall|j: int| 0 <= j < resets.len() ==> reset_ok(m, digest@, dead_nodes@, grace, #[trigger] resets[j]@),
                forall|k: NodeIdView| !writer.reached_capacity && reset_ok(m, digest@, dead_nodes@, grace, k) ==> contains_id(resets, k),
                forall|k: NodeIdView| #[trigger] candidates.contains_key(k) ==> m.contains_key(k) && !contains_id(dead_nodes@, k),
                forall|k: NodeIdView| #[trigger] candidates.contains_key(k) ==> candidates[k] == stale_count(m, digest@, grace, k),
                forall|k: NodeIdView| #[trigger] candidates.contains_key(k) ==> candidates[k] > 0,
                forall|k: NodeIdView| #[trigger] is_candidate(m, digest@, dead_nodes@, grace, k) ==> candidates.contains_key(k),
                forall|k: NodeIdView| #[trigger] candidates.contains_key(k) ==> exists|t: int| 0 <= t < order@.len() && #[trigger] order@[t]@ == k,
                forall|t: int| 0 <= t < order@.len() ==> candidates.contains_key(#[trigger] order@[t]@),
                forall|t: int, u: int| 0 <= t < u < order@.len() ==> candidates[#[trigger] order@[t]@] >= candidates[#[trigger] order@[u]@],
                forall|j: int| 0 <= j < writer.delta.node_deltas@.len() ==> section_ok(m, digest@, dead_nodes@, grace, resets, #[trigger] writer.delta.node_deltas@[j], true),
                writer.delta.node_deltas@.len() == q,
                forall|j: int| 0 <= j < q ==> (#[trigger] writer.delta.node_deltas@[j]).0 == order@[j],
                writer.reached_capacity ==> mtu < EMPTY_DELTA_SIZE || reset_refused(m, digest@, dead_nodes@, mtu, grace, writer.delta)
                    || header_refused(m, digest@, dead_nodes@, mtu, grace, writer.delta),
                forall|a: int, b: int| 0 <= a < b < resets.len() ==> #[trigger] resets[a]@ != #[trigger] resets[b]@,
                forall|t: int, u: int| 0 <= t < u < order@.len() ==> #[trigger] order@[t]@ != #[trigger] order@[u]@,
            ensures
                q == order@.len() || writer.reached_capacity,
            decreases order@.len() - q,
        {
            let node_id = &order[q];
            proof {
                assert(candidates.contains_key(order@[q as int]@));
            }
            let ghost was_full = writer.reached_capacity;
            let ghost before = writer.delta.node_deltas@;
            if !writer.add_node(node_id.clone()) {
                proof {
                    if !was_full {
                        assert(is_candidate(m, digest@, dead_nodes@, grace, node_id@));
                        assert(encode_node_id(*node_id).len() == node_id_size(node_id@));
                        assert(!has_section(before, node_id@)) by {
                            if has_section(before, node_id@) {
                                let j = choose|j: int| 0 <= j < before.len() && #[trigger] before[j].0@ == node_id@;
                                assert(before[j].0 == order@[j]);
                            }
                        }
                        assert(resets_complete(m, digest@, dead_nodes@, grace, writer.delta));
                        if before.len() > 0 {
                            assert(section_ok(m, digest@, dead_nodes@, grace, resets, before[before.len() - 1], true));
                        }
                        assert(header_refused(m, digest@, dead_nodes@, mtu, grace, writer.delta));
                    }
                }
                break;
            }
            let idx = match find_node(&self.node_states, node_id) {
                Some(idx) => idx,
                None => {
                    proof {
                        lemma_to_map_dom(self.node_states@, node_id@);
                    }
                    return writer.into_delta();
                },
            };
            let node_state = &self.node_states[idx].1;
            proof {
                lemma_to_map_at(self.node_states@, idx as int);
                assert(self.node_states@[idx as int].1.wf());
            }
            let digest_version = match digest.get(node_id) {
                Some(v) => v,
                None => 0,
            };
            let floor = if Self::must_reset(digest_version, node_state, grace) {
                0
            } else {
                digest_version
            };
            let indices = node_state.stale_indices_by_version(floor);
            let all_written = write_entries(&mut writer, node_state, &indices);
            let ghost secs = writer.delta.node_deltas@;
            let ghost sec = secs.last();
            proof {
                assert(m[node_id@] == node_state@);
                assert(!was_full);
                lemma_section_ok(m, digest@, dead_nodes@, grace, resets, *node_state, indices@, sec);
                assert forall|a: int, b: int| 0 <= a < b < secs.len() implies stale_count(m, digest@, grace, #[trigger] secs[a].0@)
                    >= stale_count(m, digest@, grace, #[trigger] secs[b].0@) by {
                    assert(secs[a].0 == order@[a]) by {
                        if a < q {
                            assert(secs[a] == before[a]);
                        }
                    }
                    assert(secs[b].0 == order@[b]) by {
                        if b < q {
                            assert(secs[b] == before[b]);
                        }
                    }
                }
                assert forall|j: int| 0 <= j < secs.len() - 1 implies section_ok(m, digest@, dead_nodes@, grace, resets, #[trigger] secs[j], true) by {
                    assert(secs[j] == before[j]);
                }
            }
            if !all_written {
                proof {
                    let n = sec.1.key_values@.len();
                    let j = indices@[n as int];
                    let kvs = node_state.key_values@;
                    let key = kvs[j as int].0@;
                    lemma_to_map_at(kvs, j as int);
                    assert(!(exists|i: int| 0 <= i < n && #[trigger] sec.1.key_values@[i].0@ == key)) by {
                        if exists|i: int| 0 <= i < n && #[trigger] sec.1.key_values@[i].0@ == key {
                            let i = choose|i: int| 0 <= i < n && #[trigger] sec.1.key_values@[i].0@ == key;
                            assert(sec.1.key_values@[i] == kvs[indices@[i] as int]);
                            assert(precedes(kvs, indices@[i] as int, indices@[n as int] as int));
                        }
                    }
                    assert(encode_kv(kvs[j as int]).len() == kv_size(key, kvs[j as int].1@));
                    assert(m[sec.0@].key_values.contains_key(key));
                    lemma_delta_size(writer.delta);
                    assert(resets_complete(m, digest@, dead_nodes@, grace, writer.delta));
                    assert(update_refused(m, digest@, dead_nodes@, mtu, grace, writer.delta));
                    assert forall|j: int| 0 <= j < secs.len() implies (#[trigger] secs[j]).0 == order@[j] by {
                        if j < before.len() {
                            assert(secs[j] == before[j]);
                        }
                    }
                    lemma_sections_by_depth(m, digest@, dead_nodes@, grace, candidates, order@, secs);
                    lemma_delta_ok_intro(m, digest@, dead_nodes@, mtu, grace, writer.delta);
                }
                return writer.into_delta();
            }
            proof {
                assert forall|j: int| 0 <= j < secs.len() implies section_ok(m, digest@, dead_nodes@, grace, resets, #[trigger] secs[j], true) by {
                    if j < before.len() {
                        assert(secs[j] == before[j]);
                    }
                }
                assert forall|j: int| 0 <= j < q + 1 implies (#[trigger] secs[j]).0 == order@[j] by {
                    if j < before.len() {
                        assert(secs[j] == before[j]);
                    }
                }
            }
            q = q + 1;
        }
        proof {
            lemma_delta_size(writer.delta);
            let secs = writer.delta.node_deltas@;
            assert forall|a: int, b: int| 0 <= a < b < secs.len() implies stale_count(m, digest@, grace, #[trigger] secs[a].0@)
                >= stale_count(m, digest@, grace, #[trigger] secs[b].0@) by {
                assert(secs[a].0 == order@[a]);
                assert(secs[b].0 == order@[b]);
            }
            if !writer.reached_capacity {
                assert forall|k: NodeIdView| #[trigger] is_candidate(m, digest@, dead_nodes@, grace, k) implies has_section(secs, k) by {
                    let t = choose|t: int| 0 <= t < order@.len() && #[trigger] order@[t]@ == k;
                    assert(secs[t].0 == order@[t]);
                }
                if secs.len() > 0 {
                    assert(section_ok(m, digest@, dead_nodes@, grace, resets, secs[secs.len() - 1], true));
                }
                assert(delta_complete(m, digest@, dead_nodes@, grace, writer.delta));
            }
            if secs.len() > 0 {
                assert(section_ok(m, digest@, dead_nodes@, grace, resets, secs.last(), true));
                lemma_section_ok_weaken(m, digest@, dead_nodes@, grace, resets, secs.last());
            }
            assert(mtu >= EMPTY_DELTA_SIZE ==> serialized_size(writer.delta) <= mtu);
            assert(mtu < EMPTY_DELTA_SIZE ==> resets.len() == 0 && secs.len() == 0);
            assert(forall|i: int| 0 <= i < resets.len() ==> reset_ok(m, digest@, dead_nodes@, grace, #[trigger] resets[i]@));
            assert(forall|i: int| 0 <= i < secs.len() - 1 ==> section_ok(m, digest@, dead_nodes@, grace, resets, #[trigger] secs[i], true));
            assert(mtu >= EMPTY_DELTA_SIZE ==> delta_complete(m, digest@, dead_nodes@, grace, writer.delta) || budget_exhausted(m, digest@, dead_nodes@, mtu, grace, writer.delta));
            lemma_sections_by_depth(m, digest@, dead_nodes@, grace, candidates, order@, secs);
            lemma_delta_ok_intro(m, digest@, dead_nodes@, mtu, grace, writer.delta);
        }
        writer.into_delta()
    }

    /// `compute_delta_seeded` with a seed drawn at random.
    pub fn compute_delta(
        &self,
        digest: &Digest,
        mtu: usize,
        dead_nodes: &Vec<NodeId>,
        marked_for_deletion_grace_period: usize,
    ) -> (r: Delta)
        requires
            self.wf(),
            digest.wf(),
        ensures
            delta_ok(self@, digest@, dead_nodes@, mtu, marked_for_deletion_grace_period, r),
    {
        let seed = random_seed();
        self.compute_delta_seeded(digest, mtu, dead_nodes, marked_for_deletion_grace_period, seed)
    }
}

} // verus!
