//! Properties that relate the operations of the engine to each other.
use vstd::prelude::*;

use crate::cluster_state::{
    apply_delta_spec, apply_sections, delta_complete, delta_ok, has_section, is_candidate, stale_count, digest_floor, digest_spec, empty_node_view, node_or_empty, reset_ok,
    section_ok, send_floor, without_reset, ClusterState, NodeIdView,
};
use crate::delta::{encode_ids, encode_sections, lemma_delta_size, Delta, NodeDelta, EMPTY_DELTA_SIZE};
use crate::node_state::{after_mark, after_set, apply_update, apply_updates, NodeState, NodeStateView};
use crate::types::{contains_id, NodeId, VersionedValue, VersionedValueView};

verus! {

/// In every well-formed node state, `max_version` bounds the version of
/// every stored entry.
pub proof fn law_max_version_bounds_entries(s: NodeState, key: Seq<char>)
    requires
        s.wf(),
        s@.key_values.contains_key(key),
    ensures
        s@.key_values[key].version <= s@.max_version,
{
    s.lemma_versions_bounded();
}

/// The same holds for the state of every node of a well-formed cluster.
pub proof fn law_max_version_bounds_cluster(c: ClusterState, id: NodeIdView, key: Seq<char>)
    requires
        c.wf(),
        c@.contains_key(id),
        c@[id].key_values.contains_key(key),
    ensures
        c@[id].key_values[key].version <= c@[id].max_version,
{
    c.lemma_states_wf(id);
    let i = choose|i: int| 0 <= i < c.node_states@.len() && c.node_states@[i].0@ == id
        && #[trigger] c.node_states@[i].1@ == c@[id] && c.node_states@[i].1.wf();
    c.node_states@[i].1.lemma_versions_bounded();
}

/// A local write stores its key at a version above the one stored before.
pub proof fn law_set_raises_version(s: NodeState, key: Seq<char>, value: Seq<char>)
    requires
        s.wf(),
        s.max_version < u64::MAX,
        s@.key_values.contains_key(key),
    ensures
        after_set(s@, key, value).key_values[key].version > s@.key_values[key].version,
{
    s.lemma_versions_bounded();
}

/// A local deletion stores its key at a version above the one stored before.
pub proof fn law_mark_raises_version(s: NodeState, key: Seq<char>)
    requires
        s.wf(),
        s.max_version < u64::MAX,
        s@.key_values.contains_key(key),
    ensures
        after_mark(s@, key).key_values[key].version > s@.key_values[key].version,
{
    s.lemma_versions_bounded();
}

/// An incoming update replaces a stored entry only by one of strictly greater
/// version; a stored version never goes down.
pub proof fn law_update_raises_version(s: NodeStateView, key: Seq<char>, v: VersionedValueView, k: Seq<char>)
    requires
        s.key_values.contains_key(k),
    ensures
        apply_update(s, key, v).key_values.contains_key(k),
        apply_update(s, key, v).key_values[k].version >= s.key_values[k].version,
        apply_update(s, key, v).key_values[k] != s.key_values[k] ==> apply_update(s, key, v).key_values[k].version
            > s.key_values[k].version,
{
}

/// No two keys of `s` are stored at the same version.
pub open spec fn versions_distinct(s: NodeStateView) -> bool {
    forall|k1: Seq<char>, k2: Seq<char>|
        #[trigger] s.key_values.contains_key(k1) && #[trigger] s.key_values.contains_key(k2) && k1 != k2
            ==> s.key_values[k1].version != s.key_values[k2].version
}

/// Local writes and deletions keep the versions of a node's keys distinct.
pub proof fn law_local_writes_keep_versions_distinct(s: NodeState, key: Seq<char>, value: Seq<char>)
    requires
        s.wf(),
        s.max_version < u64::MAX,
        versions_distinct(s@),
    ensures
        versions_distinct(after_set(s@, key, value)),
        versions_distinct(after_mark(s@, key)),
{
    s.lemma_versions_bounded();
}

/// Reading a key right after writing it gives the written value; reading it
/// right after deleting it gives nothing.
pub proof fn law_set_then_get(s: NodeStateView, key: Seq<char>, value: Seq<char>)
    ensures
        after_set(s, key, value).get(key) == Some(value),
        after_mark(s, key).get(key).is_none(),
{
}

/// Within a section of a computed delta, versions strictly ascend when the
/// node never stored two entries at one version (as local writes ensure).
pub proof fn law_section_versions_ascend(
    m: Map<NodeIdView, NodeStateView>,
    digest: Map<NodeIdView, u64>,
    dead: Seq<NodeId>,
    grace_period: usize,
    resets: Seq<NodeId>,
    sec: (NodeId, NodeDelta),
    complete: bool,
    i: int,
    j: int,
)
    requires
        section_ok(m, digest, dead, grace_period, resets, sec, complete),
        versions_distinct(m[sec.0@]),
        0 <= i < j < sec.1.key_values@.len(),
    ensures
        sec.1.key_values@[i].1.version < sec.1.key_values@[j].1.version,
{
    let kvs = sec.1.key_values@;
    assert(m[sec.0@].key_values.contains_key(kvs[i].0@));
    assert(m[sec.0@].key_values.contains_key(kvs[j].0@));
    assert(kvs[i].0@ != kvs[j].0@);
}

proof fn lemma_ids_len(s: Seq<NodeId>)
    ensures
        s.len() > 0 ==> encode_ids(s).len() >= 16,
    decreases s.len(),
{
}

proof fn lemma_sections_len(s: Seq<(NodeId, NodeDelta)>)
    ensures
        s.len() > 0 ==> encode_sections(s).len() >= 24,
    decreases s.len(),
{
}

/// A budget that holds the delta header but no node yields an empty delta.
pub proof fn law_tight_mtu_gives_empty_delta(
    m: Map<NodeIdView, NodeStateView>,
    digest: Map<NodeIdView, u64>,
    dead: Seq<NodeId>,
    mtu: usize,
    grace_period: usize,
    d: Delta,
)
    requires
        delta_ok(m, digest, dead, mtu, grace_period, d),
        mtu < EMPTY_DELTA_SIZE + 16,
    ensures
        d.nodes_to_reset@.len() == 0,
        d.node_deltas@.len() == 0,
{
    lemma_delta_size(d);
    lemma_ids_len(d.nodes_to_reset@);
    lemma_sections_len(d.node_deltas@);
}

/// A node that the digest does not list is sent from version 0: a complete
/// section of it holds every entry of the node.
pub proof fn law_unlisted_node_sent_in_full(
    m: Map<NodeIdView, NodeStateView>,
    digest: Map<NodeIdView, u64>,
    dead: Seq<NodeId>,
    grace_period: usize,
    resets: Seq<NodeId>,
    sec: (NodeId, NodeDelta),
    key: Seq<char>,
)
    requires
        section_ok(m, digest, dead, grace_period, resets, sec, true),
        !digest.contains_key(sec.0@),
        m[sec.0@].key_values.contains_key(key),
        m[sec.0@].key_values[key].version > 0,
    ensures
        send_floor(digest_floor(digest, sec.0@), m[sec.0@], grace_period) == 0,
        exists|i: int| 0 <= i < sec.1.key_values@.len() && #[trigger] sec.1.key_values@[i].0@ == key,
{
}

/// A node the peer already holds up to its `max_version` contributes no
/// update to a computed delta.
pub proof fn law_up_to_date_node_sends_nothing(
    c: ClusterState,
    digest: Map<NodeIdView, u64>,
    dead: Seq<NodeId>,
    mtu: usize,
    grace_period: usize,
    d: Delta,
    j: int,
)
    requires
        c.wf(),
        delta_ok(c@, digest, dead, mtu, grace_period, d),
        0 <= j < d.node_deltas@.len(),
        digest.contains_key(d.node_deltas@[j].0@),
        digest[d.node_deltas@[j].0@] >= c@[d.node_deltas@[j].0@].max_version,
    ensures
        d.node_deltas@[j].1.key_values@.len() == 0,
{
    let sec = d.node_deltas@[j];
    let id = sec.0@;
    let kvs = sec.1.key_values@;
    assert(section_ok(c@, digest, dead, grace_period, d.nodes_to_reset@, sec, j < d.node_deltas@.len() - 1));
    if kvs.len() > 0 {
        assert(c@[id].key_values.contains_key(kvs[0].0@));
        law_max_version_bounds_cluster(c, id, kvs[0].0@);
    }
}

/// A node deemed dead appears neither in the digest nor in a computed delta.
pub proof fn law_dead_node_left_out(
    m: Map<NodeIdView, NodeStateView>,
    digest: Map<NodeIdView, u64>,
    dead: Seq<NodeId>,
    mtu: usize,
    grace_period: usize,
    d: Delta,
    id: NodeIdView,
)
    requires
        contains_id(dead, id),
        delta_ok(m, digest, dead, mtu, grace_period, d),
    ensures
        !digest_spec(m, dead).contains_key(id),
        forall|i: int| 0 <= i < d.nodes_to_reset@.len() ==> #[trigger] d.nodes_to_reset@[i]@ != id,
        forall|i: int| 0 <= i < d.node_deltas@.len() ==> #[trigger] d.node_deltas@[i].0@ != id,
{
    assert forall|i: int| 0 <= i < d.nodes_to_reset@.len() implies #[trigger] d.nodes_to_reset@[i]@ != id by {
        assert(reset_ok(m, digest, dead, grace_period, d.nodes_to_reset@[i]@));
    }
    assert forall|i: int| 0 <= i < d.node_deltas@.len() implies #[trigger] d.node_deltas@[i].0@ != id by {
        if i < d.node_deltas@.len() - 1 {
            assert(section_ok(m, digest, dead, grace_period, d.nodes_to_reset@, d.node_deltas@[i], true));
        } else {
            assert(section_ok(m, digest, dead, grace_period, d.nodes_to_reset@, d.node_deltas@[i], false));
        }
    }
}

/// `t` holds at least what `s` holds: every key of `s` at no lower version,
/// and no lower `max_version`.
pub open spec fn covers(t: NodeStateView, s: NodeStateView) -> bool {
    &&& t.max_version >= s.max_version
    &&& forall|k: Seq<char>| #[trigger]
        s.key_values.contains_key(k) ==> t.key_values.contains_key(k) && t.key_values[k].version
            >= s.key_values[k].version
}

/// `s` already holds every update of `kvs`, at the same or a higher version.
pub open spec fn absorbs(s: NodeStateView, kvs: Seq<(String, VersionedValue)>) -> bool {
    forall|i: int|
        0 <= i < kvs.len() ==> s.key_values.contains_key(#[trigger] kvs[i].0@) && s.key_values[kvs[i].0@].version
            >= kvs[i].1.version && s.max_version >= kvs[i].1.version
}

/// The updates of all sections for `id`, in order.
pub open spec fn updates_for(secs: Seq<(NodeId, NodeDelta)>, id: NodeIdView) -> Seq<(String, VersionedValue)>
    decreases secs.len(),
{
    if secs.len() == 0 {
        Seq::empty()
    } else if secs.last().0@ == id {
        updates_for(secs.drop_last(), id) + secs.last().1.key_values@
    } else {
        updates_for(secs.drop_last(), id)
    }
}

proof fn lemma_covers_trans(a: NodeStateView, b: NodeStateView, c: NodeStateView)
    requires
        covers(a, b),
        covers(b, c),
    ensures
        covers(a, c),
{
}

proof fn lemma_updates_cover(s: NodeStateView, kvs: Seq<(String, VersionedValue)>)
    ensures
        covers(apply_updates(s, kvs), s),
    decreases kvs.len(),
{
    if kvs.len() > 0 {
        lemma_updates_cover(s, kvs.drop_last());
        let prev = apply_updates(s, kvs.drop_last());
        lemma_covers_trans(apply_updates(s, kvs), prev, s);
    }
}

proof fn lemma_absorbs_covered(s: NodeStateView, t: NodeStateView, kvs: Seq<(String, VersionedValue)>)
    requires
        absorbs(s, kvs),
        covers(t, s),
    ensures
        absorbs(t, kvs),
{
    assert forall|i: int| 0 <= i < kvs.len() implies t.key_values.contains_key(#[trigger] kvs[i].0@)
        && t.key_values[kvs[i].0@].version >= kvs[i].1.version && t.max_version >= kvs[i].1.version by {
        assert(s.key_values.contains_key(kvs[i].0@));
    }
}

proof fn lemma_updates_absorbed(s: NodeStateView, kvs: Seq<(String, VersionedValue)>)
    ensures
        absorbs(apply_updates(s, kvs), kvs),
    decreases kvs.len(),
{
    if kvs.len() > 0 {
        let init = kvs.drop_last();
        lemma_updates_absorbed(s, init);
        let prev = apply_updates(s, init);
        let next = apply_updates(s, kvs);
        lemma_absorbs_covered(prev, next, init);
        assert forall|i: int| 0 <= i < kvs.len() implies next.key_values.contains_key(#[trigger] kvs[i].0@)
            && next.key_values[kvs[i].0@].version >= kvs[i].1.version && next.max_version >= kvs[i].1.version by {
            if i < init.len() {
                assert(init[i] == kvs[i]);
            }
        }
    }
}

proof fn lemma_absorbed_updates_change_nothing(s: NodeStateView, kvs: Seq<(String, VersionedValue)>)
    requires
        absorbs(s, kvs),
    ensures
        apply_updates(s, kvs) == s,
    decreases kvs.len(),
{
    if kvs.len() > 0 {
        let init = kvs.drop_last();
        assert(absorbs(s, init)) by {
            assert forall|i: int| 0 <= i < init.len() implies s.key_values.contains_key(#[trigger] init[i].0@)
                && s.key_values[init[i].0@].version >= init[i].1.version && s.max_version >= init[i].1.version by {
                assert(init[i] == kvs[i]);
            }
        }
        lemma_absorbed_updates_change_nothing(s, init);
        assert(s.key_values.contains_key(kvs[kvs.len() - 1].0@));
    }
}

proof fn lemma_updates_concat(s: NodeStateView, x: Seq<(String, VersionedValue)>, y: Seq<(String, VersionedValue)>)
    ensures
        apply_updates(s, x + y) == apply_updates(apply_updates(s, x), y),
    decreases y.len(),
{
    if y.len() == 0 {
        assert(x + y =~= x);
    } else {
        lemma_updates_concat(s, x, y.drop_last());
        assert((x + y).drop_last() =~= x + y.drop_last());
        assert((x + y).last() == y.last());
    }
}

/// Applying sections in order amounts to applying, to each node they name,
/// all updates for it at once; other nodes are left as they are.
proof fn lemma_sections_per_node(a: Map<NodeIdView, NodeStateView>, secs: Seq<(NodeId, NodeDelta)>)
    ensures
        apply_sections(a, secs) == Map::new(
            |k: NodeIdView| a.contains_key(k) || has_section(secs, k),
            |k: NodeIdView|
                if has_section(secs, k) {
                    apply_updates(node_or_empty(a, k), updates_for(secs, k))
                } else {
                    a[k]
                },
        ),
    decreases secs.len(),
{
    let target = Map::new(
        |k: NodeIdView| a.contains_key(k) || has_section(secs, k),
        |k: NodeIdView|
            if has_section(secs, k) {
                apply_updates(node_or_empty(a, k), updates_for(secs, k))
            } else {
                a[k]
            },
    );
    if secs.len() == 0 {
        assert(apply_sections(a, secs) =~= target);
    } else {
        let init = secs.drop_last();
        let last = secs.last();
        let id = last.0@;
        lemma_sections_per_node(a, init);
        assert forall|k: NodeIdView| has_section(secs, k) <==> (has_section(init, k) || k == id) by {
            if has_section(secs, k) {
                let i = choose|i: int| 0 <= i < secs.len() && #[trigger] secs[i].0@ == k;
                if i < init.len() {
                    assert(init[i] == secs[i]);
                }
            }
            if has_section(init, k) {
                let i = choose|i: int| 0 <= i < init.len() && #[trigger] init[i].0@ == k;
                assert(secs[i] == init[i]);
            }
            if k == id {
                assert(secs[secs.len() - 1].0@ == k);
            }
        }
        let prev = apply_sections(a, init);
        assert(node_or_empty(prev, id) == apply_updates(node_or_empty(a, id), updates_for(init, id))) by {
            if !has_section(init, id) {
                lemma_updates_nothing_for(init, id);
            }
        }
        lemma_updates_concat(node_or_empty(a, id), updates_for(init, id), last.1.key_values@);
        assert forall|k: NodeIdView| k != id implies updates_for(secs, k) == updates_for(init, k) by {
            assert(updates_for(init, k) + Seq::<(String, VersionedValue)>::empty() =~= updates_for(init, k));
        }
        assert(apply_sections(a, secs) =~= target);
    }
}

proof fn lemma_updates_nothing_for(secs: Seq<(NodeId, NodeDelta)>, id: NodeIdView)
    requires
        !has_section(secs, id),
    ensures
        updates_for(secs, id) == Seq::<(String, VersionedValue)>::empty(),
    decreases secs.len(),
{
    if secs.len() > 0 {
        assert(secs[secs.len() - 1].0@ != id);
        assert(!has_section(secs.drop_last(), id)) by {
            if has_section(secs.drop_last(), id) {
                let i = choose|i: int| 0 <= i < secs.drop_last().len() && #[trigger] secs.drop_last()[i].0@ == id;
                assert(secs[i] == secs.drop_last()[i]);
            }
        }
        lemma_updates_nothing_for(secs.drop_last(), id);
    }
}

/// Applying a delta never lowers what the receiver holds of a node that the
/// delta does not reset: the node stays, its `max_version` and the version
/// of each of its keys do not decrease.
pub proof fn law_apply_delta_monotone(m: Map<NodeIdView, NodeStateView>, d: Delta, id: NodeIdView)
    requires
        m.contains_key(id),
        !contains_id(d.nodes_to_reset@, id),
    ensures
        apply_delta_spec(m, d).contains_key(id),
        covers(apply_delta_spec(m, d)[id], m[id]),
        apply_delta_spec(m, d)[id].max_version >= m[id].max_version,
{
    let w = without_reset(m, d.nodes_to_reset@);
    lemma_sections_per_node(w, d.node_deltas@);
    lemma_updates_cover(w[id], updates_for(d.node_deltas@, id));
}

/// Applying the same delta twice is the same as applying it once.
pub proof fn law_apply_delta_idempotent(m: Map<NodeIdView, NodeStateView>, d: Delta)
    ensures
        apply_delta_spec(apply_delta_spec(m, d), d) == apply_delta_spec(m, d),
{
    let r = d.nodes_to_reset@;
    let secs = d.node_deltas@;
    let w0 = without_reset(m, r);
    let m1 = apply_delta_spec(m, d);
    let w = without_reset(m1, r);
    lemma_sections_per_node(w0, secs);
    lemma_sections_per_node(w, secs);
    let m2 = apply_sections(w, secs);
    assert forall|k: NodeIdView| #[trigger] m2.contains_key(k) implies m2[k] == m1[k] by {
        if has_section(secs, k) && !contains_id(r, k) {
            let u = updates_for(secs, k);
            lemma_updates_absorbed(node_or_empty(w0, k), u);
            lemma_absorbed_updates_change_nothing(m1[k], u);
        }
    }
    assert(m2 =~= m1);
}

/// A delta that resets nothing and whose every update is already held at the
/// same or a higher version changes nothing.
pub proof fn law_apply_absorbed_delta_is_noop(m: Map<NodeIdView, NodeStateView>, d: Delta)
    requires
        d.nodes_to_reset@.len() == 0,
        forall|i: int|
            0 <= i < d.node_deltas@.len() ==> m.contains_key(#[trigger] d.node_deltas@[i].0@) && absorbs(
                m[d.node_deltas@[i].0@],
                d.node_deltas@[i].1.key_values@,
            ),
    ensures
        apply_delta_spec(m, d) == m,
{
    let secs = d.node_deltas@;
    let w = without_reset(m, d.nodes_to_reset@);
    assert(w =~= m);
    lemma_sections_per_node(m, secs);
    assert forall|k: NodeIdView| has_section(secs, k) implies m.contains_key(k) && absorbs(m[k], updates_for(secs, k)) by {
        lemma_absorbs_all_sections(m, secs, k);
    }
    assert forall|k: NodeIdView| has_section(secs, k) implies #[trigger] apply_updates(node_or_empty(m, k), updates_for(secs, k)) == m[k] by {
        lemma_absorbed_updates_change_nothing(m[k], updates_for(secs, k));
    }
    assert(apply_delta_spec(m, d) =~= m);
}

proof fn lemma_absorbs_all_sections(m: Map<NodeIdView, NodeStateView>, secs: Seq<(NodeId, NodeDelta)>, k: NodeIdView)
    requires
        has_section(secs, k),
        forall|i: int|
            0 <= i < secs.len() ==> m.contains_key(#[trigger] secs[i].0@) && absorbs(m[secs[i].0@], secs[i].1.key_values@),
    ensures
        m.contains_key(k),
        absorbs(m[k], updates_for(secs, k)),
    decreases secs.len(),
{
    let i = choose|i: int| 0 <= i < secs.len() && #[trigger] secs[i].0@ == k;
    let init = secs.drop_last();
    assert forall|j: int| 0 <= j < init.len() implies m.contains_key(#[trigger] init[j].0@) && absorbs(m[init[j].0@], init[j].1.key_values@) by {
        assert(init[j] == secs[j]);
    }
    if has_section(init, k) {
        lemma_absorbs_all_sections(m, init, k);
    } else {
        lemma_updates_nothing_for(init, k);
    }
    let last = secs[secs.len() - 1];
    if last.0@ == k {
        let a = updates_for(init, k);
        let b = last.1.key_values@;
        assert forall|j: int| 0 <= j < (a + b).len() implies m[k].key_values.contains_key(#[trigger] (a + b)[j].0@)
            && m[k].key_values[(a + b)[j].0@].version >= (a + b)[j].1.version && m[k].max_version >= (a + b)[j].1.version by {
            if j < a.len() {
                assert((a + b)[j] == a[j]);
            } else {
                assert((a + b)[j] == b[j - a.len()]);
            }
        }
    }
}

/// When a computed delta is complete (nothing was refused), a live node the
/// digest does not list is not reset and is sent in full: its section holds
/// every stored entry of positive version.
pub proof fn law_complete_delta_sends_unlisted_node_in_full(
    m: Map<NodeIdView, NodeStateView>,
    digest: Map<NodeIdView, u64>,
    dead: Seq<NodeId>,
    mtu: usize,
    grace_period: usize,
    d: Delta,
    id: NodeIdView,
    key: Seq<char>,
)
    requires
        delta_ok(m, digest, dead, mtu, grace_period, d),
        delta_complete(m, digest, dead, grace_period, d),
        m.contains_key(id),
        !contains_id(dead, id),
        !digest.contains_key(id),
        m[id].key_values.dom().finite(),
        m[id].key_values.contains_key(key),
        m[id].key_values[key].version > 0,
    ensures
        forall|i: int| 0 <= i < d.nodes_to_reset@.len() ==> #[trigger] d.nodes_to_reset@[i]@ != id,
        exists|i: int|
            0 <= i < d.node_deltas@.len() && d.node_deltas@[i].0@ == id && exists|j: int|
                0 <= j < d.node_deltas@[i].1.key_values@.len() && #[trigger] d.node_deltas@[i].1.key_values@[j].0@ == key,
{
    let secs = d.node_deltas@;
    assert forall|i: int| 0 <= i < d.nodes_to_reset@.len() implies #[trigger] d.nodes_to_reset@[i]@ != id by {
        assert(reset_ok(m, digest, dead, grace_period, d.nodes_to_reset@[i]@));
    }
    let floor = send_floor(digest_floor(digest, id), m[id], grace_period);
    assert(floor == 0);
    let stale = crate::node_state::stale_keys(m[id].key_values, floor);
    assert(stale.contains(key));
    assert(stale.subset_of(m[id].key_values.dom()));
    vstd::set_lib::lemma_set_subset_finite(m[id].key_values.dom(), stale);
    vstd::set::axiom_set_contains_len(stale, key);
    assert(stale_count(m, digest, grace_period, id) > 0);
    assert(is_candidate(m, digest, dead, grace_period, id));
    let i = choose|i: int| 0 <= i < secs.len() && #[trigger] secs[i].0@ == id;
    if i < secs.len() - 1 {
        assert(section_ok(m, digest, dead, grace_period, d.nodes_to_reset@, secs[i], true));
    } else {
        assert(secs[i] == secs.last());
    }
}

} // verus!
