//! The versioned key-value map that one cluster member owns.
use vstd::prelude::*;

use crate::assoc::{has_key, keys_distinct, lemma_push_distinct, lemma_to_map_at, lemma_to_map_dom, lemma_to_map_insert, lemma_to_map_push, lemma_to_map_update, to_map};
use crate::key_order::{compare_keys, key_lt, keys_sorted, lemma_filter_sorted, lemma_key_lt_trans, lemma_sorted_update};
use crate::types::{VersionedValue, VersionedValueView};

verus! {

/// std's monotonic clock reading, held opaque.
#[verifier::external_type_specification]
#[verifier::external_body]
pub struct ExInstant(std::time::Instant);

/// Relies on std::time::Instant::now: reads the monotonic clock; nothing is
/// known of the reading.
#[verifier::external_body]
pub(crate) fn clock_now() -> std::time::Instant {
    std::time::Instant::now()
}

/// The state of one node: its keys and the highest version it ever assigned.
#[derive(Debug)]
pub struct NodeState {
    pub key_values: Vec<(String, VersionedValue)>,
    pub last_heartbeat: std::time::Instant,
    pub max_version: u64,
}

/// What a `NodeState` holds, as plain mathematical values.
pub struct NodeStateView {
    pub key_values: Map<Seq<char>, VersionedValueView>,
    pub max_version: u64,
}

impl View for NodeState {
    type V = NodeStateView;

    open spec fn view(&self) -> NodeStateView {
        NodeStateView { key_values: to_map(self.key_values@), max_version: self.max_version }
    }
}

/// A tombstone old enough to be removed: `version + grace_period < max_version`.
pub open spec fn collectable(v: VersionedValueView, max_version: u64, grace_period: usize) -> bool {
    v.marked_for_deletion && v.version + grace_period < max_version
}

impl NodeStateView {
    /// The value that readers see under `key`: absent for tombstones.
    pub open spec fn get(self, key: Seq<char>) -> Option<Seq<char>> {
        if self.key_values.contains_key(key) && !self.key_values[key].marked_for_deletion {
            Some(self.key_values[key].value)
        } else {
            None
        }
    }

    /// The entries that survive a collection with `grace_period`.
    pub open spec fn after_gc(self, grace_period: usize) -> Map<Seq<char>, VersionedValueView> {
        Map::new(
            |k: Seq<char>|
                self.key_values.contains_key(k) && !collectable(
                    self.key_values[k],
                    self.max_version,
                    grace_period,
                ),
            |k: Seq<char>| self.key_values[k],
        )
    }

    /// Every stored version is at most `max_version`.
    pub open spec fn versions_bounded(self) -> bool {
        forall|k: Seq<char>| #[trigger]
            self.key_values.contains_key(k) ==> self.key_values[k].version <= self.max_version
    }
}

/// The state after one incoming update: `max_version` follows the highest
/// version seen, and the update replaces only an entry of lower version.
pub open spec fn apply_update(s: NodeStateView, key: Seq<char>, v: VersionedValueView) -> NodeStateView {
    NodeStateView {
        key_values: if s.key_values.contains_key(key) && s.key_values[key].version >= v.version {
            s.key_values
        } else {
            s.key_values.insert(key, v)
        },
        max_version: if v.version > s.max_version {
            v.version
        } else {
            s.max_version
        },
    }
}

/// The state after a list of incoming updates, applied in order.
pub open spec fn apply_updates(s: NodeStateView, kvs: Seq<(String, VersionedValue)>) -> NodeStateView
    decreases kvs.len(),
{
    if kvs.len() == 0 {
        s
    } else {
        apply_update(apply_updates(s, kvs.drop_last()), kvs.last().0@, kvs.last().1@)
    }
}

/// Entry `a` comes before entry `b`: by version, then by position.
pub open spec fn precedes(kvs: Seq<(String, VersionedValue)>, a: int, b: int) -> bool {
    kvs[a].1.version < kvs[b].1.version || (kvs[a].1.version == kvs[b].1.version && a < b)
}

/// Entry `j` comes after `last` (every entry does when `last` is `None`).
pub open spec fn comes_after(kvs: Seq<(String, VersionedValue)>, last: Option<usize>, j: int) -> bool {
    match last {
        None => true,
        Some(l) => precedes(kvs, l as int, j),
    }
}

/// A number that grows with the order of `precedes`.
pub open spec fn rank(kvs: Seq<(String, VersionedValue)>, i: int) -> int {
    kvs[i].1.version * (kvs.len() + 1) + i
}

proof fn lemma_rank(kvs: Seq<(String, VersionedValue)>, a: int, b: int)
    requires
        0 <= a < kvs.len(),
        0 <= b < kvs.len(),
        precedes(kvs, a, b),
    ensures
        rank(kvs, a) < rank(kvs, b),
        0 <= rank(kvs, b) < (u64::MAX + 1) * (kvs.len() + 1),
{
    let n = kvs.len() + 1;
    let va = kvs[a].1.version as int;
    let vb = kvs[b].1.version as int;
    assert(va < vb ==> va * n + n <= vb * n) by (nonlinear_arith)
        requires
            n > 0,
    ;
    assert(vb * n + n <= (u64::MAX + 1) * n) by (nonlinear_arith)
        requires
            n > 0,
            vb <= u64::MAX,
    ;
    assert(0 <= vb * n) by (nonlinear_arith)
        requires
            n > 0,
            vb >= 0,
    ;
}

proof fn lemma_rank_bound(kvs: Seq<(String, VersionedValue)>, i: int)
    requires
        0 <= i < kvs.len(),
    ensures
        0 <= rank(kvs, i) < (u64::MAX + 1) * (kvs.len() + 1),
{
    let n = kvs.len() + 1;
    let v = kvs[i].1.version as int;
    assert(0 <= v * n && v * n + n <= (u64::MAX + 1) * n) by (nonlinear_arith)
        requires
            n > 0,
            0 <= v <= u64::MAX,
    ;
}

/// The state after a local write of `value` under `key`.
pub open spec fn after_set(s: NodeStateView, key: Seq<char>, value: Seq<char>) -> NodeStateView {
    NodeStateView {
        key_values: s.key_values.insert(
            key,
            VersionedValueView { value, version: (s.max_version + 1) as u64, marked_for_deletion: false },
        ),
        max_version: (s.max_version + 1) as u64,
    }
}

/// The state after a local deletion of `key`.
pub open spec fn after_mark(s: NodeStateView, key: Seq<char>) -> NodeStateView {
    NodeStateView {
        key_values: if s.key_values.contains_key(key) {
            s.key_values.insert(
                key,
                VersionedValueView {
                    value: s.key_values[key].value,
                    version: (s.max_version + 1) as u64,
                    marked_for_deletion: true,
                },
            )
        } else {
            s.key_values
        },
        max_version: (s.max_version + 1) as u64,
    }
}

/// The keys stored at a version above `floor`.
pub open spec fn stale_keys(kv: Map<Seq<char>, VersionedValueView>, floor: u64) -> Set<Seq<char>> {
    Set::new(|k: Seq<char>| kv.contains_key(k) && kv[k].version > floor)
}

proof fn lemma_stale_count_seq(kvs: Seq<(String, VersionedValue)>, floor: u64)
    requires
        keys_distinct(kvs),
    ensures
        stale_keys(to_map(kvs), floor).finite(),
        stale_keys(to_map(kvs), floor).len() == kvs.filter(|kv: (String, VersionedValue)| kv.1.version > floor).len(),
    decreases kvs.len(),
{
    let p = |kv: (String, VersionedValue)| kv.1.version > floor;
    if kvs.len() == 0 {
        assert(stale_keys(to_map(kvs), floor) =~= Set::<Seq<char>>::empty());
        assert(kvs.filter(p) =~= Seq::<(String, VersionedValue)>::empty()) by {
            reveal(Seq::filter);
        }
    } else {
        let init = kvs.drop_last();
        let x = kvs.last();
        assert(keys_distinct(init)) by {
            assert forall|a: int, b: int|
                0 <= a < init.len() && 0 <= b < init.len() && a != b implies #[trigger] init[a].0@
                != #[trigger] init[b].0@ by {
                assert(init[a] == kvs[a] && init[b] == kvs[b]);
            }
        }
        lemma_stale_count_seq(init, floor);
        assert(kvs =~= init.push(x));
        init.lemma_filter_push(x, p);
        assert(!has_key(init, x.0@)) by {
            if has_key(init, x.0@) {
                let j = choose|j: int| 0 <= j < init.len() && #[trigger] init[j].0@ == x.0@;
                assert(init[j] == kvs[j]);
                assert(kvs[kvs.len() - 1] == x);
            }
        }
        lemma_to_map_dom(init, x.0@);
        let old_set = stale_keys(to_map(init), floor);
        if x.1.version > floor {
            assert(stale_keys(to_map(kvs), floor) =~= old_set.insert(x.0@));
        } else {
            assert(stale_keys(to_map(kvs), floor) =~= old_set);
        }
    }
}

/// Turns a key read by callers into an owned string.
fn owned_key(key: &str) -> (r: String)
    ensures
        r@ == key@,
{
    key.to_owned()
}

impl Default for NodeState {
    fn default() -> (r: NodeState)
        ensures
            r.wf(),
            r@.key_values == Map::<Seq<char>, VersionedValueView>::empty(),
            r@.max_version == 0,
    {
        NodeState::new()
    }
}

impl NodeState {
    /// Keys are distinct and ascending, and no stored version exceeds
    /// `max_version`.
    pub open spec fn wf(&self) -> bool {
        &&& keys_distinct(self.key_values@)
        &&& keys_sorted(self.key_values@)
        &&& forall|i: int|
            0 <= i < self.key_values@.len() ==> #[trigger] self.key_values@[i].1.version
                <= self.max_version
    }

    /// An empty state, with version 0, seen now.
    pub fn new() -> (r: NodeState)
        ensures
            r.wf(),
            r@.key_values == Map::<Seq<char>, VersionedValueView>::empty(),
            r@.max_version == 0,
    {
        NodeState { key_values: Vec::new(), last_heartbeat: clock_now(), max_version: 0 }
    }

    /// Records that the owner of this state was heard from at `now`.
    pub fn refresh_heartbeat(&mut self, now: std::time::Instant)
        ensures
            final(self).key_values == old(self).key_values,
            final(self).max_version == old(self).max_version,
            final(self).last_heartbeat == now,
    {
        self.last_heartbeat = now;
    }

    /// A well-formed state bounds each stored version by `max_version`.
    pub proof fn lemma_versions_bounded(&self)
        requires
            self.wf(),
        ensures
            self@.versions_bounded(),
    {
        assert forall|k: Seq<char>| #[trigger] self@.key_values.contains_key(k) implies self@.key_values[k].version
            <= self.max_version by {
            lemma_to_map_dom(self.key_values@, k);
            let i = choose|i: int| 0 <= i < self.key_values@.len() && #[trigger] self.key_values@[i].0@ == k;
            lemma_to_map_at(self.key_values@, i);
        }
    }

    /// The number of stale entries above `floor` is the size of the set of
    /// stale keys.
    pub proof fn lemma_stale_count(&self, floor: u64)
        requires
            self.wf(),
        ensures
            stale_keys(self@.key_values, floor).finite(),
            stale_keys(self@.key_values, floor).len() == self.key_values@.filter(
                |kv: (String, VersionedValue)| kv.1.version > floor,
            ).len(),
    {
        lemma_stale_count_seq(self.key_values@, floor);
    }

    /// Inserts an entry whose key is not stored yet at its place in key order.
    fn insert_sorted(&mut self, entry: (String, VersionedValue))
        requires
            keys_distinct(old(self).key_values@),
            keys_sorted(old(self).key_values@),
            forall|i: int| 0 <= i < old(self).key_values@.len() ==> #[trigger] old(self).key_values@[i].1.version
                <= old(self).max_version,
            !has_key(old(self).key_values@, entry.0@),
            entry.1.version <= old(self).max_version,
        ensures
            final(self).wf(),
            final(self).max_version == old(self).max_version,
            final(self).last_heartbeat == old(self).last_heartbeat,
            final(self)@.key_values == old(self)@.key_values.insert(entry.0@, entry.1@),
    {
        let ghost s = self.key_values@;
        let mut p: usize = 0;
        loop
            invariant
                p <= s.len(),
                self.key_values@ == s,
                !has_key(s, entry.0@),
                forall|i: int| 0 <= i < p ==> key_lt(#[trigger] s[i].0@, entry.0@),
            ensures
                p <= s.len(),
                forall|i: int| 0 <= i < p ==> key_lt(#[trigger] s[i].0@, entry.0@),
                p < s.len() ==> key_lt(entry.0@, s[p as int].0@),
            decreases s.len() - p,
        {
            if p >= self.key_values.len() {
                break;
            }
            let c = compare_keys(&self.key_values[p].0, &entry.0);
            if c >= 0 {
                proof {
                    if c == 0 {
                        assert(s[p as int].0@ == entry.0@);
                    }
                }
                break;
            }
            p = p + 1;
        }
        proof {
            lemma_to_map_insert(s, p as int, entry);
        }
        self.key_values.insert(p, entry);
        proof {
            let t = self.key_values@;
            assert forall|a: int, b: int| 0 <= a < b < t.len() implies key_lt(#[trigger] t[a].0@, #[trigger] t[b].0@) by {
                if b < p {
                    assert(t[a] == s[a] && t[b] == s[b]);
                } else if b == p {
                    assert(t[a] == s[a] && t[b] == entry);
                } else if a < p {
                    assert(t[a] == s[a] && t[b] == s[b - 1]);
                } else if a == p {
                    assert(t[a] == entry && t[b] == s[b - 1]);
                    if b - 1 > p {
                        lemma_key_lt_trans(entry.0@, s[p as int].0@, s[b - 1].0@);
                    }
                } else {
                    assert(t[a] == s[a - 1] && t[b] == s[b - 1]);
                }
            }
            assert forall|i: int| 0 <= i < t.len() implies #[trigger] t[i].1.version <= self.max_version by {
                if i < p {
                    assert(t[i] == s[i]);
                } else if i > p {
                    assert(t[i] == s[i - 1]);
                }
            }
        }
    }

    /// The position of `key` in `key_values`.
    fn find_key(&self, key: &String) -> (r: Option<usize>)
        ensures
            r matches Some(i) ==> i < self.key_values@.len() && self.key_values@[i as int].0@
                == key@,
            r.is_none() ==> !has_key(self.key_values@, key@),
    {
        let mut i: usize = 0;
        while i < self.key_values.len()
            invariant
                i <= self.key_values@.len(),
                forall|j: int| 0 <= j < i ==> #[trigger] self.key_values@[j].0@ != key@,
            decreases self.key_values@.len() - i,
        {
            if self.key_values[i].0 == *key {
                return Some(i);
            }
            i = i + 1;
        }
        None
    }

    /// The stored record under `key`, tombstones included.
    pub fn get_versioned(&self, key: &str) -> (r: Option<&VersionedValue>)
        requires
            self.wf(),
        ensures
            r.is_some() == self@.key_values.contains_key(key@),
            r matches Some(v) ==> v@ == self@.key_values[key@],
    {
        let k = owned_key(key);
        match self.find_key(&k) {
            Some(i) => {
                proof {
                    lemma_to_map_at(self.key_values@, i as int);
                }
                Some(&self.key_values[i].1)
            },
            None => {
                proof {
                    lemma_to_map_dom(self.key_values@, key@);
                }
                None
            },
        }
    }

    /// The value under `key`, unless it is absent or a tombstone.
    pub fn get(&self, key: &str) -> (r: Option<&str>)
        requires
            self.wf(),
        ensures
            r.is_some() == self@.get(key@).is_some(),
            r matches Some(v) ==> self@.get(key@) == Some(v@),
    {
        match self.get_versioned(key) {
            Some(v) => {
                if v.marked_for_deletion {
                    None
                } else {
                    Some(v.value.as_str())
                }
            },
            None => None,
        }
    }

    /// Stores `value` under `key` at `version`, which must exceed every version
    /// assigned so far.
    pub fn set_with_version(&mut self, key: String, value: String, version: u64)
        requires
            old(self).wf(),
            version > old(self).max_version,
        ensures
            final(self).wf(),
            final(self).max_version == version,
            final(self)@.key_values == old(self)@.key_values.insert(
                key@,
                VersionedValueView { value: value@, version, marked_for_deletion: false },
            ),
    {
        let ghost old_kvs = self.key_values@;
        self.max_version = version;
        let found = self.find_key(&key);
        match found {
            Some(i) => {
                let entry = (key, VersionedValue { value, version, marked_for_deletion: false });
                proof {
                    lemma_sorted_update(old_kvs, i as int, entry);
                }
                self.key_values.set(i, entry);
                proof {
                    lemma_to_map_update(old_kvs, i as int, entry);
                }
            },
            None => {
                let entry = (key, VersionedValue { value, version, marked_for_deletion: false });
                self.insert_sorted(entry);
            },
        }
    }

    /// Stores `value` under `key` at the next version of this state.
    pub fn set(&mut self, key: &str, value: &str)
        requires
            old(self).wf(),
            old(self).max_version < u64::MAX,
        ensures
            final(self).wf(),
            final(self).max_version == old(self).max_version + 1,
            final(self)@ == after_set(old(self)@, key@, value@),
            final(self)@.key_values == old(self)@.key_values.insert(
                key@,
                VersionedValueView {
                    value: value@,
                    version: (old(self).max_version + 1) as u64,
                    marked_for_deletion: false,
                },
            ),
    {
        let new_version = self.max_version + 1;
        self.set_with_version(owned_key(key), owned_key(value), new_version);
    }

    /// Turns the entry under `key` into a tombstone at the next version. The
    /// version is consumed even when `key` is absent.
    pub fn mark_for_deletion(&mut self, key: &str)
        requires
            old(self).wf(),
            old(self).max_version < u64::MAX,
        ensures
            final(self).wf(),
            final(self).max_version == old(self).max_version + 1,
            final(self)@ == after_mark(old(self)@, key@),
            old(self)@.key_values.contains_key(key@) ==> final(self)@.key_values
                == old(self)@.key_values.insert(
                key@,
                VersionedValueView {
                    value: old(self)@.key_values[key@].value,
                    version: (old(self).max_version + 1) as u64,
                    marked_for_deletion: true,
                },
            ),
            !old(self)@.key_values.contains_key(key@) ==> final(self)@.key_values == old(
                self,
            )@.key_values,
    {
        let ghost old_kvs = self.key_values@;
        let new_version = self.max_version + 1;
        self.max_version = new_version;
        let k = owned_key(key);
        match self.find_key(&k) {
            Some(i) => {
                let value = self.key_values[i].1.value.clone();
                let entry = (k, VersionedValue { value, version: new_version, marked_for_deletion: true });
                proof {
                    lemma_to_map_at(old_kvs, i as int);
                    lemma_to_map_update(old_kvs, i as int, entry);
                    lemma_sorted_update(old_kvs, i as int, entry);
                }
                self.key_values.set(i, entry);
            },
            None => {
                proof {
                    lemma_to_map_dom(old_kvs, key@);
                }
            },
        }
    }

    /// Removes every tombstone with `version + grace_period < max_version`.
    pub fn gc_keys_marked_for_deletion(&mut self, grace_period: usize)
        requires
            old(self).wf(),
        ensures
            final(self).wf(),
            final(self).max_version == old(self).max_version,
            final(self)@.key_values == old(self)@.after_gc(grace_period),
    {
        let ghost kvs = self.key_values@;
        let max_version = self.max_version;
        let mut kept: Vec<(String, VersionedValue)> = Vec::new();
        let mut i: usize = 0;
        while i < self.key_values.len()
            invariant
                i <= kvs.len(),
                self.key_values@ == kvs,
                self.max_version == max_version,
                keys_distinct(kvs),
                keys_sorted(kvs),
                forall|j: int| 0 <= j < kvs.len() ==> #[trigger] kvs[j].1.version <= max_version,
                keys_distinct(kept@),
                keys_sorted(kept@),
                forall|j: int| 0 <= j < kept@.len() ==> has_key(kvs.take(i as int), #[trigger] kept@[j].0@),
                forall|j: int| 0 <= j < kept@.len() ==> #[trigger] kept@[j].1.version <= max_version,
                to_map(kept@) == (NodeStateView { key_values: to_map(kvs.take(i as int)), max_version }).after_gc(grace_period),
            decreases kvs.len() - i,
        {
            let ghost pre = kvs.take(i as int);
            let v = &self.key_values[i].1;
            let remove = v.marked_for_deletion && v.version < max_version && max_version - v.version > grace_period as u64;
            proof {
                assert(kvs.take(i + 1) =~= pre.push(kvs[i as int]));
                lemma_to_map_push(pre, kvs[i as int]);
                assert(!has_key(pre, kvs[i as int].0@)) by {
                    if has_key(pre, kvs[i as int].0@) {
                        let j = choose|j: int| 0 <= j < pre.len() && #[trigger] pre[j].0@ == kvs[i as int].0@;
                        assert(pre[j] == kvs[j]);
                    }
                }
                lemma_to_map_dom(pre, kvs[i as int].0@);
                assert forall|j: int| 0 <= j < kept@.len() implies has_key(kvs.take(i + 1), #[trigger] kept@[j].0@) by {
                    let m = choose|m: int| 0 <= m < pre.len() && #[trigger] pre[m].0@ == kept@[j].0@;
                    assert(kvs.take(i + 1)[m] == pre[m]);
                }
            }
            if !remove {
                let entry = (self.key_values[i].0.clone(), self.key_values[i].1.clone());
                proof {
                    assert(!has_key(kept@, entry.0@)) by {
                        if has_key(kept@, entry.0@) {
                            let j = choose|j: int| 0 <= j < kept@.len() && #[trigger] kept@[j].0@ == entry.0@;
                            assert(has_key(pre, kept@[j].0@));
                        }
                    }
                    lemma_push_distinct(kept@, entry);
                    lemma_to_map_push(kept@, entry);
                    assert forall|k: int| 0 <= k < kept@.len() implies key_lt(#[trigger] kept@[k].0@, entry.0@) by {
                        assert(has_key(pre, kept@[k].0@));
                        let j = choose|j: int| 0 <= j < pre.len() && #[trigger] pre[j].0@ == kept@[k].0@;
                        assert(pre[j] == kvs[j]);
                        assert(key_lt(kvs[j].0@, kvs[i as int].0@));
                    }
                }
                let ghost kept_before = kept@;
                kept.push(entry);
                proof {
                    assert forall|a: int, b: int| 0 <= a < b < kept@.len() implies key_lt(#[trigger] kept@[a].0@, #[trigger] kept@[b].0@) by {
                        assert(kept@[a] == kept_before[a]);
                        if b < kept_before.len() {
                            assert(kept@[b] == kept_before[b]);
                        }
                    }
                    let n = kept@.len() - 1;
                    assert(kvs.take(i + 1)[i as int] == kvs[i as int]);
                    assert(has_key(kvs.take(i + 1), kept@[n].0@));
                }
            }
            i = i + 1;
            proof {
                let m_new = NodeStateView { key_values: to_map(kvs.take(i as int)), max_version };
                assert(to_map(kept@) =~= m_new.after_gc(grace_period));
            }
        }
        proof {
            assert(kvs.take(kvs.len() as int) =~= kvs);
        }
        self.key_values = kept;
    }

    /// Applies one update received from a peer.
    pub fn apply_update(&mut self, key: String, versioned_value: VersionedValue)
        requires
            old(self).wf(),
        ensures
            final(self).wf(),
            final(self)@ == apply_update(old(self)@, key@, versioned_value@),
            final(self).last_heartbeat == old(self).last_heartbeat,
    {
        let ghost old_kvs = self.key_values@;
        if versioned_value.version > self.max_version {
            self.max_version = versioned_value.version;
        }
        match self.find_key(&key) {
            Some(i) => {
                proof {
                    lemma_to_map_at(old_kvs, i as int);
                }
                if self.key_values[i].1.version < versioned_value.version {
                    let entry = (key, versioned_value);
                    proof {
                        lemma_to_map_update(old_kvs, i as int, entry);
                        lemma_sorted_update(old_kvs, i as int, entry);
                    }
                    self.key_values.set(i, entry);
                }
            },
            None => {
                let entry = (key, versioned_value);
                proof {
                    lemma_to_map_dom(old_kvs, entry.0@);
                }
                self.insert_sorted(entry);
            },
        }
        proof {
            assert(final(self)@.key_values =~= apply_update(old(self)@, key@, versioned_value@).key_values);
        }
    }

    /// The first stale entry (version above `floor_version`) that comes
    /// after `last`.
    fn next_stale(&self, floor_version: u64, last: Option<usize>) -> (r: Option<usize>)
        requires
            last matches Some(l) ==> l < self.key_values@.len(),
        ensures
            r matches Some(i) ==> i < self.key_values@.len() && self.key_values@[i as int].1.version
                > floor_version && comes_after(self.key_values@, last, i as int),
            r matches Some(i) ==> forall|j: int|
                0 <= j < self.key_values@.len() && #[trigger] self.key_values@[j].1.version > floor_version
                    && comes_after(self.key_values@, last, j) ==> !precedes(self.key_values@, j, i as int),
            r is None ==> forall|j: int|
                0 <= j < self.key_values@.len() && #[trigger] self.key_values@[j].1.version > floor_version
                    ==> !comes_after(self.key_values@, last, j),
    {
        let kvs = &self.key_values;
        let mut best: Option<usize> = None;
        let mut i: usize = 0;
        while i < kvs.len()
            invariant
                i <= kvs@.len(),
                last matches Some(l) ==> l < kvs@.len(),
                best matches Some(b) ==> b < i && kvs@[b as int].1.version > floor_version && comes_after(kvs@, last, b as int),
                best matches Some(b) ==> forall|j: int|
                    0 <= j < i && #[trigger] kvs@[j].1.version > floor_version && comes_after(kvs@, last, j) ==> !precedes(kvs@, j, b as int),
                best is None ==> forall|j: int|
                    0 <= j < i && #[trigger] kvs@[j].1.version > floor_version ==> !comes_after(kvs@, last, j),
            decreases kvs@.len() - i,
        {
            let v = kvs[i].1.version;
            let after = match last {
                None => true,
                Some(l) => kvs[l].1.version < v || (kvs[l].1.version == v && l < i),
            };
            if v > floor_version && after {
                match best {
                    None => {
                        best = Some(i);
                    },
                    Some(b) => {
                        if v < kvs[b].1.version {
                            best = Some(i);
                        }
                    },
                }
            }
            i = i + 1;
        }
        best
    }

    /// Positions of the entries with version above `floor_version`, ordered
    /// by version (ties by position).
    pub fn stale_indices_by_version(&self, floor_version: u64) -> (r: Vec<usize>)
        ensures
            forall|t: int| 0 <= t < r@.len() ==> #[trigger] r@[t] < self.key_values@.len()
                && self.key_values@[r@[t] as int].1.version > floor_version,
            forall|t: int, u: int| 0 <= t < u < r@.len() ==> precedes(self.key_values@, #[trigger] r@[t] as int, #[trigger] r@[u] as int),
            forall|j: int|
                0 <= j < self.key_values@.len() && #[trigger] self.key_values@[j].1.version > floor_version
                    ==> exists|t: int| 0 <= t < r@.len() && r@[t] == j,
    {
        let ghost kvs = self.key_values@;
        let ghost bound = (u64::MAX + 1) * (kvs.len() + 1);
        let mut out: Vec<usize> = Vec::new();
        let mut last: Option<usize> = None;
        let mut next = self.next_stale(floor_version, last);
        while next.is_some()
            invariant
                kvs == self.key_values@,
                bound == (u64::MAX + 1) * (kvs.len() + 1),
                forall|t: int| 0 <= t < out@.len() ==> #[trigger] out@[t] < kvs.len()
                    && kvs[out@[t] as int].1.version > floor_version,
                forall|t: int, u: int| 0 <= t < u < out@.len() ==> precedes(kvs, #[trigger] out@[t] as int, #[trigger] out@[u] as int),
                last == (if out@.len() == 0 { None::<usize> } else { Some(out@.last()) }),
                forall|j: int|
                    0 <= j < kvs.len() && #[trigger] kvs[j].1.version > floor_version && !comes_after(kvs, last, j)
                        ==> exists|t: int| 0 <= t < out@.len() && out@[t] == j,
                next matches Some(i) ==> i < kvs.len() && kvs[i as int].1.version > floor_version
                    && comes_after(kvs, last, i as int),
                next matches Some(i) ==> forall|j: int|
                    0 <= j < kvs.len() && #[trigger] kvs[j].1.version > floor_version && comes_after(kvs, last, j)
                        ==> !precedes(kvs, j, i as int),
                next is None ==> forall|j: int|
                    0 <= j < kvs.len() && #[trigger] kvs[j].1.version > floor_version ==> !comes_after(kvs, last, j),
            decreases
                match next {
                    Some(i) => bound - rank(kvs, i as int) + 1,
                    None => 0,
                },
        {
            let i = match next {
                Some(i) => i,
                None => 0,
            };
            let ghost prev = out@;
            let ghost prev_last = last;
            out.push(i);
            last = Some(i);
            proof {
                assert forall|t: int, u: int| 0 <= t < u < out@.len() implies precedes(kvs, #[trigger] out@[t] as int, #[trigger] out@[u] as int) by {
                    if u == prev.len() {
                        assert(out@[t] == prev[t]);
                        if t < prev.len() - 1 {
                            assert(precedes(kvs, prev[t] as int, prev.last() as int));
                        }
                    } else {
                        assert(out@[t] == prev[t] && out@[u] == prev[u]);
                    }
                }
                assert forall|j: int|
                    0 <= j < kvs.len() && #[trigger] kvs[j].1.version > floor_version && !comes_after(kvs, last, j)
                        implies exists|t: int| 0 <= t < out@.len() && out@[t] == j by {
                    if j == i {
                        assert(out@[prev.len() as int] == j);
                    } else {
                        assert(precedes(kvs, j, i as int));
                        assert(!comes_after(kvs, prev_last, j));
                        let t = choose|t: int| 0 <= t < prev.len() && prev[t] == j;
                        assert(out@[t] == j);
                    }
                }
            }
            next = self.next_stale(floor_version, last);
            proof {
                lemma_rank_bound(kvs, i as int);
                if let Some(i2) = next {
                    lemma_rank(kvs, i as int, i2 as int);
                }
            }
        }
        out
    }

    /// Live entries (tombstones left out), in ascending key order.
    pub fn iter_key_values(&self) -> (r: Vec<(String, VersionedValue)>)
        ensures
            r@ == self.key_values@.filter(|kv: (String, VersionedValue)| !kv.1.marked_for_deletion),
            self.wf() ==> keys_sorted(r@),
    {
        let ghost pred = |kv: (String, VersionedValue)| !kv.1.marked_for_deletion;
        let mut out: Vec<(String, VersionedValue)> = Vec::new();
        let mut i: usize = 0;
        while i < self.key_values.len()
            invariant
                i <= self.key_values@.len(),
                out@ == self.key_values@.take(i as int).filter(pred),
                forall|kv: (String, VersionedValue)| #[trigger] pred(kv) == !kv.1.marked_for_deletion,
            decreases self.key_values@.len() - i,
        {
            proof {
                assert(self.key_values@.take(i + 1) =~= self.key_values@.take(i as int).push(self.key_values@[i as int]));
                self.key_values@.take(i as int).lemma_filter_push(self.key_values@[i as int], pred);
            }
            if !self.key_values[i].1.marked_for_deletion {
                let entry = (self.key_values[i].0.clone(), self.key_values[i].1.clone());
                assert(entry == self.key_values@[i as int]);
                out.push(entry);
            }
            i = i + 1;
        }
        proof {
            assert(self.key_values@.take(i as int) =~= self.key_values@);
            if self.wf() {
                lemma_filter_sorted(self.key_values@, |kv: (String, VersionedValue)| !kv.1.marked_for_deletion);
            }
        }
        out
    }

    /// Entries (tombstones included) whose version exceeds `floor_version`, in
    /// ascending key order.
    pub fn iter_stale_key_values(&self, floor_version: u64) -> (r: Vec<(String, VersionedValue)>)
        ensures
            r@ == self.key_values@.filter(|kv: (String, VersionedValue)| kv.1.version > floor_version),
            self.wf() ==> keys_sorted(r@),
    {
        let ghost pred = |kv: (String, VersionedValue)| kv.1.version > floor_version;
        let mut out: Vec<(String, VersionedValue)> = Vec::new();
        let mut i: usize = 0;
        while i < self.key_values.len()
            invariant
                i <= self.key_values@.len(),
                out@ == self.key_values@.take(i as int).filter(pred),
                forall|kv: (String, VersionedValue)| #[trigger] pred(kv) == (kv.1.version > floor_version),
            decreases self.key_values@.len() - i,
        {
            proof {
                assert(self.key_values@.take(i + 1) =~= self.key_values@.take(i as int).push(self.key_values@[i as int]));
                self.key_values@.take(i as int).lemma_filter_push(self.key_values@[i as int], pred);
            }
            if self.key_values[i].1.version > floor_version {
                let entry = (self.key_values[i].0.clone(), self.key_values[i].1.clone());
                assert(entry == self.key_values@[i as int]);
                out.push(entry);
            }
            i = i + 1;
        }
        proof {
            assert(self.key_values@.take(i as int) =~= self.key_values@);
            if self.wf() {
                lemma_filter_sorted(self.key_values@, |kv: (String, VersionedValue)| kv.1.version > floor_version);
            }
        }
        out
    }
}

} // verus!
