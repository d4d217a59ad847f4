//! Scuttle-depth ordering: nodes with more stale entries come first, and
//! nodes with equally many come in random order.
use vstd::prelude::*;

use rand::seq::SliceRandom;

use crate::assoc::{has_key, keys_distinct, lemma_push_distinct, lemma_to_map_at, lemma_to_map_dom, lemma_to_map_push, to_map};
use crate::types::NodeId;

verus! {

/// rand's standard generator, held opaque.
#[verifier::external_type_specification]
#[verifier::external_body]
pub struct ExStdRng(rand::rngs::StdRng);

/// Relies on rand's `SeedableRng::seed_from_u64` for `StdRng`: a generator
/// whose stream is fixed by the seed.
#[verifier::external_body]
fn seeded_rng(seed: u64) -> rand::rngs::StdRng {
    <rand::rngs::StdRng as rand::SeedableRng>::seed_from_u64(seed)
}

/// Relies on rand's `SliceRandom::shuffle`, which only swaps elements of the
/// slice: the same elements come back, in some order.
#[verifier::external_body]
fn shuffle_node_ids(ids: &mut Vec<NodeId>, rng: &mut rand::rngs::StdRng)
    ensures
        final(ids)@.to_multiset() == old(ids)@.to_multiset(),
{
    ids.as_mut_slice().shuffle(rng);
}

/// Relies on `rand::random`: a seed drawn from the thread-local generator;
/// nothing is known of its value.
#[verifier::external_body]
pub(crate) fn random_seed() -> u64 {
    rand::random::<u64>()
}

/// `length` lies strictly below `bound`; `None` bounds nothing.
pub open spec fn below(length: usize, bound: Option<usize>) -> bool {
    match bound {
        None => true,
        Some(b) => length < b,
    }
}

/// One of the first `n` entries holds `id` with `length`.
pub open spec fn entered_with(entries: Seq<(NodeId, usize)>, n: int, length: usize, id: NodeId) -> bool {
    exists|j: int| 0 <= j < n && entries[j].1 == length && #[trigger] entries[j].0 == id
}

/// Entries whose length is not below `bound`.
pub open spec fn at_least(bound: Option<usize>) -> spec_fn((NodeId, usize)) -> bool {
    |e: (NodeId, usize)| !below(e.1, bound)
}

/// Entries of length `length`.
pub open spec fn with_length(length: usize) -> spec_fn((NodeId, usize)) -> bool {
    |e: (NodeId, usize)| e.1 == length
}

proof fn lemma_filter_none<A>(s: Seq<A>, pred: spec_fn(A) -> bool)
    requires
        forall|i: int| 0 <= i < s.len() ==> !pred(#[trigger] s[i]),
    ensures
        s.filter(pred) == Seq::<A>::empty(),
    decreases s.len(),
{
    reveal(Seq::filter);
    if s.len() > 0 {
        assert(forall|i: int| 0 <= i < s.drop_last().len() ==> s.drop_last()[i] == s[i]);
        lemma_filter_none(s.drop_last(), pred);
        assert(!pred(s[s.len() - 1]));
    }
}

proof fn lemma_filter_all<A>(s: Seq<A>, pred: spec_fn(A) -> bool)
    requires
        forall|i: int| 0 <= i < s.len() ==> pred(#[trigger] s[i]),
    ensures
        s.filter(pred) == s,
    decreases s.len(),
{
    reveal(Seq::filter);
    if s.len() > 0 {
        assert(forall|i: int| 0 <= i < s.drop_last().len() ==> s.drop_last()[i] == s[i]);
        lemma_filter_all(s.drop_last(), pred);
        assert(pred(s[s.len() - 1]));
        assert(s.drop_last().push(s.last()) =~= s);
    }
}

/// Lowering the bound to `l`, the largest length below it, adds exactly
/// the entries of length `l`.
proof fn lemma_filter_split(s: Seq<(NodeId, usize)>, l: usize, b: Option<usize>)
    requires
        below(l, b),
        forall|i: int| 0 <= i < s.len() && below(#[trigger] s[i].1, b) ==> s[i].1 <= l,
    ensures
        s.filter(at_least(Some(l))).to_multiset() == s.filter(at_least(b)).to_multiset().add(
            s.filter(with_length(l)).to_multiset(),
        ),
    decreases s.len(),
{
    reveal(Seq::filter);
    broadcast use vstd::multiset::group_multiset_axioms;
    if s.len() == 0 {
        assert(s.filter(at_least(Some(l))) == s);
        assert(s.filter(at_least(b)) == s);
        assert(s.filter(with_length(l)) == s);
        assert forall|x: (NodeId, usize)| s.to_multiset().count(x) == 0 by {
            vstd::seq_lib::to_multiset_contains(s, x);
        }
        assert(s.filter(at_least(Some(l))).to_multiset() =~= s.filter(at_least(b)).to_multiset().add(
            s.filter(with_length(l)).to_multiset(),
        ));
    } else {
        let init = s.drop_last();
        assert(forall|i: int| 0 <= i < init.len() ==> init[i] == s[i]);
        lemma_filter_split(init, l, b);
        let e = s.last();
        assert(e == s[s.len() - 1]);
        let a0 = init.filter(at_least(Some(l)));
        let b0 = init.filter(at_least(b));
        let c0 = init.filter(with_length(l));
        vstd::seq_lib::to_multiset_build(a0, e);
        vstd::seq_lib::to_multiset_build(b0, e);
        vstd::seq_lib::to_multiset_build(c0, e);
        if !below(e.1, b) {
            assert(s.filter(at_least(Some(l))).to_multiset() =~= s.filter(at_least(b)).to_multiset().add(
                s.filter(with_length(l)).to_multiset(),
            ));
        } else if e.1 == l {
            assert(s.filter(at_least(Some(l))).to_multiset() =~= s.filter(at_least(b)).to_multiset().add(
                s.filter(with_length(l)).to_multiset(),
            ));
        } else {
            assert(s.filter(at_least(Some(l))).to_multiset() =~= s.filter(at_least(b)).to_multiset().add(
                s.filter(with_length(l)).to_multiset(),
            ));
        }
    }
}

/// Pairing each element with the same length keeps multisets equal.
proof fn lemma_pairs_multiset(a: Seq<NodeId>, b: Seq<NodeId>, l: usize, qa: Seq<(NodeId, usize)>, qb: Seq<(NodeId, usize)>)
    requires
        a.to_multiset() == b.to_multiset(),
        qa.len() == a.len(),
        qb.len() == b.len(),
        forall|t: int| 0 <= t < a.len() ==> #[trigger] qa[t] == (a[t], l),
        forall|t: int| 0 <= t < b.len() ==> #[trigger] qb[t] == (b[t], l),
    ensures
        qa.to_multiset() == qb.to_multiset(),
    decreases a.len(),
{
    broadcast use vstd::multiset::group_multiset_axioms;
    vstd::seq_lib::to_multiset_len(a);
    vstd::seq_lib::to_multiset_len(b);
    if a.len() == 0 {
        assert(qa =~= Seq::<(NodeId, usize)>::empty());
        assert(qb =~= Seq::<(NodeId, usize)>::empty());
    } else {
        let x = a.last();
        vstd::seq_lib::to_multiset_contains(a, x);
        assert(a.contains(x)) by {
            assert(a[a.len() - 1] == x);
        }
        vstd::seq_lib::to_multiset_contains(b, x);
        let i = choose|i: int| 0 <= i < b.len() && b[i] == x;
        let a2 = a.drop_last();
        let b2 = b.remove(i);
        vstd::seq_lib::to_multiset_remove(a, a.len() - 1);
        assert(a.remove(a.len() - 1) =~= a2);
        vstd::seq_lib::to_multiset_remove(b, i);
        let qa2 = qa.drop_last();
        let qb2 = qb.remove(i);
        assert forall|t: int| 0 <= t < a2.len() implies #[trigger] qa2[t] == (a2[t], l) by {
            assert(qa2[t] == qa[t]);
        }
        assert forall|t: int| 0 <= t < b2.len() implies #[trigger] qb2[t] == (b2[t], l) by {
            if t < i {
                assert(qb2[t] == qb[t]);
            } else {
                assert(qb2[t] == qb[t + 1]);
            }
        }
        lemma_pairs_multiset(a2, b2, l, qa2, qb2);
        assert(qa2.push(qa.last()) =~= qa);
        vstd::seq_lib::to_multiset_build(qa2, qa.last());
        vstd::seq_lib::to_multiset_remove(qb, i);
        assert(qb[i] == qa.last());
        vstd::seq_lib::to_multiset_contains(qb, qb[i]);
        assert(qb.contains(qb[i]));
        assert(qb.to_multiset() =~= qb2.to_multiset().insert(qb[i]));
    }
}

/// `p` holds the same (node, length) pairs as `entries`, pairs each node
/// of `r` in order with its length, and its lengths do not increase.
pub open spec fn ordered_pairing(entries: Seq<(NodeId, usize)>, p: Seq<(NodeId, usize)>, r: Seq<NodeId>) -> bool {
    &&& p.to_multiset() == entries.to_multiset()
    &&& p.len() == r.len()
    &&& forall|t: int| 0 <= t < p.len() ==> #[trigger] p[t].0 == r[t]
    &&& forall|t: int, u: int| 0 <= t < u < p.len() ==> #[trigger] p[t].1 >= #[trigger] p[u].1
}

/// Candidate nodes, each with the number of entries it has to send.
pub struct NodeSortedByStaleLength {
    pub entries: Vec<(NodeId, usize)>,
}

impl NodeSortedByStaleLength {
    /// No node is entered twice.
    pub open spec fn wf(&self) -> bool {
        keys_distinct(self.entries@)
    }

    /// Each entered node with its stale length.
    pub open spec fn stale_lengths(&self) -> Map<(Seq<char>, Seq<char>), usize> {
        to_map(self.entries@)
    }

    pub fn new() -> (r: NodeSortedByStaleLength)
        ensures
            r.wf(),
            r.stale_lengths() == Map::<(Seq<char>, Seq<char>), usize>::empty(),
    {
        NodeSortedByStaleLength { entries: Vec::new() }
    }

    /// Enters `node_id` with `stale_length`. A node entered twice comes out
    /// twice.
    pub fn insert(&mut self, node_id: &NodeId, stale_length: usize)
        ensures
            final(self).entries@ == old(self).entries@.push((*node_id, stale_length)),
            final(self).stale_lengths() == old(self).stale_lengths().insert(node_id@, stale_length),
            old(self).wf() && !old(self).stale_lengths().contains_key(node_id@) ==> final(self).wf(),
    {
        let entry = (node_id.clone(), stale_length);
        proof {
            lemma_to_map_dom(self.entries@, node_id@);
            if keys_distinct(self.entries@) && !has_key(self.entries@, node_id@) {
                lemma_push_distinct(self.entries@, entry);
            }
            lemma_to_map_push(self.entries@, entry);
        }
        self.entries.push(entry);
    }

    /// The largest stale length strictly below `bound`, if any.
    fn max_below(&self, bound: Option<usize>) -> (r: Option<usize>)
        ensures
            r matches Some(l) ==> below(l, bound) && exists|j: int|
                0 <= j < self.entries@.len() && #[trigger] self.entries@[j].1 == l,
            r matches Some(l) ==> forall|j: int|
                0 <= j < self.entries@.len() && below(#[trigger] self.entries@[j].1, bound) ==> self.entries@[j].1 <= l,
            r is None ==> forall|j: int|
                0 <= j < self.entries@.len() ==> !below(#[trigger] self.entries@[j].1, bound),
    {
        let mut best: Option<usize> = None;
        let mut i: usize = 0;
        while i < self.entries.len()
            invariant
                i <= self.entries@.len(),
                best matches Some(l) ==> below(l, bound) && exists|j: int|
                    0 <= j < i && #[trigger] self.entries@[j].1 == l,
                best matches Some(l) ==> forall|j: int|
                    0 <= j < i && below(#[trigger] self.entries@[j].1, bound) ==> self.entries@[j].1 <= l,
                best is None ==> forall|j: int| 0 <= j < i ==> !below(#[trigger] self.entries@[j].1, bound),
            decreases self.entries@.len() - i,
        {
            let length = self.entries[i].1;
            let fits = match bound {
                None => true,
                Some(b) => length < b,
            };
            if fits {
                match best {
                    None => {
                        best = Some(length);
                    },
                    Some(l) => {
                        if length > l {
                            best = Some(length);
                        }
                    },
                }
            }
            i = i + 1;
        }
        best
    }

    /// The nodes entered with `length`, in the order they were entered.
    fn bucket(&self, length: usize) -> (r: Vec<NodeId>)
        ensures
            forall|i: int| 0 <= i < r@.len() ==> entered_with(self.entries@, self.entries@.len() as int, length, #[trigger] r@[i]),
            forall|j: int|
                0 <= j < self.entries@.len() && #[trigger] self.entries@[j].1 == length ==> r@.contains(self.entries@[j].0),
            self.wf() ==> forall|a: int, b: int| 0 <= a < b < r@.len() ==> #[trigger] r@[a]@ != #[trigger] r@[b]@,
            r@.len() == self.entries@.filter(with_length(length)).len(),
            forall|t: int| 0 <= t < r@.len() ==> #[trigger] r@[t] == self.entries@.filter(with_length(length))[t].0,
    {
        let ghost wl = with_length(length);
        let mut out: Vec<NodeId> = Vec::new();
        let mut i: usize = 0;
        while i < self.entries.len()
            invariant
                i <= self.entries@.len(),
                forall|k: int| 0 <= k < out@.len() ==> entered_with(self.entries@, i as int, length, #[trigger] out@[k]),
                forall|j: int|
                    0 <= j < i && #[trigger] self.entries@[j].1 == length ==> out@.contains(self.entries@[j].0),
                self.wf() ==> forall|a: int, b: int| 0 <= a < b < out@.len() ==> #[trigger] out@[a]@ != #[trigger] out@[b]@,
                forall|k: int| 0 <= k < out@.len() ==> has_key(self.entries@.take(i as int), #[trigger] out@[k]@),
                wl == with_length(length),
                out@.len() == self.entries@.take(i as int).filter(wl).len(),
                forall|t: int| 0 <= t < out@.len() ==> #[trigger] out@[t] == self.entries@.take(i as int).filter(wl)[t].0,
            decreases self.entries@.len() - i,
        {
            proof {
                assert(self.entries@.take(i + 1) =~= self.entries@.take(i as int).push(self.entries@[i as int]));
                self.entries@.take(i as int).lemma_filter_push(self.entries@[i as int], wl);
            }
            if self.entries[i].1 == length {
                let id = self.entries[i].0.clone();
                let ghost prev = out@;
                out.push(id);
                proof {
                    assert forall|k: int| 0 <= k < out@.len() implies entered_with(self.entries@, i + 1, length, #[trigger] out@[k]) by {
                        if k < prev.len() {
                            assert(out@[k] == prev[k]);
                            assert(entered_with(self.entries@, i as int, length, prev[k]));
                        } else {
                            assert(out@[k] == self.entries@[i as int].0);
                        }
                    }
                    assert forall|j: int|
                        0 <= j < i + 1 && #[trigger] self.entries@[j].1 == length implies out@.contains(self.entries@[j].0) by {
                        if j < i {
                            let k = choose|k: int| 0 <= k < prev.len() && prev[k] == self.entries@[j].0;
                            assert(out@[k] == self.entries@[j].0);
                        } else {
                            assert(out@[prev.len() as int] == self.entries@[j].0);
                        }
                    }
                    let ents = self.entries@;
                    assert forall|k: int| 0 <= k < out@.len() implies has_key(ents.take(i + 1), #[trigger] out@[k]@) by {
                        if k < prev.len() {
                            assert(out@[k] == prev[k]);
                            let w = choose|w: int| 0 <= w < i && #[trigger] ents.take(i as int)[w].0@ == prev[k]@;
                            assert(ents.take(i + 1)[w] == ents.take(i as int)[w]);
                        } else {
                            assert(ents.take(i + 1)[i as int] == ents[i as int]);
                        }
                    }
                    if self.wf() {
                        assert forall|a: int, b: int| 0 <= a < b < out@.len() implies #[trigger] out@[a]@ != #[trigger] out@[b]@ by {
                            if b == prev.len() {
                                assert(out@[a] == prev[a]);
                                let w = choose|w: int| 0 <= w < i && #[trigger] ents.take(i as int)[w].0@ == prev[a]@;
                                assert(ents.take(i as int)[w] == ents[w]);
                            } else {
                                assert(out@[a] == prev[a] && out@[b] == prev[b]);
                            }
                        }
                    }
                }
            } else {
                proof {
                    let ents = self.entries@;
                    assert forall|k: int| 0 <= k < out@.len() implies has_key(ents.take(i + 1), #[trigger] out@[k]@) by {
                        let w = choose|w: int| 0 <= w < i && #[trigger] ents.take(i as int)[w].0@ == out@[k]@;
                        assert(ents.take(i + 1)[w] == ents.take(i as int)[w]);
                    }
                }
            }
            i = i + 1;
        }
        proof {
            assert(self.entries@.take(i as int) =~= self.entries@);
        }
        out
    }

    /// All entered nodes, by decreasing stale length; nodes with equal
    /// lengths are shuffled by a generator seeded with `seed`.
    pub fn into_iter(self, seed: u64) -> (r: Vec<NodeId>)
        ensures
            exists|p: Seq<(NodeId, usize)>| #[trigger] ordered_pairing(self.entries@, p, r@),
            self.wf() ==> forall|i: int| 0 <= i < r@.len() ==> self.stale_lengths().contains_key(#[trigger] r@[i]@),
            self.wf() ==> forall|k: (Seq<char>, Seq<char>)|
                #[trigger] self.stale_lengths().contains_key(k) ==> exists|i: int|
                    0 <= i < r@.len() && #[trigger] r@[i]@ == k,
            self.wf() ==> forall|i: int, j: int|
                0 <= i < j < r@.len() ==> self.stale_lengths()[#[trigger] r@[i]@] >= self.stale_lengths()[#[trigger] r@[j]@],
            self.wf() ==> forall|i: int, j: int| 0 <= i < j < r@.len() ==> #[trigger] r@[i]@ != #[trigger] r@[j]@,
    {
        let ghost mut pairs: Seq<(NodeId, usize)> = Seq::empty();
        proof {
            lemma_filter_none(self.entries@, at_least(None));
        }
        let ghost m = self.stale_lengths();
        let mut rng = seeded_rng(seed);
        let mut out: Vec<NodeId> = Vec::new();
        let mut bound: Option<usize> = None;
        let mut next = self.max_below(bound);
        while next.is_some()
            invariant
                m == self.stale_lengths(),
                pairs.len() == out@.len(),
                forall|t: int| 0 <= t < pairs.len() ==> #[trigger] pairs[t].0 == out@[t],
                forall|t: int, u: int| 0 <= t < u < pairs.len() ==> #[trigger] pairs[t].1 >= #[trigger] pairs[u].1,
                forall|t: int| 0 <= t < pairs.len() ==> !below(#[trigger] pairs[t].1, bound),
                pairs.to_multiset() == self.entries@.filter(at_least(bound)).to_multiset(),
                next matches Some(l) ==> below(l, bound) && exists|j: int|
                    0 <= j < self.entries@.len() && #[trigger] self.entries@[j].1 == l,
                next matches Some(l) ==> forall|j: int|
                    0 <= j < self.entries@.len() && below(#[trigger] self.entries@[j].1, bound) ==> self.entries@[j].1 <= l,
                next is None ==> forall|j: int|
                    0 <= j < self.entries@.len() ==> !below(#[trigger] self.entries@[j].1, bound),
                self.wf() ==> forall|i: int| 0 <= i < out@.len() ==> m.contains_key(#[trigger] out@[i]@),
                self.wf() ==> forall|i: int| 0 <= i < out@.len() ==> !below(m[#[trigger] out@[i]@], bound),
                forall|j: int|
                    0 <= j < self.entries@.len() && !below(#[trigger] self.entries@[j].1, bound) ==> out@.contains(self.entries@[j].0),
                self.wf() ==> forall|i: int, j: int|
                    0 <= i < j < out@.len() ==> m[#[trigger] out@[i]@] >= m[#[trigger] out@[j]@],
                self.wf() ==> forall|i: int, j: int| 0 <= i < j < out@.len() ==> #[trigger] out@[i]@ != #[trigger] out@[j]@,
            decreases
                match next {
                    Some(l) => l as int + 1,
                    None => 0,
                },
        {
            let l = match next {
                Some(l) => l,
                None => 0,
            };
            let mut ids = self.bucket(l);
            let ghost before = ids@;
            shuffle_node_ids(&mut ids, &mut rng);
            proof {
              if self.wf() {
                assert(before.no_duplicates()) by {
                    assert forall|a: int, b: int| 0 <= a < before.len() && 0 <= b < before.len() && a != b implies before[a] != before[b] by {
                        if a < b {
                            assert(before[a]@ != before[b]@);
                        } else {
                            assert(before[b]@ != before[a]@);
                        }
                    }
                }
                before.lemma_multiset_has_no_duplicates();
                ids@.lemma_multiset_has_no_duplicates_conv();
                assert forall|a: int, b: int| 0 <= a < b < ids@.len() implies #[trigger] ids@[a]@ != #[trigger] ids@[b]@ by {
                    assert(ids@.contains(ids@[a]) && ids@.contains(ids@[b]));
                    vstd::seq_lib::to_multiset_contains(ids@, ids@[a]);
                    vstd::seq_lib::to_multiset_contains(before, ids@[a]);
                    vstd::seq_lib::to_multiset_contains(ids@, ids@[b]);
                    vstd::seq_lib::to_multiset_contains(before, ids@[b]);
                    let p = choose|p: int| 0 <= p < before.len() && before[p] == ids@[a];
                    let q = choose|q: int| 0 <= q < before.len() && before[q] == ids@[b];
                    if p != q {
                        if p < q {
                            assert(before[p]@ != before[q]@);
                        } else {
                            assert(before[q]@ != before[p]@);
                        }
                    }
                }
                assert forall|i: int| 0 <= i < ids@.len() implies m.contains_key(#[trigger] ids@[i]@) && m[ids@[i]@] == l by {
                    assert(ids@.contains(ids@[i]));
                    vstd::seq_lib::to_multiset_contains(ids@, ids@[i]);
                    vstd::seq_lib::to_multiset_contains(before, ids@[i]);
                    let k = choose|k: int| 0 <= k < before.len() && before[k] == ids@[i];
                    assert(entered_with(self.entries@, self.entries@.len() as int, l, before[k]));
                    let j = choose|j: int|
                        0 <= j < self.entries@.len() && self.entries@[j].1 == l && #[trigger] self.entries@[j].0 == before[k];
                    lemma_to_map_at(self.entries@, j);
                }
              }
                assert forall|j: int|
                    0 <= j < self.entries@.len() && #[trigger] self.entries@[j].1 == l implies ids@.contains(self.entries@[j].0) by {
                    vstd::seq_lib::to_multiset_contains(ids@, self.entries@[j].0);
                    vstd::seq_lib::to_multiset_contains(before, self.entries@[j].0);
                }
            }
            let ghost prev = out@;
            let ghost shuffled = ids@;
            let ghost old_bound = bound;
            proof {
                let fl = self.entries@.filter(with_length(l));
                assert forall|t: int| 0 <= t < before.len() implies #[trigger] fl[t] == (before[t], l) by {
                    self.entries@.lemma_filter_pred(with_length(l), t);
                }
                let q = Seq::new(shuffled.len(), |t: int| (shuffled[t], l));
                lemma_pairs_multiset(shuffled, before, l, q, fl);
                lemma_filter_split(self.entries@, l, old_bound);
                vstd::seq_lib::lemma_multiset_commutative(pairs, q);
                let prev_pairs = pairs;
                pairs = pairs + q;
                assert forall|t: int, u: int| 0 <= t < u < pairs.len() implies #[trigger] pairs[t].1 >= #[trigger] pairs[u].1 by {
                    if u >= prev_pairs.len() {
                        assert(pairs[u] == q[u - prev_pairs.len()]);
                        if t < prev_pairs.len() {
                            assert(pairs[t] == prev_pairs[t]);
                            assert(!below(prev_pairs[t].1, old_bound));
                        } else {
                            assert(pairs[t] == q[t - prev_pairs.len()]);
                        }
                    } else {
                        assert(pairs[t] == prev_pairs[t] && pairs[u] == prev_pairs[u]);
                    }
                }
                assert forall|t: int| 0 <= t < pairs.len() implies !below(#[trigger] pairs[t].1, Some(l)) by {
                    if t < prev_pairs.len() {
                        assert(pairs[t] == prev_pairs[t]);
                        assert(!below(prev_pairs[t].1, old_bound));
                    } else {
                        assert(pairs[t] == q[t - prev_pairs.len()]);
                    }
                }
            }
            out.append(&mut ids);
            bound = Some(l);
            proof {
                assert forall|t: int| 0 <= t < pairs.len() implies #[trigger] pairs[t].0 == out@[t] by {
                    if t < prev.len() {
                        assert(out@[t] == prev[t]);
                    } else {
                        assert(out@[t] == shuffled[t - prev.len()]);
                    }
                }
                assert forall|j: int|
                    0 <= j < self.entries@.len() && !below(#[trigger] self.entries@[j].1, bound) implies out@.contains(self.entries@[j].0) by {
                    if self.entries@[j].1 == l {
                        let k = choose|k: int| 0 <= k < shuffled.len() && shuffled[k] == self.entries@[j].0;
                        assert(out@[prev.len() + k] == self.entries@[j].0);
                    } else {
                        let k = choose|k: int| 0 <= k < prev.len() && prev[k] == self.entries@[j].0;
                        assert(out@[k] == self.entries@[j].0);
                    }
                }
              if self.wf() {
                assert forall|i: int| 0 <= i < out@.len() implies m.contains_key(#[trigger] out@[i]@) && !below(m[out@[i]@], bound) by {
                    if i >= prev.len() {
                        assert(out@[i] == shuffled[i - prev.len()]);
                    } else {
                        assert(out@[i] == prev[i]);
                    }
                }
                assert forall|i: int, j: int| 0 <= i < j < out@.len() implies #[trigger] out@[i]@ != #[trigger] out@[j]@ by {
                    if j >= prev.len() {
                        assert(out@[j] == shuffled[j - prev.len()]);
                        if i >= prev.len() {
                            assert(out@[i] == shuffled[i - prev.len()]);
                        } else {
                            assert(out@[i] == prev[i]);
                        }
                    } else {
                        assert(out@[i] == prev[i] && out@[j] == prev[j]);
                    }
                }
                assert forall|i: int, j: int|
                    0 <= i < j < out@.len() implies m[#[trigger] out@[i]@] >= m[#[trigger] out@[j]@] by {
                    if j >= prev.len() {
                        assert(out@[j] == shuffled[j - prev.len()]);
                    } else {
                        assert(out@[j] == prev[j]);
                    }
                    if i >= prev.len() {
                        assert(out@[i] == shuffled[i - prev.len()]);
                    } else {
                        assert(out@[i] == prev[i]);
                    }
                }
              }
            }
            next = self.max_below(bound);
        }
        proof {
            lemma_filter_all(self.entries@, at_least(bound));
            assert(pairs.to_multiset() == self.entries@.to_multiset());
            assert(ordered_pairing(self.entries@, pairs, out@));
          if self.wf() {
            assert forall|k: (Seq<char>, Seq<char>)|
                #[trigger] m.contains_key(k) implies exists|i: int| 0 <= i < out@.len() && #[trigger] out@[i]@ == k by {
                lemma_to_map_dom(self.entries@, k);
                let j = choose|j: int| 0 <= j < self.entries@.len() && #[trigger] self.entries@[j].0@ == k;
                assert(!below(self.entries@[j].1, bound));
                let i = choose|i: int| 0 <= i < out@.len() && out@[i] == self.entries@[j].0;
                assert(out@[i]@ == k);
            }
          }
        }
        out
    }
}

} // verus!
