//! The reconciliation payload, its wire encoding, and the MTU-bounded writer
//! that builds it.
use vstd::prelude::*;

use vstd::utf8::encode_utf8;

use crate::types::{NodeId, VersionedValue};

verus! {

/// The updates of one node, in the order they are to be applied.
#[derive(Debug, PartialEq, Eq)]
pub struct NodeDelta {
    pub key_values: Vec<(String, VersionedValue)>,
}

/// Nodes the peer must forget, then per-node updates.
#[derive(Debug, PartialEq, Eq)]
pub struct Delta {
    pub nodes_to_reset: Vec<NodeId>,
    pub node_deltas: Vec<(NodeId, NodeDelta)>,
}

// ---------------------------------------------------------------------------
// Wire encoding. Integers are 8 bytes, little endian; a string is its byte
// length followed by its UTF-8 bytes; a flag is one byte.
// ---------------------------------------------------------------------------

pub open spec fn le_u64(x: u64) -> Seq<u8> {
    seq![
        x as u8,
        (x >> 8u64) as u8,
        (x >> 16u64) as u8,
        (x >> 24u64) as u8,
        (x >> 32u64) as u8,
        (x >> 40u64) as u8,
        (x >> 48u64) as u8,
        (x >> 56u64) as u8,
    ]
}

pub open spec fn encode_str(s: Seq<char>) -> Seq<u8> {
    le_u64(encode_utf8(s).len() as u64) + encode_utf8(s)
}

pub open spec fn encode_node_id(n: NodeId) -> Seq<u8> {
    encode_str(n.id@) + encode_str(n.gossip_public_address@)
}

pub open spec fn encode_flag(b: bool) -> Seq<u8> {
    seq![if b { 1u8 } else { 0u8 }]
}

pub open spec fn encode_kv(kv: (String, VersionedValue)) -> Seq<u8> {
    encode_str(kv.0@) + encode_str(kv.1.value@) + le_u64(kv.1.version) + encode_flag(
        kv.1.marked_for_deletion,
    )
}

pub open spec fn encode_kvs(kvs: Seq<(String, VersionedValue)>) -> Seq<u8>
    decreases kvs.len(),
{
    if kvs.len() == 0 {
        Seq::empty()
    } else {
        encode_kvs(kvs.drop_last()) + encode_kv(kvs.last())
    }
}

pub open spec fn encode_section(s: (NodeId, NodeDelta)) -> Seq<u8> {
    encode_node_id(s.0) + le_u64(s.1.key_values@.len() as u64) + encode_kvs(s.1.key_values@)
}

pub open spec fn encode_sections(s: Seq<(NodeId, NodeDelta)>) -> Seq<u8>
    decreases s.len(),
{
    if s.len() == 0 {
        Seq::empty()
    } else {
        encode_sections(s.drop_last()) + encode_section(s.last())
    }
}

pub open spec fn encode_ids(s: Seq<NodeId>) -> Seq<u8>
    decreases s.len(),
{
    if s.len() == 0 {
        Seq::empty()
    } else {
        encode_ids(s.drop_last()) + encode_node_id(s.last())
    }
}

#[verifier::opaque]
pub open spec fn encode_delta(d: Delta) -> Seq<u8> {
    le_u64(d.nodes_to_reset@.len() as u64) + encode_ids(d.nodes_to_reset@) + le_u64(
        d.node_deltas@.len() as u64,
    ) + encode_sections(d.node_deltas@)
}

/// Bytes that `d` takes on the wire.
pub open spec fn serialized_size(d: Delta) -> int {
    encode_delta(d).len() as int
}

/// Bytes of a delta with no reset and no section.
pub const EMPTY_DELTA_SIZE: usize = 16;

/// `after` is `before` with one more update `(key, value, version,
/// marked_for_deletion)` at its end.
pub open spec fn appended(
    before: Seq<(String, VersionedValue)>,
    after: Seq<(String, VersionedValue)>,
    key: Seq<char>,
    value: Seq<char>,
    version: u64,
    marked_for_deletion: bool,
) -> bool {
    &&& after.len() == before.len() + 1
    &&& after.drop_last() == before
    &&& after.last().0@ == key
    &&& after.last().1@ == (crate::types::VersionedValueView { value, version, marked_for_deletion })
}

/// Budget of one gossip datagram.
pub const MAX_UDP_DATAGRAM_PAYLOAD_SIZE: usize = 1_400;

/// The number of updates over all sections.
pub open spec fn tuple_count(s: Seq<(NodeId, NodeDelta)>) -> int
    decreases s.len(),
{
    if s.len() == 0 {
        0
    } else {
        tuple_count(s.drop_last()) + s.last().1.key_values@.len()
    }
}

pub proof fn lemma_delta_size(d: Delta)
    ensures
        serialized_size(d) == 16 + encode_ids(d.nodes_to_reset@).len() + encode_sections(d.node_deltas@).len(),
{
    reveal(encode_delta);
}

pub proof fn lemma_kvs_push(s: Seq<(String, VersionedValue)>, x: (String, VersionedValue))
    ensures
        encode_kvs(s.push(x)) == encode_kvs(s) + encode_kv(x),
{
    assert(s.push(x).drop_last() =~= s);
}

pub proof fn lemma_sections_push(s: Seq<(NodeId, NodeDelta)>, x: (NodeId, NodeDelta))
    ensures
        encode_sections(s.push(x)) == encode_sections(s) + encode_section(x),
        tuple_count(s.push(x)) == tuple_count(s) + x.1.key_values@.len(),
{
    assert(s.push(x).drop_last() =~= s);
}

pub proof fn lemma_ids_push(s: Seq<NodeId>, x: NodeId)
    ensures
        encode_ids(s.push(x)) == encode_ids(s) + encode_node_id(x),
{
    assert(s.push(x).drop_last() =~= s);
}

/// The byte length of `s` in UTF-8.
fn byte_len(s: &String) -> (r: usize)
    ensures
        r == encode_utf8(s@).len(),
{
    s.as_str().as_bytes().len()
}

fn push_u64(buf: &mut Vec<u8>, x: u64)
    ensures
        final(buf)@ == old(buf)@ + le_u64(x),
{
    buf.push(x as u8);
    buf.push((x >> 8u64) as u8);
    buf.push((x >> 16u64) as u8);
    buf.push((x >> 24u64) as u8);
    buf.push((x >> 32u64) as u8);
    buf.push((x >> 40u64) as u8);
    buf.push((x >> 48u64) as u8);
    buf.push((x >> 56u64) as u8);
    assert(final(buf)@ =~= old(buf)@ + le_u64(x));
}

fn push_str(buf: &mut Vec<u8>, s: &String)
    ensures
        final(buf)@ == old(buf)@ + encode_str(s@),
{
    let ghost start = buf@;
    let bytes = s.as_str().as_bytes();
    push_u64(buf, bytes.len() as u64);
    let ghost mid = buf@;
    let mut i: usize = 0;
    while i < bytes.len()
        invariant
            i <= bytes@.len(),
            bytes@ == encode_utf8(s@),
            mid == start + le_u64(bytes@.len() as u64),
            buf@ == mid + bytes@.take(i as int),
        decreases bytes@.len() - i,
    {
        buf.push(bytes[i]);
        i = i + 1;
        assert(buf@ =~= mid + bytes@.take(i as int));
    }
    assert(bytes@.take(i as int) =~= bytes@);
    assert(buf@ =~= start + encode_str(s@));
}

fn push_node_id(buf: &mut Vec<u8>, n: &NodeId)
    ensures
        final(buf)@ == old(buf)@ + encode_node_id(*n),
{
    let ghost start = buf@;
    push_str(buf, &n.id);
    push_str(buf, &n.gossip_public_address);
    assert(buf@ =~= start + encode_node_id(*n));
}

fn push_kv(buf: &mut Vec<u8>, kv: &(String, VersionedValue))
    ensures
        final(buf)@ == old(buf)@ + encode_kv(*kv),
{
    let ghost start = buf@;
    push_str(buf, &kv.0);
    push_str(buf, &kv.1.value);
    push_u64(buf, kv.1.version);
    if kv.1.marked_for_deletion {
        buf.push(1u8);
    } else {
        buf.push(0u8);
    }
    assert(buf@ =~= start + encode_kv(*kv));
}

fn push_section(buf: &mut Vec<u8>, section: &(NodeId, NodeDelta))
    ensures
        final(buf)@ == old(buf)@ + encode_section(*section),
{
    let ghost start = buf@;
    push_node_id(buf, &section.0);
    let kvs = &section.1.key_values;
    push_u64(buf, kvs.len() as u64);
    let ghost mid = buf@;
    let mut i: usize = 0;
    while i < kvs.len()
        invariant
            i <= kvs@.len(),
            buf@ == mid + encode_kvs(kvs@.take(i as int)),
        decreases kvs@.len() - i,
    {
        proof {
            assert(kvs@.take(i + 1) =~= kvs@.take(i as int).push(kvs@[i as int]));
            lemma_kvs_push(kvs@.take(i as int), kvs@[i as int]);
        }
        push_kv(buf, &kvs[i]);
        i = i + 1;
        assert(buf@ =~= mid + encode_kvs(kvs@.take(i as int)));
    }
    assert(kvs@.take(i as int) =~= kvs@);
    assert(buf@ =~= start + encode_section(*section));
}

impl Default for Delta {
    fn default() -> (r: Delta)
        ensures
            r.nodes_to_reset@.len() == 0,
            r.node_deltas@.len() == 0,
    {
        Delta { nodes_to_reset: Vec::new(), node_deltas: Vec::new() }
    }
}

impl Delta {
    /// Appends the wire form of this delta to `buf`.
    pub fn serialize(&self, buf: &mut Vec<u8>)
        ensures
            final(buf)@ == old(buf)@ + encode_delta(*self),
    {
        let ghost start = buf@;
        push_u64(buf, self.nodes_to_reset.len() as u64);
        let ghost mid = buf@;
        let mut i: usize = 0;
        while i < self.nodes_to_reset.len()
            invariant
                i <= self.nodes_to_reset@.len(),
                buf@ == mid + encode_ids(self.nodes_to_reset@.take(i as int)),
            decreases self.nodes_to_reset@.len() - i,
        {
            proof {
                assert(self.nodes_to_reset@.take(i + 1) =~= self.nodes_to_reset@.take(i as int).push(self.nodes_to_reset@[i as int]));
                lemma_ids_push(self.nodes_to_reset@.take(i as int), self.nodes_to_reset@[i as int]);
            }
            push_node_id(buf, &self.nodes_to_reset[i]);
            i = i + 1;
            assert(buf@ =~= mid + encode_ids(self.nodes_to_reset@.take(i as int)));
        }
        assert(self.nodes_to_reset@.take(i as int) =~= self.nodes_to_reset@);
        push_u64(buf, self.node_deltas.len() as u64);
        let ghost mid2 = buf@;
        let mut j: usize = 0;
        while j < self.node_deltas.len()
            invariant
                j <= self.node_deltas@.len(),
                buf@ == mid2 + encode_sections(self.node_deltas@.take(j as int)),
            decreases self.node_deltas@.len() - j,
        {
            proof {
                assert(self.node_deltas@.take(j + 1) =~= self.node_deltas@.take(j as int).push(self.node_deltas@[j as int]));
                lemma_sections_push(self.node_deltas@.take(j as int), self.node_deltas@[j as int]);
            }
            push_section(buf, &self.node_deltas[j]);
            j = j + 1;
            assert(buf@ =~= mid2 + encode_sections(self.node_deltas@.take(j as int)));
        }
        assert(self.node_deltas@.take(j as int) =~= self.node_deltas@);
        reveal(encode_delta);
        assert(buf@ =~= start + encode_delta(*self));
    }

    /// The number of updates over all sections.
    pub fn num_tuples(&self) -> (r: usize)
        requires
            tuple_count(self.node_deltas@) <= usize::MAX,
        ensures
            r == tuple_count(self.node_deltas@),
    {
        let mut total: usize = 0;
        let mut j: usize = 0;
        while j < self.node_deltas.len()
            invariant
                j <= self.node_deltas@.len(),
                tuple_count(self.node_deltas@) <= usize::MAX,
                total == tuple_count(self.node_deltas@.take(j as int)),
            decreases self.node_deltas@.len() - j,
        {
            proof {
                assert(self.node_deltas@.take(j + 1) =~= self.node_deltas@.take(j as int).push(self.node_deltas@[j as int]));
                lemma_sections_push(self.node_deltas@.take(j as int), self.node_deltas@[j as int]);
                lemma_tuple_count_prefix(self.node_deltas@, j + 1);
            }
            total = total + self.node_deltas[j].1.key_values.len();
            j = j + 1;
        }
        assert(self.node_deltas@.take(j as int) =~= self.node_deltas@);
        total
    }

    /// Marks `node_id` for reset on the receiving side.
    pub fn add_node_to_reset(&mut self, node_id: NodeId)
        ensures
            final(self).nodes_to_reset@ == old(self).nodes_to_reset@.push(node_id),
            final(self).node_deltas@ == old(self).node_deltas@,
    {
        self.nodes_to_reset.push(node_id);
    }

    /// Appends an update to the first section of `node_id`, or opens a new
    /// last section for it when there is none.
    pub fn add_node_delta(&mut self, node_id: NodeId, key: &str, value: &str, version: u64, marked_for_deletion: bool)
        ensures
            final(self).nodes_to_reset@ == old(self).nodes_to_reset@,
            (exists|i: int| 0 <= i < old(self).node_deltas@.len() && #[trigger] old(self).node_deltas@[i].0@ == node_id@) ==> exists|i: int|
                0 <= i < old(self).node_deltas@.len() && #[trigger] old(self).node_deltas@[i].0@ == node_id@
                    && (forall|j: int| 0 <= j < i ==> #[trigger] old(self).node_deltas@[j].0@ != node_id@)
                    && final(self).node_deltas@.len() == old(self).node_deltas@.len()
                    && (forall|j: int| 0 <= j < old(self).node_deltas@.len() && j != i ==> #[trigger] final(self).node_deltas@[j] == old(self).node_deltas@[j])
                    && final(self).node_deltas@[i].0 == old(self).node_deltas@[i].0
                    && appended(old(self).node_deltas@[i].1.key_values@, final(self).node_deltas@[i].1.key_values@, key@, value@, version, marked_for_deletion),
            !(exists|i: int| 0 <= i < old(self).node_deltas@.len() && #[trigger] old(self).node_deltas@[i].0@ == node_id@) ==> {
                &&& final(self).node_deltas@.len() == old(self).node_deltas@.len() + 1
                &&& final(self).node_deltas@.drop_last() == old(self).node_deltas@
                &&& final(self).node_deltas@.last().0 == node_id
                &&& appended(Seq::empty(), final(self).node_deltas@.last().1.key_values@, key@, value@, version, marked_for_deletion)
            },
    {
        let entry = (key.to_owned(), VersionedValue { value: value.to_owned(), version, marked_for_deletion });
        let mut i: usize = 0;
        while i < self.node_deltas.len()
            invariant
                i <= self.node_deltas@.len(),
                self.node_deltas@ == old(self).node_deltas@,
                self.nodes_to_reset@ == old(self).nodes_to_reset@,
                entry.0@ == key@,
                entry.1@ == (crate::types::VersionedValueView { value: value@, version, marked_for_deletion }),
                forall|j: int| 0 <= j < i ==> #[trigger] old(self).node_deltas@[j].0@ != node_id@,
            decreases self.node_deltas@.len() - i,
        {
            if self.node_deltas[i].0.same_as(&node_id) {
                let ghost e = entry;
                let ghost before = self.node_deltas@;
                self.node_deltas[i].1.key_values.push(entry);
                proof {
                    assert(self.node_deltas@[i as int].1.key_values@ == before[i as int].1.key_values@.push(e));
                    assert(self.node_deltas@[i as int].1.key_values@.drop_last() =~= before[i as int].1.key_values@);
                    assert(self.node_deltas@[i as int].0 == before[i as int].0);
                    assert(forall|j: int| 0 <= j < before.len() && j != i ==> #[trigger] self.node_deltas@[j] == before[j]);
                }
                return;
            }
            i = i + 1;
        }
        let ghost e = entry;
        let ghost n = self.node_deltas@.len();
        self.node_deltas.push((node_id, NodeDelta { key_values: vec![entry] }));
        proof {
            assert(self.node_deltas@[n as int].1.key_values@ =~= seq![e]);
            assert(self.node_deltas@[n as int].1.key_values@.drop_last() =~= Seq::<(String, VersionedValue)>::empty());
            assert(self.node_deltas@.drop_last() =~= old(self).node_deltas@);
            assert(!(exists|j: int| 0 <= j < old(self).node_deltas@.len() && #[trigger] old(self).node_deltas@[j].0@ == node_id@));
        }
    }
}

pub proof fn lemma_tuple_count_prefix(s: Seq<(NodeId, NodeDelta)>, n: int)
    requires
        0 <= n <= s.len(),
    ensures
        0 <= tuple_count(s.take(n)) <= tuple_count(s),
    decreases s.len(),
{
    if n < s.len() {
        assert(s.drop_last().take(n) =~= s.take(n));
        lemma_tuple_count_prefix(s.drop_last(), n);
    } else {
        assert(s.take(n) =~= s);
    }
    if s.len() > 0 {
        lemma_tuple_count_prefix(s.drop_last(), 0);
    }
    if n == 0 {
        assert(s.take(0) =~= Seq::<(NodeId, NodeDelta)>::empty());
    }
}

/// Bytes that `n` takes on the wire.
fn node_id_cost(n: &NodeId) -> (r: u128)
    ensures
        r == encode_node_id(*n).len(),
        r <= 16 + 2 * usize::MAX,
{
    16u128 + byte_len(&n.id) as u128 + byte_len(&n.gossip_public_address) as u128
}

/// Bytes that the update `(key, v)` takes on the wire.
fn kv_cost(key: &String, v: &VersionedValue) -> (r: u128)
    ensures
        r == encode_kv((*key, *v)).len(),
{
    25u128 + byte_len(key) as u128 + byte_len(&v.value) as u128
}

/// Builds a delta section by section, refusing every addition that would
/// take its wire form over `mtu` bytes. After one refusal it refuses all.
pub struct DeltaWriter {
    pub delta: Delta,
    pub num_bytes: usize,
    pub mtu: usize,
    pub reached_capacity: bool,
}

impl DeltaWriter {
    /// `num_bytes` is the wire size of the delta so far, which is within the
    /// budget unless the budget cannot hold even an empty delta.
    pub open spec fn wf(&self) -> bool {
        &&& self.num_bytes == serialized_size(self.delta)
        &&& (self.num_bytes <= self.mtu || (self.reached_capacity
            && self.delta.nodes_to_reset@.len() == 0 && self.delta.node_deltas@.len() == 0))
    }

    pub fn with_mtu(mtu: usize) -> (r: DeltaWriter)
        ensures
            r.wf(),
            r.mtu == mtu,
            r.delta.nodes_to_reset@.len() == 0,
            r.delta.node_deltas@.len() == 0,
            r.reached_capacity == (mtu < EMPTY_DELTA_SIZE),
    {
        let delta = Delta::default();
        proof {
            assert(encode_ids(delta.nodes_to_reset@) =~= Seq::<u8>::empty());
            assert(encode_sections(delta.node_deltas@) =~= Seq::<u8>::empty());
            lemma_delta_size(delta);
        }
        DeltaWriter { delta, num_bytes: EMPTY_DELTA_SIZE, mtu, reached_capacity: mtu < EMPTY_DELTA_SIZE }
    }

    /// Whether `cost` more bytes fit, and no addition was refused before.
    fn fits(&self, cost: u128) -> (r: bool)
        requires
            self.wf(),
        ensures
            r == (!self.reached_capacity && self.num_bytes + cost <= self.mtu),
    {
        !self.reached_capacity && cost <= (self.mtu - self.num_bytes) as u128
    }

    /// Marks `node_id` for reset on the peer, if its bytes fit.
    pub fn add_node_to_reset(&mut self, node_id: NodeId) -> (r: bool)
        requires
            old(self).wf(),
        ensures
            final(self).wf(),
            final(self).mtu == old(self).mtu,
            r == (!old(self).reached_capacity && old(self).num_bytes + encode_node_id(node_id).len()
                <= old(self).mtu),
            r ==> final(self).delta.nodes_to_reset@ == old(self).delta.nodes_to_reset@.push(node_id),
            r ==> final(self).delta.node_deltas@ == old(self).delta.node_deltas@,
            r ==> final(self).reached_capacity == old(self).reached_capacity,
            !r ==> final(self).delta == old(self).delta && final(self).reached_capacity,
    {
        let cost = node_id_cost(&node_id);
        if !self.fits(cost) {
            self.reached_capacity = true;
            return false;
        }
        proof {
            lemma_ids_push(self.delta.nodes_to_reset@, node_id);
            lemma_delta_size(self.delta);
        }
        self.delta.nodes_to_reset.push(node_id);
        self.num_bytes = self.num_bytes + cost as usize;
        proof {
            lemma_delta_size(self.delta);
        }
        true
    }

    /// Opens the section of `node_id`, if its header fits.
    pub fn add_node(&mut self, node_id: NodeId) -> (r: bool)
        requires
            old(self).wf(),
        ensures
            final(self).wf(),
            final(self).mtu == old(self).mtu,
            r == (!old(self).reached_capacity && old(self).num_bytes + encode_node_id(node_id).len() + 8
                <= old(self).mtu),
            r ==> final(self).delta.nodes_to_reset@ == old(self).delta.nodes_to_reset@,
            r ==> final(self).delta.node_deltas@.len() == old(self).delta.node_deltas@.len() + 1,
            r ==> final(self).delta.node_deltas@.drop_last() == old(self).delta.node_deltas@,
            r ==> final(self).delta.node_deltas@.last().0 == node_id,
            r ==> final(self).delta.node_deltas@.last().1.key_values@.len() == 0,
            r ==> final(self).reached_capacity == old(self).reached_capacity,
            !r ==> final(self).delta == old(self).delta && final(self).reached_capacity,
    {
        let cost = node_id_cost(&node_id) + 8;
        if !self.fits(cost) {
            self.reached_capacity = true;
            return false;
        }
        let section = (node_id, NodeDelta { key_values: Vec::new() });
        proof {
            lemma_sections_push(self.delta.node_deltas@, section);
            assert(encode_kvs(section.1.key_values@) =~= Seq::<u8>::empty());
            lemma_delta_size(self.delta);
        }
        self.delta.node_deltas.push(section);
        self.num_bytes = self.num_bytes + cost as usize;
        proof {
            lemma_delta_size(self.delta);
            assert(self.delta.node_deltas@.drop_last() =~= old(self).delta.node_deltas@);
        }
        true
    }

    /// Appends `(key, versioned_value)` to the open section, if it fits.
    pub fn add_kv(&mut self, key: String, versioned_value: VersionedValue) -> (r: bool)
        requires
            old(self).wf(),
            old(self).delta.node_deltas@.len() > 0,
        ensures
            final(self).wf(),
            final(self).mtu == old(self).mtu,
            r == (!old(self).reached_capacity && old(self).num_bytes + encode_kv((key, versioned_value)).len()
                <= old(self).mtu),
            r ==> final(self).delta.nodes_to_reset@ == old(self).delta.nodes_to_reset@,
            r ==> final(self).delta.node_deltas@.len() == old(self).delta.node_deltas@.len(),
            r ==> final(self).delta.node_deltas@.drop_last() == old(self).delta.node_deltas@.drop_last(),
            r ==> final(self).delta.node_deltas@.last().0 == old(self).delta.node_deltas@.last().0,
            r ==> final(self).delta.node_deltas@.last().1.key_values@ == old(self).delta.node_deltas@.last().1.key_values@.push((key, versioned_value)),
            r ==> final(self).reached_capacity == old(self).reached_capacity,
            !r ==> final(self).delta == old(self).delta && final(self).reached_capacity,
    {
        let cost = kv_cost(&key, &versioned_value);
        if !self.fits(cost) {
            self.reached_capacity = true;
            return false;
        }
        let ghost old_sections = self.delta.node_deltas@;
        proof {
            lemma_delta_size(self.delta);
        }
        let ghost kv = (key, versioned_value);
        let n = self.delta.node_deltas.len();
        self.delta.node_deltas[n - 1].1.key_values.push((key, versioned_value));
        self.num_bytes = self.num_bytes + cost as usize;
        proof {
            let new_sections = self.delta.node_deltas@;
            assert(new_sections.drop_last() =~= old_sections.drop_last());
            assert(new_sections =~= old_sections.drop_last().push(new_sections.last()));
            assert(old_sections =~= old_sections.drop_last().push(old_sections.last()));
            lemma_sections_push(old_sections.drop_last(), new_sections.last());
            lemma_sections_push(old_sections.drop_last(), old_sections.last());
            lemma_kvs_push(old_sections.last().1.key_values@, kv);
            lemma_delta_size(self.delta);
        }
        true
    }

    /// The delta written so far.
    pub fn into_delta(self) -> (r: Delta)
        ensures
            r == self.delta,
    {
        self.delta
    }
}

} // verus!
