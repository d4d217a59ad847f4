//! Identifiers and versioned values shared by every part of the engine.
use vstd::prelude::*;

verus! {

/// A value tagged with the version at which it was written, and whether it
/// is a tombstone.
#[derive(Debug, PartialEq, Eq)]
pub struct VersionedValue {
    pub value: String,
    pub version: u64,
    pub marked_for_deletion: bool,
}

/// What a `VersionedValue` holds, as plain mathematical values.
pub struct VersionedValueView {
    pub value: Seq<char>,
    pub version: u64,
    pub marked_for_deletion: bool,
}

impl View for VersionedValue {
    type V = VersionedValueView;

    open spec fn view(&self) -> VersionedValueView {
        VersionedValueView {
            value: self.value@,
            version: self.version,
            marked_for_deletion: self.marked_for_deletion,
        }
    }
}

impl Clone for VersionedValue {
    fn clone(&self) -> (r: Self)
        ensures
            r == *self,
    {
        VersionedValue {
            value: self.value.clone(),
            version: self.version,
            marked_for_deletion: self.marked_for_deletion,
        }
    }
}

/// Identifies a cluster member: a name and the address it gossips on.
#[derive(Debug, PartialEq, Eq, PartialOrd, Ord, Hash)]
pub struct NodeId {
    pub id: String,
    pub gossip_public_address: String,
}

impl View for NodeId {
    type V = (Seq<char>, Seq<char>);

    open spec fn view(&self) -> (Seq<char>, Seq<char>) {
        (self.id@, self.gossip_public_address@)
    }
}

impl Clone for NodeId {
    fn clone(&self) -> (r: Self)
        ensures
            r == *self,
    {
        NodeId { id: self.id.clone(), gossip_public_address: self.gossip_public_address.clone() }
    }
}

impl NodeId {
    pub fn new(id: String, gossip_public_address: String) -> (r: NodeId)
        ensures
            r.id == id,
            r.gossip_public_address == gossip_public_address,
    {
        NodeId { id, gossip_public_address }
    }

    /// Structural equality of two identifiers.
    pub fn same_as(&self, other: &NodeId) -> (r: bool)
        ensures
            r == (self@ == other@),
    {
        self.id == other.id && self.gossip_public_address == other.gossip_public_address
    }
}

/// `id` is among `ids` (compared by view).
pub open spec fn contains_id(ids: Seq<NodeId>, id: (Seq<char>, Seq<char>)) -> bool {
    exists|i: int| 0 <= i < ids.len() && #[trigger] ids[i]@ == id
}

/// Looks `node_id` up in `ids`.
pub fn ids_contain(ids: &Vec<NodeId>, node_id: &NodeId) -> (r: bool)
    ensures
        r == contains_id(ids@, node_id@),
{
    let mut i: usize = 0;
    while i < ids.len()
        invariant
            i <= ids.len(),
            forall|j: int| 0 <= j < i ==> #[trigger] ids@[j]@ != node_id@,
        decreases ids.len() - i,
    {
        if ids[i].same_as(node_id) {
            return true;
        }
        i = i + 1;
    }
    false
}

} // verus!
