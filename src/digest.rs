//! Summary of what a node knows: the highest version it holds of each node.
use vstd::prelude::*;

use crate::assoc::{has_key, keys_distinct, lemma_push_distinct, lemma_to_map_at, lemma_to_map_dom, lemma_to_map_push, lemma_to_map_update, to_map};
use crate::types::NodeId;

verus! {

#[derive(Debug, PartialEq, Eq)]
pub struct Digest {
    pub node_max_version: Vec<(NodeId, u64)>,
}

impl View for Digest {
    type V = Map<(Seq<char>, Seq<char>), u64>;

    open spec fn view(&self) -> Map<(Seq<char>, Seq<char>), u64> {
        to_map(self.node_max_version@)
    }
}

impl Default for Digest {
    fn default() -> (r: Digest)
        ensures
            r.wf(),
            r@ == Map::<(Seq<char>, Seq<char>), u64>::empty(),
    {
        Digest { node_max_version: Vec::new() }
    }
}

/// Position of `node_id` in `entries`.
pub(crate) fn find_node<T>(entries: &Vec<(NodeId, T)>, node_id: &NodeId) -> (r: Option<usize>)
    ensures
        r matches Some(i) ==> i < entries@.len() && entries@[i as int].0@ == node_id@,
        r.is_none() ==> !has_key(entries@, node_id@),
{
    let mut i: usize = 0;
    while i < entries.len()
        invariant
            i <= entries@.len(),
            forall|j: int| 0 <= j < i ==> #[trigger] entries@[j].0@ != node_id@,
        decreases entries@.len() - i,
    {
        if entries[i].0.same_as(node_id) {
            return Some(i);
        }
        i = i + 1;
    }
    None
}

impl Digest {
    /// No node is listed twice.
    pub open spec fn wf(&self) -> bool {
        keys_distinct(self.node_max_version@)
    }

    /// Records that the sender holds `node_id` up to `max_version`.
    pub fn add_node(&mut self, node_id: NodeId, max_version: u64)
        requires
            old(self).wf(),
        ensures
            final(self).wf(),
            final(self)@ == old(self)@.insert(node_id@, max_version),
    {
        let ghost s = self.node_max_version@;
        match find_node(&self.node_max_version, &node_id) {
            Some(i) => {
                let entry = (node_id, max_version);
                proof {
                    lemma_to_map_update(s, i as int, entry);
                }
                self.node_max_version.set(i, entry);
            },
            None => {
                let entry = (node_id, max_version);
                proof {
                    lemma_push_distinct(s, entry);
                    lemma_to_map_push(s, entry);
                }
                self.node_max_version.push(entry);
            },
        }
    }

    /// The version listed for `node_id`, if any.
    pub fn get(&self, node_id: &NodeId) -> (r: Option<u64>)
        requires
            self.wf(),
        ensures
            r == (if self@.contains_key(node_id@) {
                Some(self@[node_id@])
            } else {
                None::<u64>
            }),
    {
        match find_node(&self.node_max_version, node_id) {
            Some(i) => {
                proof {
                    lemma_to_map_at(self.node_max_version@, i as int);
                }
                Some(self.node_max_version[i].1)
            },
            None => {
                proof {
                    lemma_to_map_dom(self.node_max_version@, node_id@);
                }
                None
            },
        }
    }
}

} // verus!
