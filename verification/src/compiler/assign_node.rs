use vstd::prelude::*;

use crate::ast::NodeId;

verus! {

/// Hands out node ids 0, 1, 2, ... to the nodes of a syntax tree.
pub struct NodeIdGenerator {
    id: u32,
}

impl Default for NodeIdGenerator {
    fn default() -> (r: Self)
        ensures
            r.next_id() == 0,
    {
        NodeIdGenerator { id: 0 }
    }
}

impl NodeIdGenerator {
    /// The id the next call of `next` will hand out.
    pub closed spec fn next_id(&self) -> nat {
        self.id as nat
    }

    /// A fresh id.
    fn next(&mut self) -> (r: NodeId)
        requires
            old(self).next_id() < u32::MAX,
        ensures
            r.0 == old(self).next_id(),
            final(self).next_id() == old(self).next_id() + 1,
    {
        let id = self.id;
        self.id += 1;
        NodeId::new(id)
    }

    /// Gives `id` a fresh value when it has none yet.
    fn id(&mut self, id: &mut NodeId)
        requires
            old(self).next_id() < u32::MAX,
        ensures
            if old(id).0 == NodeId::invalid_value() {
                &&& final(id).0 == old(self).next_id()
                &&& final(self).next_id() == old(self).next_id() + 1
            } else {
                &&& *final(id) == *old(id)
                &&& final(self).next_id() == old(self).next_id()
            },
    {
        if id.is_invalid() {
            *id = self.next();
        }
    }
}

} // verus!
