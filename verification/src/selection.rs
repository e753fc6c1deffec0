//! The set of selected nodes.
use vstd::prelude::*;
use std::collections::HashSet;
use vstd::std_specs::iter::IteratorSpec;
use crate::node::NodeId;

verus! {

broadcast use vstd::std_specs::hash::group_hash_axioms;

#[derive(Debug)]
pub struct Selection {
    pub selected: HashSet<NodeId>,
    pub hovered: Option<NodeId>,
}

impl Selection {
    pub fn new() -> (res: Self)
        ensures
            res.selected@ == Set::<NodeId>::empty(),
            res.hovered is None,
    {
        Selection { selected: HashSet::new(), hovered: None }
    }

    /// Makes `id` the only selected node.
    pub fn select_single(&mut self, id: NodeId)
        ensures
            final(self).selected@ == Set::<NodeId>::empty().insert(id),
            final(self).hovered == old(self).hovered,
    {
        self.selected.clear();
        self.selected.insert(id);
    }

    /// Adds `id` to the selection, or removes it when it was selected.
    pub fn toggle(&mut self, id: NodeId)
        ensures
            old(self).selected@.contains(id) ==> final(self).selected@ == old(self).selected@.remove(id),
            !old(self).selected@.contains(id) ==> final(self).selected@ == old(self).selected@.insert(id),
            final(self).hovered == old(self).hovered,
    {
        if !self.selected.remove(&id) {
            self.selected.insert(id);
        }
    }

    pub fn clear(&mut self)
        ensures
            final(self).selected@ == Set::<NodeId>::empty(),
            final(self).hovered == old(self).hovered,
    {
        self.selected.clear();
    }

    pub fn is_selected(&self, id: NodeId) -> (res: bool)
        ensures
            res == self.selected@.contains(id),
    {
        self.selected.contains(&id)
    }

    /// Some selected node, if any is selected. Which one is not fixed: it is the
    /// first that the set's iteration order gives.
    pub fn primary(&self) -> (res: Option<NodeId>)
        ensures
            res is None <==> self.selected@.is_empty(),
            res matches Some(x) ==> self.selected@.contains(x),
    {
        let ghost keys: Seq<NodeId> = vstd::std_specs::hash::spec_hash_keys_iter(&self.selected).remaining().unref();
        proof {
            vstd::std_specs::hash::axiom_spec_hash_keys_iter(&self.selected);
        }
        for r in it: self.selected.iter()
            invariant
                it.seq() == vstd::std_specs::hash::spec_hash_keys_iter(&self.selected).remaining(),
                keys == it.seq().unref(),
                keys.to_set() == self.selected@,
                it.index() == 0,
        {
            let x = *r;
            assert(keys[0] == x);
            assert(keys.to_set().contains(x));
            return Some(x);
        }
        proof {
            assert(keys =~= Seq::<NodeId>::empty());
            assert(self.selected@ =~= Set::<NodeId>::empty());
        }
        None
    }
}

impl Default for Selection {
    fn default() -> (res: Self)
        ensures
            res.selected@ == Set::<NodeId>::empty(),
            res.hovered is None,
    {
        Self::new()
    }
}

/// Toggling a node twice leaves the selection as it was.
pub proof fn lemma_toggle_twice(s: Set<NodeId>, id: NodeId)
    ensures
        (if s.contains(id) { s.remove(id) } else { s.insert(id) }).contains(id) == !s.contains(id),
        ({
            let t = if s.contains(id) { s.remove(id) } else { s.insert(id) };
            if t.contains(id) { t.remove(id) } else { t.insert(id) }
        }) == s,
{
    let t = if s.contains(id) { s.remove(id) } else { s.insert(id) };
    let u = if t.contains(id) { t.remove(id) } else { t.insert(id) };
    assert(u =~= s);
}

} // verus!
