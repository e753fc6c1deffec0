//! Copied subtrees waiting to be pasted.
use vstd::prelude::*;
use crate::node::{MindmapNode, NodeView, view_nodes};

verus! {

/// A deep copy of a subtree, root first. The nodes keep their original arena ids
/// and links; pasting gives them fresh slots.
#[derive(Clone, Debug)]
pub struct SubtreeBlueprint {
    pub nodes: Vec<MindmapNode>,
}

impl SubtreeBlueprint {
    pub open spec fn ns(&self) -> Seq<NodeView> {
        view_nodes(self.nodes@)
    }
}

/// The internal clipboard: the subtrees copied last, in order.
#[derive(Clone, Debug)]
pub struct Clipboard {
    pub blueprints: Vec<SubtreeBlueprint>,
}

impl Clipboard {
    pub fn new() -> (res: Self)
        ensures
            res.blueprints@.len() == 0,
    {
        Clipboard { blueprints: Vec::new() }
    }

    pub fn is_empty(&self) -> (res: bool)
        ensures
            res == (self.blueprints@.len() == 0),
    {
        self.blueprints.is_empty()
    }

    pub fn clear(&mut self)
        ensures
            final(self).blueprints@.len() == 0,
    {
        self.blueprints.clear();
    }
}

impl Default for Clipboard {
    fn default() -> (res: Self)
        ensures
            res.blueprints@.len() == 0,
    {
        Clipboard::new()
    }
}

} // verus!
