//! The arena tree of a mind map and its structural operations.
use vstd::prelude::*;
use std::collections::HashSet;
use vstd::std_specs::iter::IteratorSpec;
use crate::node::{MindmapNode, NodeId, NodeView, Side, fresh_node, view_nodes};
use crate::walk::{
    WalkMode, forest_wf, lemma_wf_add_leaf, ranked, ancestors, lemma_ancestors_unfold,
    lemma_parent_rank, effective_side, lemma_effective_side_unfold, visible_slice, parent_ok,
    children_ok, traversal, pending, walk_kids, walk_keep, at_depth, ids_of, lemma_pending_single,
    lemma_pending_push_rev, lemma_traversal_unfold, lemma_kids_ranked, subtree, in_subtree,
    after_delete, cleared, detach, lemma_wf_delete, lemma_subtree_facts, lemma_wf_same_shape,
    same_shape, lemma_wf_reorder_children, moved, lemma_wf_move,
};
use crate::text::{decimal, push_char, push_decimal, parse_u64, parse_u64_spec};
use crate::clipboard::SubtreeBlueprint;
use std::collections::HashMap;

verus! {

broadcast use vstd::std_specs::hash::group_hash_axioms;

/// A mind map: nodes live in an arena and refer to each other by index. Deleted
/// nodes stay in the arena (with empty text and no links) so indices stay stable.
pub struct MindmapTree {
    pub nodes: Vec<MindmapNode>,
    pub root: NodeId,
    /// The number that the next allocated FreeMind id `ID_<n>` carries.
    pub next_freemind_id: u64,
    /// Cached result of `visible_nodes`, dropped whenever the shape or folding changes.
    pub cached_visible: Option<Vec<NodeId>>,
    /// Maximum depth of visible nodes, set by layout.
    pub cached_max_depth: usize,
    /// Maximum number of children shown per parent before the rest are aggregated.
    pub sibling_limit: usize,
    /// Parents that show all their children regardless of `sibling_limit`.
    pub force_expanded: HashSet<NodeId>,
}

/// The FreeMind id `ID_<n>`.
pub open spec fn freemind_id_text(n: u64) -> Seq<char> {
    seq!['I', 'D', '_'] + decimal(n as nat)
}

/// The number of nodes among `cs` placed on `side`.
pub open spec fn count_side(ns: Seq<NodeView>, cs: Seq<NodeId>, side: Side) -> nat
    decreases cs.len(),
{
    if cs.len() == 0 {
        0
    } else {
        count_side(ns, cs.drop_last(), side) + if ns[cs.last() as int].position == Some(side) {
            1nat
        } else {
            0nat
        }
    }
}

/// The side a new first-level branch goes to: right unless the right already has more.
pub open spec fn balanced_side(ns: Seq<NodeView>, root: NodeId) -> Side {
    let cs = ns[root as int].children;
    if count_side(ns, cs, Side::Right) <= count_side(ns, cs, Side::Left) {
        Side::Right
    } else {
        Side::Left
    }
}

impl MindmapTree {
    pub open spec fn ns(&self) -> Seq<NodeView> {
        view_nodes(self.nodes@)
    }

    pub open spec fn wf(&self) -> bool {
        forest_wf(self.ns(), self.root)
    }

    pub open spec fn next_id(&self) -> u64 {
        self.next_freemind_id
    }

    /// The cached visible-node list, if one is held.
    pub open spec fn cache(&self) -> Option<Seq<NodeId>> {
        match self.cached_visible {
            Some(v) => Some(v@),
            None => None,
        }
    }

    /// Everything but the nodes and the visible-node cache is as in `other`.
    pub open spec fn same_settings(&self, other: &MindmapTree) -> bool {
        &&& self.root == other.root
        &&& self.next_id() == other.next_id()
        &&& self.cached_max_depth == other.cached_max_depth
        &&& self.sibling_limit == other.sibling_limit
        &&& self.force_expanded@ == other.force_expanded@
    }

    /// The traversal mode for what is shown on screen.
    pub open spec fn visible_mode(&self) -> WalkMode {
        WalkMode::Visible { limit: self.sibling_limit as nat, expanded: self.force_expanded@ }
    }

    /// A tree over `nodes` rooted at `root`, with default display settings and
    /// FreeMind ids allocated after the largest numeric `ID_<n>` already present.
    pub fn from_parts(nodes: Vec<MindmapNode>, root: NodeId, next_freemind_id: u64) -> (res: Self)
        ensures
            res.nodes@ == nodes@,
            res.root == root,
            res.next_id() == next_freemind_id,
            res.cache() is None,
            res.cached_max_depth == 0,
            res.sibling_limit == 20,
            res.force_expanded@ == Set::<NodeId>::empty(),
    {
        MindmapTree {
            nodes,
            root,
            next_freemind_id,
            cached_visible: None,
            cached_max_depth: 0,
            sibling_limit: 20,
            force_expanded: HashSet::new(),
        }
    }

    /// Allocates the next FreeMind id `ID_<n>`.
    fn alloc_freemind_id(&mut self) -> (res: String)
        ensures
            res@ == freemind_id_text(old(self).next_id()),
            final(self).next_id() == old(self).next_id().wrapping_add(1),
            final(self).nodes == old(self).nodes,
            final(self).root == old(self).root,
            final(self).cached_visible == old(self).cached_visible,
            final(self).cached_max_depth == old(self).cached_max_depth,
            final(self).sibling_limit == old(self).sibling_limit,
            final(self).force_expanded == old(self).force_expanded,
    {
        let mut s = String::new();
        push_char(&mut s, 'I');
        push_char(&mut s, 'D');
        push_char(&mut s, '_');
        push_decimal(&mut s, self.next_freemind_id);
        assert(s@ =~= freemind_id_text(self.next_freemind_id));
        self.next_freemind_id = self.next_freemind_id.wrapping_add(1);
        s
    }
}

/// A new node `id` under `parent` placed at `position`.
pub open spec fn new_node(id: NodeId, fid: Seq<char>, text: Seq<char>, parent: NodeId, position: Option<Side>) -> NodeView {
    NodeView { parent: Some(parent), position, ..fresh_node(id, fid, text) }
}

/// The arena after adding a new last child under `p` (unfolding `p`).
pub open spec fn added_child(ns: Seq<NodeView>, root: NodeId, p: NodeId, fid: Seq<char>, text: Seq<char>) -> Seq<NodeView> {
    let id = ns.len() as NodeId;
    let pos = if p == root { Some(balanced_side(ns, root)) } else { None };
    ns.update(p as int, NodeView { children: ns[p as int].children.push(id), folded: false, ..ns[p as int] }).push(
        new_node(id, fid, text, p, pos),
    )
}

/// The arena after adding a new node next to `n` under its parent `p`: right after it
/// when `after`, right before it otherwise. It takes `n`'s side.
pub open spec fn added_sibling(ns: Seq<NodeView>, n: NodeId, p: NodeId, fid: Seq<char>, text: Seq<char>, after: bool) -> Seq<NodeView> {
    let id = ns.len() as NodeId;
    let j = ns[p as int].children.index_of(n) + if after { 1int } else { 0int };
    ns.update(p as int, NodeView { children: ns[p as int].children.insert(j, id), ..ns[p as int] }).push(
        new_node(id, fid, text, p, ns[n as int].position),
    )
}

impl MindmapTree {
    /// The side a new first-level branch under `parent` goes to.
    fn side_for_new_branch(&self, parent: NodeId) -> (res: Side)
        requires
            parent < self.nodes.len(),
            forall|k: int| 0 <= k < self.ns()[parent as int].children.len()
                ==> #[trigger] self.ns()[parent as int].children[k] < self.nodes.len(),
        ensures
            res == balanced_side(self.ns(), parent),
    {
        let ghost ns = self.ns();
        let children = &self.nodes[parent].children;
        let mut right: usize = 0;
        let mut left: usize = 0;
        let mut i: usize = 0;
        while i < children.len()
            invariant
                ns == self.ns(),
                parent < self.nodes.len(),
                forall|k: int| 0 <= k < ns[parent as int].children.len() ==> #[trigger] ns[parent as int].children[k] < self.nodes.len(),
                children@ == ns[parent as int].children,
                i <= children.len(),
                right as nat == count_side(ns, children@.take(i as int), Side::Right),
                left as nat == count_side(ns, children@.take(i as int), Side::Left),
                right <= i,
                left <= i,
            decreases children.len() - i,
        {
            let c = children[i];
            assert(ns[parent as int].children[i as int] == c);
            let pos = self.nodes[c].position;
            assert(children@.take(i + 1).drop_last() =~= children@.take(i as int));
            assert(pos == ns[c as int].position);
            if pos == Some(Side::Right) {
                right = right + 1;
            } else if pos == Some(Side::Left) {
                left = left + 1;
            }
            i = i + 1;
        }
        assert(children@.take(i as int) =~= children@);
        if right <= left {
            Side::Right
        } else {
            Side::Left
        }
    }

    /// Adds a child with `text` as the last child of `parent_id`, unfolding the parent.
    /// A child of the root is put on the side with fewer branches (right on a tie).
    /// Returns the new node's id.
    pub fn add_child(&mut self, parent_id: NodeId, text: &str) -> (new_id: NodeId)
        requires
            old(self).wf(),
            parent_id < old(self).nodes.len(),
            old(self).nodes.len() < usize::MAX,
        ensures
            new_id == old(self).nodes.len(),
            final(self).ns() == added_child(
                old(self).ns(),
                old(self).root,
                parent_id,
                freemind_id_text(old(self).next_id()),
                text@,
            ),
            final(self).wf(),
            final(self).next_id() == old(self).next_id().wrapping_add(1),
            final(self).cache() is None,
            final(self).root == old(self).root,
            final(self).cached_max_depth == old(self).cached_max_depth,
            final(self).sibling_limit == old(self).sibling_limit,
            final(self).force_expanded@ == old(self).force_expanded@,
            ids_below(old(self).ns(), old(self).next_id()) ==> forall|i: int| 0 <= i < old(self).nodes.len()
                ==> #[trigger] old(self).ns()[i].freemind_id != freemind_id_text(old(self).next_id()),
            ids_below(old(self).ns(), old(self).next_id()) && old(self).next_id() < u64::MAX
                ==> ids_below(final(self).ns(), final(self).next_id()),
    {
        let ghost ns = self.ns();
        let new_id = self.nodes.len();
        let position = if parent_id == self.root {
            Some(self.side_for_new_branch(parent_id))
        } else {
            None
        };
        let freemind_id = self.alloc_freemind_id();
        let mut node = MindmapNode::new(new_id, freemind_id, text.to_owned());
        node.parent = Some(parent_id);
        node.position = position;
        self.nodes.push(node);
        self.nodes[parent_id].children.push(new_id);
        self.nodes[parent_id].folded = false;
        self.cached_visible = None;
        proof {
            let ns2 = self.ns();
            let expect = added_child(ns, self.root, parent_id, freemind_id_text(old(self).next_id()), text@);
            assert(ns2 =~= expect);
            let cs = ns[parent_id as int].children;
            assert(cs.insert(cs.len() as int, new_id) =~= cs.push(new_id));
            lemma_wf_add_leaf(ns, self.root, parent_id, cs.len() as int, ns2);
            if ids_below(ns, old(self).next_id()) {
                assert forall|i: int| 0 <= i < ns.len() implies #[trigger] ns2[i].freemind_id == ns[i].freemind_id by {
                    if i == parent_id {
                        assert(ns2[i] == expect[i]);
                    }
                }
                lemma_fresh_id_push(ns, ns2, old(self).next_id());
            }
        }
        new_id
    }
}

/// The ancestors still to be visited from `current` on.
pub open spec fn ancestors_from(ns: Seq<NodeView>, current: Option<NodeId>) -> Seq<NodeId> {
    match current {
        Some(c) => seq![c] + ancestors(ns, c),
        None => Seq::empty(),
    }
}

impl MindmapTree {
    /// Whether `ancestor` is a proper ancestor of `descendant`.
    pub fn is_ancestor(&self, ancestor: NodeId, descendant: NodeId) -> (res: bool)
        requires
            self.wf(),
            descendant < self.nodes.len(),
        ensures
            res == ancestors(self.ns(), descendant).contains(ancestor),
    {
        let ghost ns = self.ns();
        let ghost rank = choose|rank: Seq<nat>| ranked(ns, rank);
        proof {
            lemma_ancestors_unfold(ns, self.root, descendant);
            if ns[descendant as int].parent is Some {
                lemma_parent_rank(ns, self.root, rank, descendant);
            }
        }
        let mut current = self.nodes[descendant].parent;
        let ghost mut seen: Seq<NodeId> = Seq::empty();
        while current.is_some()
            invariant
                ns == self.ns(),
                self.wf(),
                ranked(ns, rank),
                ancestors(ns, descendant) == seen + ancestors_from(ns, current),
                !seen.contains(ancestor),
                current matches Some(c) ==> c < ns.len(),
            decreases match current { Some(c) => rank[c as int] + 1, None => 0 },
        {
            let pid = current.unwrap();
            proof {
                lemma_ancestors_unfold(ns, self.root, pid);
                if ns[pid as int].parent is Some {
                    lemma_parent_rank(ns, self.root, rank, pid);
                }
            }
            if pid == ancestor {
                assert(ancestors(ns, descendant)[seen.len() as int] == ancestor);
                return true;
            }
            proof {
                seen = seen.push(pid);
            }
            current = self.nodes[pid].parent;
            assert(ancestors(ns, descendant) =~= seen + ancestors_from(ns, current));
        }
        assert(ancestors(ns, descendant) =~= seen);
        false
    }

    /// The number of ancestors of `node_id` (the root has depth 0).
    pub fn depth(&self, node_id: NodeId) -> (res: usize)
        requires
            self.wf(),
            node_id < self.nodes.len(),
        ensures
            res == ancestors(self.ns(), node_id).len(),
    {
        let ghost ns = self.ns();
        let ghost rank = choose|rank: Seq<nat>| ranked(ns, rank);
        proof {
            lemma_ancestors_unfold(ns, self.root, node_id);
            if ns[node_id as int].parent is Some {
                lemma_parent_rank(ns, self.root, rank, node_id);
            }
            assert(rank[node_id as int] < ns.len());
        }
        let mut depth: usize = 0;
        let mut current = self.nodes[node_id].parent;
        let ghost mut seen: Seq<NodeId> = Seq::empty();
        while current.is_some()
            invariant
                ns == self.ns(),
                self.wf(),
                ranked(ns, rank),
                ancestors(ns, node_id) == seen + ancestors_from(ns, current),
                depth == seen.len(),
                ns.len() == self.nodes.len(),
                current matches Some(c) ==> c < ns.len(),
                depth + (match current { Some(c) => rank[c as int] + 1, None => 0 }) <= ns.len(),
            decreases match current { Some(c) => rank[c as int] + 1, None => 0 },
        {
            let pid = current.unwrap();
            proof {
                lemma_ancestors_unfold(ns, self.root, pid);
                if ns[pid as int].parent is Some {
                    lemma_parent_rank(ns, self.root, rank, pid);
                }
                seen = seen.push(pid);
            }
            depth = depth + 1;
            current = self.nodes[pid].parent;
            assert(ancestors(ns, node_id) =~= seen + ancestors_from(ns, current));
        }
        assert(ancestors(ns, node_id) =~= seen);
        depth
    }

    /// The side a node is drawn on, inherited from its first-level ancestor.
    pub fn effective_side(&self, node_id: NodeId) -> (res: Option<Side>)
        requires
            self.wf(),
            node_id < self.nodes.len(),
        ensures
            res == effective_side(self.ns(), self.root, node_id),
    {
        let ghost ns = self.ns();
        let ghost rank = choose|rank: Seq<nat>| ranked(ns, rank);
        let mut current = node_id;
        loop
            invariant
                ns == self.ns(),
                self.wf(),
                ranked(ns, rank),
                current < ns.len(),
                effective_side(ns, self.root, node_id) == effective_side(ns, self.root, current),
            decreases rank[current as int],
        {
            proof {
                lemma_effective_side_unfold(ns, self.root, current);
                if ns[current as int].parent is Some {
                    lemma_parent_rank(ns, self.root, rank, current);
                }
            }
            let node = &self.nodes[current];
            if node.position.is_some() {
                return node.position;
            }
            match node.parent {
                Some(p) => {
                    if p != self.root {
                        current = p;
                    } else {
                        return None;
                    }
                },
                None => {
                    return None;
                },
            }
        }
    }

    /// The position of `node_id` among its parent's children.
    pub fn child_index(&self, node_id: NodeId) -> (res: Option<usize>)
        requires
            self.wf(),
            node_id < self.nodes.len(),
        ensures
            res == match self.ns()[node_id as int].parent {
                Some(p) => Some(self.ns()[p as int].children.index_of(node_id) as usize),
                None => None::<usize>,
            },
    {
        let ghost ns = self.ns();
        match self.nodes[node_id].parent {
            Some(p) => {
                assert(parent_ok(ns, node_id as int));
                assert(children_ok(ns, p as int));
                let i = position_of(&self.nodes[p].children, node_id);
                Some(i)
            },
            None => None,
        }
    }
}

/// The index of `x` in `v`, which holds it.
pub fn position_of(v: &Vec<NodeId>, x: NodeId) -> (res: usize)
    requires
        v@.contains(x),
        v@.no_duplicates(),
    ensures
        res == v@.index_of(x),
        res < v@.len(),
        v@[res as int] == x,
{
    let mut i: usize = 0;
    while i < v.len()
        invariant
            v@.contains(x),
            v@.no_duplicates(),
            i <= v.len(),
            forall|j: int| 0 <= j < i ==> v@[j] != x,
        decreases v.len() - i,
    {
        if v[i] == x {
            assert(v@.index_of(x) == i) by {
                let j = v@.index_of(x);
                assert(v@[j] == x);
            }
            return i;
        }
        i = i + 1;
    }
    assert(false);
    0
}

/// The index of `x` in `v`, if it occurs.
pub fn find_position(v: &[NodeId], x: NodeId) -> (res: Option<usize>)
    ensures
        match res {
            Some(i) => i < v@.len() && v@[i as int] == x && forall|j: int| 0 <= j < i ==> v@[j] != x,
            None => !v@.contains(x),
        },
{
    let mut i: usize = 0;
    while i < v.len()
        invariant
            i <= v@.len(),
            forall|j: int| 0 <= j < i ==> v@[j] != x,
        decreases v@.len() - i,
    {
        if v[i] == x {
            return Some(i);
        }
        i = i + 1;
    }
    None
}

/// Which depth-first traversal an operation performs.
#[derive(Clone, Copy, PartialEq, Eq, Structural)]
pub enum WalkKind {
    All,
    Live,
    Visible,
    Unfolded,
}

impl MindmapTree {
    pub open spec fn mode_of(&self, kind: WalkKind) -> WalkMode {
        match kind {
            WalkKind::All => WalkMode::All,
            WalkKind::Live => WalkMode::Live,
            WalkKind::Visible => self.visible_mode(),
            WalkKind::Unfolded => WalkMode::Unfolded,
        }
    }

    /// The children shown for `node_id`: all of them, or only the first
    /// `sibling_limit` when it has more and is not force-expanded.
    pub fn visible_children(&self, node_id: NodeId) -> (res: &[NodeId])
        requires
            node_id < self.nodes.len(),
        ensures
            res@ == visible_slice(
                self.ns()[node_id as int].children,
                node_id,
                self.sibling_limit as nat,
                self.force_expanded@,
            ),
    {
        let children = &self.nodes[node_id].children;
        if children.len() <= self.sibling_limit || self.force_expanded.contains(&node_id) {
            children.as_slice()
        } else {
            let s = children.as_slice();
            let r = &s[0..self.sibling_limit];
            assert(r@ =~= children@.take(self.sibling_limit as int));
            r
        }
    }

    /// Number of children of `node_id` hidden by the sibling limit.
    pub fn hidden_child_count(&self, node_id: NodeId) -> (res: usize)
        requires
            node_id < self.nodes.len(),
        ensures
            res == self.ns()[node_id as int].children.len() - visible_slice(
                self.ns()[node_id as int].children,
                node_id,
                self.sibling_limit as nat,
                self.force_expanded@,
            ).len(),
    {
        let total = self.nodes[node_id].children.len();
        let visible = self.visible_children(node_id).len();
        total - visible
    }

    fn kids(&self, id: NodeId, kind: WalkKind) -> (res: &[NodeId])
        requires
            id < self.nodes.len(),
        ensures
            res@ == walk_kids(self.ns(), self.mode_of(kind), id),
    {
        match kind {
            WalkKind::Visible => {
                if self.nodes[id].folded {
                    let e: &[NodeId] = &[];
                    assert(e@ =~= Seq::<NodeId>::empty());
                    e
                } else {
                    self.visible_children(id)
                }
            },
            WalkKind::Unfolded => {
                if self.nodes[id].folded {
                    let e: &[NodeId] = &[];
                    assert(e@ =~= Seq::<NodeId>::empty());
                    e
                } else {
                    self.nodes[id].children.as_slice()
                }
            },
            _ => self.nodes[id].children.as_slice(),
        }
    }

    fn keeps(&self, id: NodeId, kind: WalkKind) -> (res: bool)
        requires
            id < self.nodes.len(),
        ensures
            res == walk_keep(self.ns(), self.mode_of(kind), id),
    {
        match kind {
            WalkKind::Live => !self.nodes[id].text.as_str().is_empty(),
            _ => true,
        }
    }

    /// Pre-order depth-first listing from `start` as the traversal `kind` defines it.
    pub(crate) fn collect_walk(&self, start: NodeId, kind: WalkKind) -> (res: Vec<NodeId>)
        requires
            self.wf(),
            start < self.nodes.len(),
        ensures
            res@ == ids_of(traversal(self.ns(), self.mode_of(kind), start, 0)),
    {
        let ghost ns = self.ns();
        let ghost m = self.mode_of(kind);
        let ghost rank = choose|rank: Seq<nat>| ranked(ns, rank);
        let ghost full = traversal(ns, m, start, 0);
        let mut result: Vec<NodeId> = Vec::new();
        let mut stack: Vec<NodeId> = Vec::new();
        stack.push(start);
        let ghost mut gs: Seq<(NodeId, nat)> = seq![(start, 0nat)];
        let ghost mut rp: Seq<(NodeId, nat)> = Seq::empty();
        proof {
            lemma_pending_single(ns, m, start, 0);
            assert(stack@ =~= ids_of(gs));
        }
        while stack.len() > 0
            invariant
                ns == self.ns(),
                self.wf(),
                m == self.mode_of(kind),
                ranked(ns, rank),
                stack@ == ids_of(gs),
                forall|k: int| 0 <= k < gs.len() ==> (#[trigger] gs[k]).0 < ns.len(),
                rp + pending(ns, m, gs) == full,
                result@ == ids_of(rp),
            decreases full.len() - rp.len(), stack.len(),
        {
            let ghost top = gs.last();
            let ghost rest = gs.drop_last();
            let id = stack.pop().unwrap();
            proof {
                assert(stack@ =~= ids_of(rest));
                assert(id == top.0);
                lemma_traversal_unfold(ns, rank, m, id, top.1);
                gs = rest;
            }
            if !self.keeps(id, kind) {
                assert(rp + pending(ns, m, gs) =~= full);
                continue;
            }
            result.push(id);
            proof {
                rp = rp.push(top);
            }
            let ks = self.kids(id, kind);
            proof {
                lemma_kids_ranked(ns, rank, m, id);
            }
            let mut k = ks.len();
            while k > 0
                invariant
                    ns == self.ns(),
                    ks@ == walk_kids(ns, m, id),
                    k <= ks@.len(),
                    forall|j: int| 0 <= j < ks@.len() ==> ks@[j] < ns.len(),
                    gs == rest + at_depth(ks@.subrange(k as int, ks@.len() as int), top.1 + 1).reverse(),
                    stack@ == ids_of(gs),
                    forall|j: int| 0 <= j < rest.len() ==> (#[trigger] rest[j]).0 < ns.len(),
                decreases k,
            {
                k = k - 1;
                stack.push(ks[k]);
                proof {
                    let old_gs = gs;
                    gs = gs.push((ks@[k as int], top.1 + 1));
                    assert(gs =~= rest + at_depth(ks@.subrange(k as int, ks@.len() as int), top.1 + 1).reverse());
                    assert(stack@ =~= ids_of(gs));
                }
            }
            proof {
                assert(ks@.subrange(0, ks@.len() as int) =~= ks@);
                lemma_pending_push_rev(ns, m, rest, ks@, top.1 + 1);
                assert forall|j: int| 0 <= j < gs.len() implies (#[trigger] gs[j]).0 < ns.len() by {
                    if j >= rest.len() {
                        let jj = j - rest.len();
                        let q = ks@.len() - 1 - jj;
                        assert(gs[j] == (ks@[q], top.1 + 1));
                    }
                }
                assert(rp + pending(ns, m, gs) =~= full);
                assert(result@ =~= ids_of(rp));
            }
        }
        proof {
            assert(pending(ns, m, gs) =~= Seq::<(NodeId, nat)>::empty());
            assert(rp =~= full);
        }
        result
    }
}

/// The models of the nodes at `ids`, in order.
pub open spec fn nodes_at(ns: Seq<NodeView>, ids: Seq<NodeId>) -> Seq<NodeView> {
    ids.map_values(|i: NodeId| ns[i as int])
}

/// The shown nodes in the order they are drawn: pre-order from the root, skipping
/// the children of folded nodes and those beyond the sibling limit.
pub open spec fn visible_spec(t: &MindmapTree) -> Seq<NodeId> {
    ids_of(traversal(t.ns(), t.visible_mode(), t.root, 0))
}

/// The nodes with text in pre-order from the root; a node with empty (deleted)
/// text is skipped together with its subtree.
pub open spec fn live_order(t: &MindmapTree) -> Seq<NodeId> {
    ids_of(traversal(t.ns(), WalkMode::Live, t.root, 0))
}

/// Every node of the pre-order listing is a slot of the arena.
pub proof fn lemma_live_order_in_range(t: &MindmapTree)
    requires
        t.wf(),
    ensures
        forall|k: int| 0 <= k < live_order(t).len() ==> (#[trigger] live_order(t)[k]) < t.nodes.len(),
{
    let ns = t.ns();
    crate::walk::lemma_walk_parents(ns, t.root, WalkMode::Live, t.root, 0, ns.len());
    assert forall|k: int| 0 <= k < live_order(t).len() implies (#[trigger] live_order(t)[k]) < t.nodes.len() by {
        assert(live_order(t).contains(live_order(t)[k]));
    }
}

impl MindmapTree {
    /// The shown node ids: the cached list when one is held, else computed.
    pub fn visible_nodes(&self) -> (res: Vec<NodeId>)
        requires
            self.wf(),
        ensures
            res@ == match self.cache() {
                Some(c) => c,
                None => visible_spec(self),
            },
    {
        match &self.cached_visible {
            Some(v) => {
                let r = v.clone();
                assert(r@ =~= v@);
                r
            },
            None => self.compute_visible_nodes(),
        }
    }

    /// Computes the shown node ids from the tree, ignoring the cache.
    pub fn compute_visible_nodes(&self) -> (res: Vec<NodeId>)
        requires
            self.wf(),
        ensures
            res@ == visible_spec(self),
    {
        self.collect_walk(self.root, WalkKind::Visible)
    }

    /// Recomputes and stores the shown node ids.
    pub fn cache_visible_nodes(&mut self)
        requires
            old(self).wf(),
        ensures
            final(self).cache() == Some(visible_spec(old(self))),
            final(self).nodes == old(self).nodes,
            final(self).same_settings(old(self)),
    {
        let v = self.compute_visible_nodes();
        self.cached_visible = Some(v);
    }

    /// Drops the cached shown-node list.
    pub fn invalidate_visible_cache(&mut self)
        ensures
            final(self).cache() is None,
            final(self).nodes == old(self).nodes,
            final(self).same_settings(old(self)),
    {
        self.cached_visible = None;
    }

    /// Shows all children of `parent_id` regardless of the sibling limit.
    pub fn expand_siblings(&mut self, parent_id: NodeId)
        ensures
            final(self).force_expanded@ == old(self).force_expanded@.insert(parent_id),
            final(self).cache() is None,
            final(self).nodes == old(self).nodes,
            final(self).root == old(self).root,
            final(self).next_id() == old(self).next_id(),
            final(self).sibling_limit == old(self).sibling_limit,
            final(self).cached_max_depth == old(self).cached_max_depth,
    {
        self.force_expanded.insert(parent_id);
        self.cached_visible = None;
    }

    /// Folds or unfolds a node that has children; a leaf is left as it is.
    pub fn toggle_fold(&mut self, node_id: NodeId)
        requires
            old(self).wf(),
            node_id < old(self).nodes.len(),
        ensures
            final(self).ns() == if old(self).ns()[node_id as int].children.len() > 0 {
                old(self).ns().update(
                    node_id as int,
                    NodeView { folded: !old(self).ns()[node_id as int].folded, ..old(self).ns()[node_id as int] },
                )
            } else {
                old(self).ns()
            },
            final(self).cache() == if old(self).ns()[node_id as int].children.len() > 0 {
                None
            } else {
                old(self).cache()
            },
            final(self).wf(),
            final(self).same_settings(old(self)),
    {
        let ghost ns = self.ns();
        if !self.nodes[node_id].children.is_empty() {
            let f = self.nodes[node_id].folded;
            self.nodes[node_id].folded = !f;
            self.cached_visible = None;
            proof {
                assert(self.ns() =~= ns.update(node_id as int, NodeView { folded: !ns[node_id as int].folded, ..ns[node_id as int] }));
                lemma_wf_same_shape(ns, self.ns(), self.root);
            }
        }
    }

    /// The nodes of the subtree under `node_id` in pre-order.
    pub fn collect_subtree(&self, node_id: NodeId) -> (res: Vec<NodeId>)
        requires
            self.wf(),
            node_id < self.nodes.len(),
        ensures
            res@ == subtree(self.ns(), node_id),
    {
        self.collect_walk(node_id, WalkKind::All)
    }

    /// Copies of the nodes at `ids`, in order.
    pub(crate) fn copies_of(&self, ids: &Vec<NodeId>) -> (res: Vec<MindmapNode>)
        requires
            forall|k: int| 0 <= k < ids@.len() ==> ids@[k] < self.nodes.len(),
        ensures
            view_nodes(res@) == nodes_at(self.ns(), ids@),
    {
        let mut out: Vec<MindmapNode> = Vec::new();
        let mut i: usize = 0;
        while i < ids.len()
            invariant
                i <= ids.len(),
                forall|k: int| 0 <= k < ids@.len() ==> ids@[k] < self.nodes.len(),
                view_nodes(out@) == nodes_at(self.ns(), ids@.take(i as int)),
                out@.len() == i,
            decreases ids.len() - i,
        {
            let ghost prev = out@;
            let c = self.nodes[ids[i]].duplicate();
            out.push(c);
            proof {
                assert(out@ == prev.push(c));
                assert(c@ == self.ns()[ids@[i as int] as int]);
                assert forall|j: int| 0 <= j <= i implies #[trigger] view_nodes(out@)[j] == nodes_at(self.ns(), ids@.take(i + 1))[j] by {
                    if j < i {
                        assert(view_nodes(prev)[j] == nodes_at(self.ns(), ids@.take(i as int))[j]);
                        assert(out@[j] == prev[j]);
                    } else {
                        assert(out@[j] == c);
                    }
                }
            }
            i = i + 1;
            assert(view_nodes(out@) =~= nodes_at(self.ns(), ids@.take(i as int)));
        }
        assert(ids@.take(i as int) =~= ids@);
        out
    }

    /// Deletes `node_id` and all its descendants: the node leaves its parent's
    /// child list and every node of the subtree is emptied (no text, parent or
    /// children) but keeps its arena slot. Returns copies of the subtree's nodes
    /// as they were, in pre-order, or `None` for the root, which is never deleted.
    pub fn delete_subtree(&mut self, node_id: NodeId) -> (res: Option<Vec<MindmapNode>>)
        requires
            old(self).wf(),
            node_id < old(self).nodes.len(),
        ensures
            node_id == old(self).root ==> res is None && *final(self) == *old(self),
            node_id != old(self).root ==> {
                &&& res matches Some(saved)
                &&& view_nodes(saved@) == nodes_at(old(self).ns(), subtree(old(self).ns(), node_id))
                &&& final(self).ns() == after_delete(old(self).ns(), node_id)
                &&& final(self).cache() is None
            },
            final(self).wf(),
            final(self).same_settings(old(self)),
    {
        if node_id == self.root {
            return None;
        }
        let ghost ns = self.ns();
        proof {
            lemma_subtree_facts(ns, self.root, node_id);
        }
        let ids = self.collect_subtree(node_id);
        assert forall|k: int| 0 <= k < ids@.len() implies ids@[k] < self.nodes.len() by {
            assert(ids@[k] == subtree(ns, node_id)[k]);
            assert(in_subtree(ns, node_id, ids@[k]));
        }
        let saved = self.copies_of(&ids);
        let ghost d = match ns[node_id as int].parent {
            Some(p) => detach(ns, p, node_id),
            None => ns,
        };
        if let Some(parent_id) = self.nodes[node_id].parent {
            proof {
                assert(parent_ok(ns, node_id as int));
                assert(children_ok(ns, parent_id as int));
            }
            let idx = position_of(&self.nodes[parent_id].children, node_id);
            self.nodes[parent_id].children.remove(idx);
            assert(self.ns() =~= d);
        }
        assert(self.ns() =~= d);
        let mut i: usize = 0;
        while i < ids.len()
            invariant
                ids@ == subtree(ns, node_id),
                forall|x: NodeId| #[trigger] in_subtree(ns, node_id, x) ==> x < ns.len(),
                d.len() == ns.len(),
                self.nodes.len() == ns.len(),
                i <= ids.len(),
                self.ns() == Seq::new(
                    ns.len(),
                    |j: int| if ids@.take(i as int).contains(j as NodeId) { cleared(d[j]) } else { d[j] },
                ),
                self.root == old(self).root,
                self.next_freemind_id == old(self).next_freemind_id,
                self.cached_max_depth == old(self).cached_max_depth,
                self.sibling_limit == old(self).sibling_limit,
                self.force_expanded == old(self).force_expanded,
            decreases ids.len() - i,
        {
            let id = ids[i];
            assert(in_subtree(ns, node_id, id)) by {
                assert(subtree(ns, node_id)[i as int] == id);
            }
            let ghost before = self.ns();
            self.nodes[id].children.clear();
            self.nodes[id].parent = None;
            self.nodes[id].text = String::new();
            i = i + 1;
            proof {
                assert(self.ns()[id as int].children =~= Seq::<NodeId>::empty());
                assert(self.ns()[id as int] == cleared(before[id as int]));
                assert forall|j: int| 0 <= j < ns.len() && j != id implies #[trigger] self.ns()[j] == before[j] by {
                }
                assert forall|j: int| 0 <= j < ns.len() implies #[trigger] self.ns()[j] == (if ids@.take(i as int).contains(j as NodeId) { cleared(d[j]) } else { d[j] }) by {
                    if j == id {
                        assert(ids@.take(i as int)[i - 1] == id);
                    } else {
                        let t1 = ids@.take(i as int);
                        let t0 = ids@.take(i - 1);
                        if t1.contains(j as NodeId) {
                            let k = choose|k: int| 0 <= k < t1.len() && t1[k] == j;
                            assert(t0[k] == j);
                        }
                        if t0.contains(j as NodeId) {
                            let k = choose|k: int| 0 <= k < t0.len() && t0[k] == j;
                            assert(t1[k] == j);
                        }
                    }
                }
                assert(self.ns() =~= Seq::new(
                    ns.len(),
                    |j: int| if ids@.take(i as int).contains(j as NodeId) { cleared(d[j]) } else { d[j] },
                ));
            }
        }
        self.cached_visible = None;
        proof {
            assert(ids@.take(i as int) =~= ids@);
            assert(self.ns() =~= after_delete(ns, node_id));
            lemma_wf_delete(ns, self.root, node_id);
        }
        Some(saved)
    }
}

/// The child list after exchanging the entries at `a` and `b`.
pub open spec fn swapped(cs: Seq<NodeId>, a: int, b: int) -> Seq<NodeId> {
    cs.update(a, cs[b]).update(b, cs[a])
}

/// The neighbour at distance `delta` of `n` among the children `p` shows, if any.
pub open spec fn shown_neighbour(t: &MindmapTree, n: NodeId, delta: int) -> Option<NodeId> {
    match t.ns()[n as int].parent {
        Some(p) => {
            let vs = visible_slice(t.ns()[p as int].children, p, t.sibling_limit as nat, t.force_expanded@);
            if vs.contains(n) && 0 <= vs.index_of(n) + delta < vs.len() {
                Some(vs[vs.index_of(n) + delta])
            } else {
                None
            }
        },
        None => None,
    }
}

/// The result of moving `n` by `delta` among all its parent's children.
pub open spec fn sibling_move(ns: Seq<NodeView>, n: NodeId, delta: int) -> Option<(NodeId, usize, usize)> {
    match ns[n as int].parent {
        Some(p) => {
            let cs = ns[p as int].children;
            let i = cs.index_of(n);
            if 0 <= i + delta < cs.len() {
                Some((p, i as usize, (i + delta) as usize))
            } else {
                None
            }
        },
        None => None,
    }
}

impl MindmapTree {
    /// Adds a node with `text` right after `node_id` under the same parent, on the
    /// same side. For a node without parent this adds a child instead.
    pub fn add_sibling(&mut self, node_id: NodeId, text: &str) -> (new_id: NodeId)
        requires
            old(self).wf(),
            node_id < old(self).nodes.len(),
            old(self).nodes.len() < usize::MAX,
        ensures
            new_id == old(self).nodes.len(),
            final(self).ns() == match old(self).ns()[node_id as int].parent {
                Some(p) => added_sibling(old(self).ns(), node_id, p, freemind_id_text(old(self).next_id()), text@, true),
                None => added_child(old(self).ns(), old(self).root, node_id, freemind_id_text(old(self).next_id()), text@),
            },
            final(self).wf(),
            final(self).next_id() == old(self).next_id().wrapping_add(1),
            final(self).cache() is None,
            final(self).root == old(self).root,
            final(self).cached_max_depth == old(self).cached_max_depth,
            final(self).sibling_limit == old(self).sibling_limit,
            final(self).force_expanded@ == old(self).force_expanded@,
            ids_below(old(self).ns(), old(self).next_id()) ==> forall|i: int| 0 <= i < old(self).nodes.len()
                ==> #[trigger] old(self).ns()[i].freemind_id != freemind_id_text(old(self).next_id()),
            ids_below(old(self).ns(), old(self).next_id()) && old(self).next_id() < u64::MAX
                ==> ids_below(final(self).ns(), final(self).next_id()),
    {
        self.add_next_to(node_id, text, true)
    }

    /// Adds a node with `text` right before `node_id` under the same parent, on the
    /// same side. For a node without parent this adds a child instead.
    pub fn add_sibling_before(&mut self, node_id: NodeId, text: &str) -> (new_id: NodeId)
        requires
            old(self).wf(),
            node_id < old(self).nodes.len(),
            old(self).nodes.len() < usize::MAX,
        ensures
            new_id == old(self).nodes.len(),
            final(self).ns() == match old(self).ns()[node_id as int].parent {
                Some(p) => added_sibling(old(self).ns(), node_id, p, freemind_id_text(old(self).next_id()), text@, false),
                None => added_child(old(self).ns(), old(self).root, node_id, freemind_id_text(old(self).next_id()), text@),
            },
            final(self).wf(),
            final(self).next_id() == old(self).next_id().wrapping_add(1),
            final(self).cache() is None,
            final(self).root == old(self).root,
            final(self).cached_max_depth == old(self).cached_max_depth,
            final(self).sibling_limit == old(self).sibling_limit,
            final(self).force_expanded@ == old(self).force_expanded@,
            ids_below(old(self).ns(), old(self).next_id()) ==> forall|i: int| 0 <= i < old(self).nodes.len()
                ==> #[trigger] old(self).ns()[i].freemind_id != freemind_id_text(old(self).next_id()),
            ids_below(old(self).ns(), old(self).next_id()) && old(self).next_id() < u64::MAX
                ==> ids_below(final(self).ns(), final(self).next_id()),
    {
        self.add_next_to(node_id, text, false)
    }

    fn add_next_to(&mut self, node_id: NodeId, text: &str, after: bool) -> (new_id: NodeId)
        requires
            old(self).wf(),
            node_id < old(self).nodes.len(),
            old(self).nodes.len() < usize::MAX,
        ensures
            new_id == old(self).nodes.len(),
            final(self).ns() == match old(self).ns()[node_id as int].parent {
                Some(p) => added_sibling(old(self).ns(), node_id, p, freemind_id_text(old(self).next_id()), text@, after),
                None => added_child(old(self).ns(), old(self).root, node_id, freemind_id_text(old(self).next_id()), text@),
            },
            final(self).wf(),
            final(self).next_id() == old(self).next_id().wrapping_add(1),
            final(self).cache() is None,
            final(self).root == old(self).root,
            final(self).cached_max_depth == old(self).cached_max_depth,
            final(self).sibling_limit == old(self).sibling_limit,
            final(self).force_expanded@ == old(self).force_expanded@,
            ids_below(old(self).ns(), old(self).next_id()) ==> forall|i: int| 0 <= i < old(self).nodes.len()
                ==> #[trigger] old(self).ns()[i].freemind_id != freemind_id_text(old(self).next_id()),
            ids_below(old(self).ns(), old(self).next_id()) && old(self).next_id() < u64::MAX
                ==> ids_below(final(self).ns(), final(self).next_id()),
    {
        let ghost ns = self.ns();
        let parent_id = match self.nodes[node_id].parent {
            Some(p) => p,
            None => {
                return self.add_child(node_id, text);
            },
        };
        proof {
            assert(parent_ok(ns, node_id as int));
            assert(children_ok(ns, parent_id as int));
        }
        let new_id = self.nodes.len();
        let freemind_id = self.alloc_freemind_id();
        let mut node = MindmapNode::new(new_id, freemind_id, text.to_owned());
        node.parent = Some(parent_id);
        node.position = self.nodes[node_id].position;
        self.nodes.push(node);
        let idx = position_of(&self.nodes[parent_id].children, node_id);
        let n = self.nodes[parent_id].children.len();
        assert(idx < n);
        let at = if after { idx + 1 } else { idx };
        self.nodes[parent_id].children.insert(at, new_id);
        self.cached_visible = None;
        proof {
            let ns2 = self.ns();
            let expect = added_sibling(ns, node_id, parent_id, freemind_id_text(old(self).next_id()), text@, after);
            assert(ns2 =~= expect);
            lemma_wf_add_leaf(ns, self.root, parent_id, at as int, ns2);
            if ids_below(ns, old(self).next_id()) {
                assert forall|i: int| 0 <= i < ns.len() implies #[trigger] ns2[i].freemind_id == ns[i].freemind_id by {
                    if i == parent_id {
                        assert(ns2[i] == expect[i]);
                    }
                }
                lemma_fresh_id_push(ns, ns2, old(self).next_id());
            }
        }
        new_id
    }

    /// The first shown child of a node that is not folded.
    pub fn first_visible_child(&self, node_id: NodeId) -> (res: Option<NodeId>)
        requires
            node_id < self.nodes.len(),
        ensures
            res == if self.ns()[node_id as int].folded {
                None
            } else {
                let vs = visible_slice(self.ns()[node_id as int].children, node_id, self.sibling_limit as nat, self.force_expanded@);
                if vs.len() > 0 { Some(vs[0]) } else { None }
            },
    {
        if self.nodes[node_id].folded {
            return None;
        }
        let vs = self.visible_children(node_id);
        if vs.len() > 0 {
            Some(vs[0])
        } else {
            None
        }
    }

    fn shown_sibling(&self, node_id: NodeId, forward: bool) -> (res: Option<NodeId>)
        requires
            self.wf(),
            node_id < self.nodes.len(),
        ensures
            res == shown_neighbour(self, node_id, if forward { 1 } else { -1 }),
    {
        let ghost ns = self.ns();
        let parent_id = match self.nodes[node_id].parent {
            Some(p) => p,
            None => {
                return None;
            },
        };
        proof {
            assert(parent_ok(ns, node_id as int));
            assert(children_ok(ns, parent_id as int));
        }
        let vs = self.visible_children(parent_id);
        let ghost cs = ns[parent_id as int].children;
        proof {
            assert(vs@.no_duplicates()) by {
                assert forall|a: int, b: int| 0 <= a < vs@.len() && 0 <= b < vs@.len() && a != b implies vs@[a] != vs@[b] by {
                    assert(vs@[a] == cs[a]);
                    assert(vs@[b] == cs[b]);
                }
            }
        }
        match find_position(vs, node_id) {
            Some(idx) => {
                assert(vs@.index_of(node_id) == idx) by {
                    let j = vs@.index_of(node_id);
                    assert(vs@.contains(node_id));
                    assert(vs@[j] == node_id);
                }
                if forward {
                    if idx < vs.len() - 1 {
                        Some(vs[idx + 1])
                    } else {
                        None
                    }
                } else {
                    if idx > 0 {
                        Some(vs[idx - 1])
                    } else {
                        None
                    }
                }
            },
            None => None,
        }
    }

    /// The shown sibling just before `node_id`.
    pub fn prev_sibling(&self, node_id: NodeId) -> (res: Option<NodeId>)
        requires
            self.wf(),
            node_id < self.nodes.len(),
        ensures
            res == shown_neighbour(self, node_id, -1),
    {
        self.shown_sibling(node_id, false)
    }

    /// The shown sibling just after `node_id`.
    pub fn next_sibling(&self, node_id: NodeId) -> (res: Option<NodeId>)
        requires
            self.wf(),
            node_id < self.nodes.len(),
        ensures
            res == shown_neighbour(self, node_id, 1),
    {
        self.shown_sibling(node_id, true)
    }

    fn move_sibling(&mut self, node_id: NodeId, up: bool) -> (res: Option<(NodeId, usize, usize)>)
        requires
            old(self).wf(),
            node_id < old(self).nodes.len(),
        ensures
            res == sibling_move(old(self).ns(), node_id, if up { -1 } else { 1 }),
            final(self).ns() == match res {
                Some((p, i, j)) => old(self).ns().update(
                    p as int,
                    NodeView { children: swapped(old(self).ns()[p as int].children, i as int, j as int), ..old(self).ns()[p as int] },
                ),
                None => old(self).ns(),
            },
            final(self).wf(),
            final(self).cache() == old(self).cache(),
            final(self).same_settings(old(self)),
    {
        let ghost ns = self.ns();
        let parent_id = match self.nodes[node_id].parent {
            Some(p) => p,
            None => {
                return None;
            },
        };
        proof {
            assert(parent_ok(ns, node_id as int));
            assert(children_ok(ns, parent_id as int));
        }
        let idx = position_of(&self.nodes[parent_id].children, node_id);
        let len = self.nodes[parent_id].children.len();
        let new_idx = if up {
            if idx == 0 {
                return None;
            }
            idx - 1
        } else {
            if idx + 1 >= len {
                return None;
            }
            idx + 1
        };
        let a = self.nodes[parent_id].children[idx];
        let b = self.nodes[parent_id].children[new_idx];
        self.nodes[parent_id].children[idx] = b;
        self.nodes[parent_id].children[new_idx] = a;
        proof {
            let cs = ns[parent_id as int].children;
            let cs2 = swapped(cs, idx as int, new_idx as int);
            assert(self.ns() =~= ns.update(parent_id as int, NodeView { children: cs2, ..ns[parent_id as int] }));
            assert forall|x: NodeId| cs2.contains(x) <==> cs.contains(x) by {
                if cs.contains(x) {
                    let k = choose|k: int| 0 <= k < cs.len() && cs[k] == x;
                    if k == idx {
                        assert(cs2[new_idx as int] == x);
                    } else if k == new_idx {
                        assert(cs2[idx as int] == x);
                    } else {
                        assert(cs2[k] == x);
                    }
                }
                if cs2.contains(x) {
                    let k = choose|k: int| 0 <= k < cs2.len() && cs2[k] == x;
                    if k == idx {
                        assert(cs[new_idx as int] == x);
                    } else if k == new_idx {
                        assert(cs[idx as int] == x);
                    } else {
                        assert(cs[k] == x);
                    }
                }
            }
            assert(cs2.no_duplicates()) by {
                assert forall|p: int, q: int| 0 <= p < cs2.len() && 0 <= q < cs2.len() && p != q implies cs2[p] != cs2[q] by {
                    let op = if p == idx { new_idx as int } else if p == new_idx { idx as int } else { p };
                    let oq = if q == idx { new_idx as int } else if q == new_idx { idx as int } else { q };
                    assert(cs2[p] == cs[op]);
                    assert(cs2[q] == cs[oq]);
                }
            }
            lemma_wf_reorder_children(ns, self.root, parent_id, self.ns());
        }
        Some((parent_id, idx, new_idx))
    }

    /// Moves a node one place earlier among its parent's children. Returns
    /// (parent, old index, new index), or `None` when it is first or has no parent.
    pub fn move_sibling_up(&mut self, node_id: NodeId) -> (res: Option<(NodeId, usize, usize)>)
        requires
            old(self).wf(),
            node_id < old(self).nodes.len(),
        ensures
            res == sibling_move(old(self).ns(), node_id, -1),
            final(self).ns() == match res {
                Some((p, i, j)) => old(self).ns().update(
                    p as int,
                    NodeView { children: swapped(old(self).ns()[p as int].children, i as int, j as int), ..old(self).ns()[p as int] },
                ),
                None => old(self).ns(),
            },
            final(self).wf(),
            final(self).cache() == old(self).cache(),
            final(self).same_settings(old(self)),
    {
        self.move_sibling(node_id, true)
    }

    /// Moves a node one place later among its parent's children. Returns
    /// (parent, old index, new index), or `None` when it is last or has no parent.
    pub fn move_sibling_down(&mut self, node_id: NodeId) -> (res: Option<(NodeId, usize, usize)>)
        requires
            old(self).wf(),
            node_id < old(self).nodes.len(),
        ensures
            res == sibling_move(old(self).ns(), node_id, 1),
            final(self).ns() == match res {
                Some((p, i, j)) => old(self).ns().update(
                    p as int,
                    NodeView { children: swapped(old(self).ns()[p as int].children, i as int, j as int), ..old(self).ns()[p as int] },
                ),
                None => old(self).ns(),
            },
            final(self).wf(),
            final(self).cache() == old(self).cache(),
            final(self).same_settings(old(self)),
    {
        self.move_sibling(node_id, false)
    }

    /// All nodes with text in pre-order; deleted nodes and their subtrees are skipped.
    pub fn dfs_order(&self) -> (res: Vec<NodeId>)
        requires
            self.wf(),
        ensures
            res@ == live_order(self),
    {
        self.collect_walk(self.root, WalkKind::Live)
    }
}

/// Some proper ancestor of `x` is in `sel`.
pub open spec fn ancestor_in(ns: Seq<NodeView>, x: NodeId, sel: Set<NodeId>) -> bool {
    exists|k: int| 0 <= k < ancestors(ns, x).len() && sel.contains(#[trigger] ancestors(ns, x)[k])
}

impl MindmapTree {
    fn has_ancestor_in(&self, node_id: NodeId, selected: &HashSet<NodeId>) -> (res: bool)
        requires
            self.wf(),
            node_id < self.nodes.len(),
        ensures
            res == ancestor_in(self.ns(), node_id, selected@),
    {
        let ghost ns = self.ns();
        let ghost rank = choose|rank: Seq<nat>| ranked(ns, rank);
        proof {
            lemma_ancestors_unfold(ns, self.root, node_id);
            if ns[node_id as int].parent is Some {
                lemma_parent_rank(ns, self.root, rank, node_id);
            }
        }
        let mut current = self.nodes[node_id].parent;
        let ghost mut seen: Seq<NodeId> = Seq::empty();
        while current.is_some()
            invariant
                ns == self.ns(),
                self.wf(),
                ranked(ns, rank),
                ancestors(ns, node_id) == seen + ancestors_from(ns, current),
                forall|k: int| 0 <= k < seen.len() ==> !selected@.contains(#[trigger] seen[k]),
                current matches Some(c) ==> c < ns.len(),
            decreases match current { Some(c) => rank[c as int] + 1, None => 0 },
        {
            let pid = current.unwrap();
            proof {
                lemma_ancestors_unfold(ns, self.root, pid);
                if ns[pid as int].parent is Some {
                    lemma_parent_rank(ns, self.root, rank, pid);
                }
            }
            if selected.contains(&pid) {
                assert(ancestors(ns, node_id)[seen.len() as int] == pid);
                return true;
            }
            proof {
                seen = seen.push(pid);
            }
            current = self.nodes[pid].parent;
            assert(ancestors(ns, node_id) =~= seen + ancestors_from(ns, current));
        }
        assert(ancestors(ns, node_id) =~= seen);
        false
    }

    /// The selected nodes none of whose ancestors is also selected, each once, in
    /// the set's iteration order.
    pub fn deduplicate_selection(&self, selected: &HashSet<NodeId>) -> (res: Vec<NodeId>)
        requires
            self.wf(),
            forall|x: NodeId| selected@.contains(x) ==> x < self.nodes.len(),
        ensures
            res@.no_duplicates(),
            forall|x: NodeId| res@.contains(x) <==> (selected@.contains(x) && !ancestor_in(self.ns(), x, selected@)),
    {
        let mut result: Vec<NodeId> = Vec::new();
        let ghost keys: Seq<NodeId> = vstd::std_specs::hash::spec_hash_keys_iter(selected).remaining().unref();
        proof {
            vstd::std_specs::hash::axiom_spec_hash_keys_iter(selected);
        }
        for r in it: selected.iter()
            invariant
                self.wf(),
                forall|x: NodeId| selected@.contains(x) ==> x < self.nodes.len(),
                it.seq() == vstd::std_specs::hash::spec_hash_keys_iter(selected).remaining(),
                keys == it.seq().unref(),
                keys.no_duplicates(),
                keys.to_set() == selected@,
                result@.no_duplicates(),
                forall|x: NodeId| result@.contains(x) <==> (keys.take(it.index() as int).contains(x) && !ancestor_in(self.ns(), x, selected@)),
        {
            let id = *r;
            let ghost i = it.index();
            assert(keys[i] == id);
            assert(selected@.contains(id)) by {
                assert(keys.to_set().contains(id));
            }
            let ghost before = result@;
            let ghost t0 = keys.take(i);
            let ghost t1 = keys.take(i + 1);
            assert(!t0.contains(id)) by {
                if t0.contains(id) {
                    let k = choose|k: int| 0 <= k < t0.len() && t0[k] == id;
                    assert(keys[k] == id);
                }
            }
            assert(!before.contains(id));
            assert forall|x: NodeId| x != id implies (t1.contains(x) <==> t0.contains(x)) by {
                if t1.contains(x) {
                    let k = choose|k: int| 0 <= k < t1.len() && t1[k] == x;
                    assert(t0[k] == x);
                }
                if t0.contains(x) {
                    let k = choose|k: int| 0 <= k < t0.len() && t0[k] == x;
                    assert(t1[k] == x);
                }
            }
            assert(t1[i] == id);
            assert(forall|x: NodeId| before.contains(x) <==> (t0.contains(x) && !ancestor_in(self.ns(), x, selected@)));
            let skip = self.has_ancestor_in(id, selected);
            if !skip {
                result.push(id);
                assert forall|x: NodeId| result@.contains(x) <==> before.contains(x) || x == id by {
                    if result@.contains(x) && x != id {
                        let k = choose|k: int| 0 <= k < result@.len() && result@[k] == x;
                        assert(before[k] == x);
                    }
                    if before.contains(x) {
                        let k = choose|k: int| 0 <= k < before.len() && before[k] == x;
                        assert(result@[k] == x);
                    }
                    if x == id {
                        assert(result@[before.len() as int] == id);
                    }
                }
            }
            assert forall|x: NodeId| result@.contains(x) <==> (t1.contains(x) && !ancestor_in(self.ns(), x, selected@)) by {
                if skip {
                    assert(result@ == before);
                }
                if x != id {
                    assert(t1.contains(x) <==> t0.contains(x));
                } else {
                    assert(t1.contains(x));
                }
            }
        }
        proof {
            assert(keys.take(keys.len() as int) =~= keys);
            assert forall|x: NodeId| selected@.contains(x) implies keys.contains(x) by {
                assert(keys.to_set().contains(x));
            }
        }
        result
    }
}

/// Whether revealing `n` needs its parent expanded past the sibling limit.
pub open spec fn hidden_by_limit(t: &MindmapTree, n: NodeId) -> bool {
    match t.ns()[n as int].parent {
        Some(p) => {
            let cs = t.ns()[p as int].children;
            &&& cs.len() > t.sibling_limit
            &&& !t.force_expanded@.contains(p)
            &&& cs.contains(n)
            &&& cs.index_of(n) >= t.sibling_limit
        },
        None => false,
    }
}

/// The arena with every node of `ids` unfolded.
pub open spec fn unfolded(ns: Seq<NodeView>, ids: Seq<NodeId>) -> Seq<NodeView> {
    Seq::new(ns.len(), |i: int| if ids.contains(i as NodeId) { NodeView { folded: false, ..ns[i] } } else { ns[i] })
}

impl MindmapTree {
    /// Unfolds every folded ancestor of `node_id` and, when the node sits beyond its
    /// parent's sibling limit, expands that parent. Returns whether anything changed.
    pub fn unfold_path_to(&mut self, node_id: NodeId) -> (changed: bool)
        requires
            old(self).wf(),
            node_id < old(self).nodes.len(),
        ensures
            final(self).ns() == unfolded(old(self).ns(), ancestors(old(self).ns(), node_id)),
            final(self).force_expanded@ == if hidden_by_limit(old(self), node_id) {
                old(self).force_expanded@.insert(old(self).ns()[node_id as int].parent->0)
            } else {
                old(self).force_expanded@
            },
            changed == (hidden_by_limit(old(self), node_id) || exists|k: int|
                0 <= k < ancestors(old(self).ns(), node_id).len() && old(self).ns()[ancestors(
                    old(self).ns(),
                    node_id,
                )[k] as int].folded),
            final(self).cache() == if changed { None } else { old(self).cache() },
            final(self).wf(),
            final(self).root == old(self).root,
            final(self).next_id() == old(self).next_id(),
            final(self).cached_max_depth == old(self).cached_max_depth,
            final(self).sibling_limit == old(self).sibling_limit,
    {
        let ghost ns = self.ns();
        let ghost rank = choose|rank: Seq<nat>| ranked(ns, rank);
        let ghost hidden = hidden_by_limit(self, node_id);
        let mut changed = false;
        if let Some(parent_id) = self.nodes[node_id].parent {
            proof {
                assert(parent_ok(ns, node_id as int));
                assert(children_ok(ns, parent_id as int));
            }
            let n = self.nodes[parent_id].children.len();
            if n > self.sibling_limit && !self.force_expanded.contains(&parent_id) {
                let idx = position_of(&self.nodes[parent_id].children, node_id);
                if idx >= self.sibling_limit {
                    self.force_expanded.insert(parent_id);
                    changed = true;
                }
            }
        }
        assert(changed == hidden);
        proof {
            lemma_ancestors_unfold(ns, self.root, node_id);
            if ns[node_id as int].parent is Some {
                lemma_parent_rank(ns, self.root, rank, node_id);
            }
        }
        let mut current = self.nodes[node_id].parent;
        let ghost mut seen: Seq<NodeId> = Seq::empty();
        assert(self.ns() =~= unfolded(ns, seen));
        while current.is_some()
            invariant
                ns.len() == self.nodes.len(),
                node_id < ns.len(),
                forest_wf(ns, self.root),
                ranked(ns, rank),
                ancestors(ns, node_id) == seen + ancestors_from(ns, current),
                forall|k: int| 0 <= k < ancestors(ns, node_id).len() ==> #[trigger] ancestors(ns, node_id)[k] < ns.len(),
                self.ns() == unfolded(ns, seen),
                changed == (hidden || exists|k: int| 0 <= k < seen.len() && ns[seen[k] as int].folded),
                forall|k: int| 0 <= k < seen.len() ==> #[trigger] seen[k] < ns.len(),
                current matches Some(c) ==> c < ns.len(),
                self.root == old(self).root,
                self.next_freemind_id == old(self).next_freemind_id,
                self.cached_max_depth == old(self).cached_max_depth,
                self.sibling_limit == old(self).sibling_limit,
                self.cached_visible == old(self).cached_visible,
                self.force_expanded@ == if hidden {
                    old(self).force_expanded@.insert(ns[node_id as int].parent->0)
                } else {
                    old(self).force_expanded@
                },
            decreases match current { Some(c) => rank[c as int] + 1, None => 0 },
        {
            let pid = current.unwrap();
            proof {
                lemma_ancestors_unfold(ns, self.root, pid);
                if ns[pid as int].parent is Some {
                    lemma_parent_rank(ns, self.root, rank, pid);
                }
            }
            let ghost was_folded = ns[pid as int].folded;
            let ghost old_seen = seen;
            let ghost before = self.ns();
            assert(self.nodes[pid as int]@ == self.ns()[pid as int]);
            assert(self.ns()[pid as int].folded == (ns[pid as int].folded && !seen.contains(pid)));
            if self.nodes[pid].folded {
                self.nodes[pid].folded = false;
                changed = true;
            }
            proof {
                assert(self.ns()[pid as int] == NodeView { folded: false, ..before[pid as int] });
                assert(forall|j: int| 0 <= j < ns.len() && j != pid ==> self.ns()[j] == before[j]);
                seen = seen.push(pid);
                assert(self.ns() =~= unfolded(ns, seen)) by {
                    assert forall|j: int| 0 <= j < ns.len() implies #[trigger] self.ns()[j] == unfolded(ns, seen)[j] by {
                        if j != pid {
                            assert(seen.contains(j as NodeId) <==> old_seen.contains(j as NodeId)) by {
                                if seen.contains(j as NodeId) {
                                    let k = choose|k: int| 0 <= k < seen.len() && seen[k] == j;
                                    assert(old_seen[k] == j);
                                }
                                if old_seen.contains(j as NodeId) {
                                    let k = choose|k: int| 0 <= k < old_seen.len() && old_seen[k] == j;
                                    assert(seen[k] == j);
                                }
                            }
                            assert(before[j] == unfolded(ns, old_seen)[j]);
                            assert(self.ns()[j] == before[j]);
                        } else {
                            assert(seen[seen.len() - 1] == pid);
                            assert(before[pid as int] == unfolded(ns, old_seen)[pid as int]);
                            assert(unfolded(ns, seen)[pid as int] == NodeView { folded: false, ..ns[pid as int] });
                        }
                    }
                }
                assert(changed == (hidden || exists|k: int| 0 <= k < seen.len() && ns[seen[k] as int].folded)) by {
                    if was_folded {
                        assert(ns[seen[seen.len() - 1] as int].folded);
                    }
                    if exists|k: int| 0 <= k < seen.len() && ns[seen[k] as int].folded {
                        let k = choose|k: int| 0 <= k < seen.len() && ns[seen[k] as int].folded;
                        if k < old_seen.len() {
                            assert(old_seen[k] == seen[k]);
                        }
                    }
                    if exists|k: int| 0 <= k < old_seen.len() && ns[old_seen[k] as int].folded {
                        let k = choose|k: int| 0 <= k < old_seen.len() && ns[old_seen[k] as int].folded;
                        assert(old_seen[k] == seen[k]);
                    }
                }
            }
            current = self.nodes[pid].parent;
            assert(ancestors(ns, node_id) =~= seen + ancestors_from(ns, current));
        }
        proof {
            assert(ancestors(ns, node_id) =~= seen);
            lemma_wf_same_shape(ns, self.ns(), self.root);
        }
        if changed {
            self.cached_visible = None;
        }
        changed
    }
}

/// The number carried by the `i`-th FreeMind id allocated from `start`.
pub open spec fn nth_id(start: u64, i: nat) -> u64
    decreases i,
{
    if i == 0 {
        start
    } else {
        nth_id(start, (i - 1) as nat).wrapping_add(1)
    }
}

/// Where pasting puts each original id of a blueprint: the `i`-th node goes to
/// slot `base + i`; a repeated id maps to its last slot.
pub open spec fn paste_map(bp: Seq<NodeView>, base: nat) -> Map<NodeId, NodeId>
    decreases bp.len(),
{
    if bp.len() == 0 {
        Map::empty()
    } else {
        paste_map(bp.drop_last(), base).insert(bp.last().id, (base + bp.len() - 1) as NodeId)
    }
}

/// An id after pasting: its new slot if the blueprint holds it, else unchanged.
pub open spec fn remap(m: Map<NodeId, NodeId>, x: NodeId) -> NodeId {
    if m.dom().contains(x) { m[x] } else { x }
}

/// The `i`-th pasted node.
pub open spec fn pasted_node(
    ns: Seq<NodeView>,
    root: NodeId,
    bp: Seq<NodeView>,
    parent: NodeId,
    next: u64,
    i: int,
) -> NodeView {
    let m = paste_map(bp, ns.len());
    NodeView {
        id: (ns.len() + i) as NodeId,
        freemind_id: freemind_id_text(nth_id(next, i as nat)),
        parent: if i == 0 {
            Some(parent)
        } else {
            match bp[i].parent {
                Some(o) => Some(remap(m, o)),
                None => None,
            }
        },
        position: if i == 0 { if parent == root { Some(balanced_side(ns, root)) } else { None } } else { bp[i].position },
        children: bp[i].children.map_values(|c: NodeId| remap(m, c)),
        ..bp[i]
    }
}

/// The arena after pasting a non-empty blueprint under `parent` (unfolding it).
pub open spec fn after_paste(ns: Seq<NodeView>, root: NodeId, bp: Seq<NodeView>, parent: NodeId, next: u64) -> Seq<NodeView> {
    let added = Seq::new(bp.len(), |i: int| pasted_node(ns, root, bp, parent, next, i));
    (ns + added).update(
        parent as int,
        NodeView { children: ns[parent as int].children.push(ns.len() as NodeId), folded: false, ..ns[parent as int] },
    )
}

/// What pasting needs of the tree: the root is in the arena and so are its children
/// (a well-formed tree is ready; pasting keeps a tree ready).
pub open spec fn paste_ready(t: &MindmapTree) -> bool {
    &&& t.root < t.nodes.len()
    &&& forall|k: int| 0 <= k < t.ns()[t.root as int].children.len()
        ==> #[trigger] t.ns()[t.root as int].children[k] < t.nodes.len()
}

/// A well-formed tree is ready for pasting.
pub proof fn lemma_wf_paste_ready(t: &MindmapTree)
    requires
        t.wf(),
    ensures
        paste_ready(t),
{
    assert(children_ok(t.ns(), t.root as int));
}

impl MindmapTree {
    /// Copies of the nodes of the subtree under `node_id`, root first.
    pub fn clone_subtree(&self, node_id: NodeId) -> (res: SubtreeBlueprint)
        requires
            self.wf(),
            node_id < self.nodes.len(),
        ensures
            res.ns() == nodes_at(self.ns(), subtree(self.ns(), node_id)),
    {
        let ghost ns = self.ns();
        proof {
            lemma_subtree_facts(ns, self.root, node_id);
        }
        let ids = self.collect_subtree(node_id);
        assert forall|k: int| 0 <= k < ids@.len() implies ids@[k] < self.nodes.len() by {
            assert(ids@[k] == subtree(ns, node_id)[k]);
            assert(in_subtree(ns, node_id, ids@[k]));
        }
        let nodes = self.copies_of(&ids);
        SubtreeBlueprint { nodes }
    }

    /// Pastes a copy of `blueprint` as the last child of `parent_id`, unfolding it.
    /// The pasted root takes the side with fewer branches under the root, and no
    /// side of its own under any other node (it inherits its new branch's side).
    /// The copies get fresh slots after the current ones and fresh FreeMind ids;
    /// links between blueprint nodes follow them to their new slots. Returns the
    /// slot of the pasted root and all new slots, or `(0, [])` for an empty blueprint.
    pub fn paste_subtree(&mut self, blueprint: &SubtreeBlueprint, parent_id: NodeId) -> (res: (NodeId, Vec<NodeId>))
        requires
            paste_ready(old(self)),
            parent_id < old(self).nodes.len(),
            old(self).nodes.len() + blueprint.nodes.len() <= usize::MAX,
        ensures
            blueprint.nodes.len() == 0 ==> res.0 == 0 && res.1@.len() == 0 && *final(self) == *old(self),
            blueprint.nodes.len() > 0 ==> {
                &&& res.0 == old(self).nodes.len()
                &&& res.1@ == Seq::new(blueprint.nodes.len() as nat, |i: int| (old(self).nodes.len() + i) as NodeId)
                &&& final(self).ns() == after_paste(old(self).ns(), old(self).root, blueprint.ns(), parent_id, old(self).next_id())
                &&& final(self).next_id() == nth_id(old(self).next_id(), blueprint.nodes.len() as nat)
                &&& final(self).cache() is None
            },
            final(self).root == old(self).root,
            final(self).cached_max_depth == old(self).cached_max_depth,
            final(self).sibling_limit == old(self).sibling_limit,
            final(self).force_expanded@ == old(self).force_expanded@,
            paste_ready(final(self)),
    {
        let n = blueprint.nodes.len();
        if n == 0 {
            return (0, Vec::new());
        }
        let ghost ns = self.ns();
        let ghost bp = blueprint.ns();
        let ghost next = self.next_freemind_id;
        let base = self.nodes.len();
        let mut id_remap: HashMap<NodeId, NodeId> = HashMap::new();
        let mut i: usize = 0;
        while i < n
            invariant
                n == blueprint.nodes.len(),
                bp == blueprint.ns(),
                base + n <= usize::MAX,
                i <= n,
                id_remap@ == paste_map(bp.take(i as int), base as nat),
            decreases n - i,
        {
            id_remap.insert(blueprint.nodes[i].id, base + i);
            proof {
                assert(bp.take(i + 1).drop_last() =~= bp.take(i as int));
                assert(blueprint.nodes@[i as int]@ == bp[i as int]);
            }
            i = i + 1;
        }
        assert(bp.take(n as int) =~= bp);
        let ghost m = paste_map(bp, base as nat);
        let side = if parent_id == self.root {
            Some(self.side_for_new_branch(parent_id))
        } else {
            None
        };
        let mut all_new_ids: Vec<NodeId> = Vec::new();
        let mut i: usize = 0;
        while i < n
            invariant
                n == blueprint.nodes.len(),
                bp == blueprint.ns(),
                base == ns.len(),
                base + n <= usize::MAX,
                i <= n,
                id_remap@ == m,
                m == paste_map(bp, base as nat),
                parent_id < base,
                side == if parent_id == self.root { Some(balanced_side(ns, self.root)) } else { None::<Side> },
                self.ns() == ns + Seq::new(i as nat, |j: int| pasted_node(ns, self.root, bp, parent_id, next, j)),
                self.next_freemind_id == nth_id(next, i as nat),
                all_new_ids@ == Seq::new(i as nat, |j: int| (base + j) as NodeId),
                self.root == old(self).root,
                self.cached_max_depth == old(self).cached_max_depth,
                self.sibling_limit == old(self).sibling_limit,
                self.force_expanded == old(self).force_expanded,
                self.cached_visible == old(self).cached_visible,
            decreases n - i,
        {
            let new_id = base + i;
            let freemind_id = self.alloc_freemind_id();
            let bp_node = &blueprint.nodes[i];
            let mut node = bp_node.duplicate();
            node.id = new_id;
            node.freemind_id = freemind_id;
            if i == 0 {
                node.parent = Some(parent_id);
                node.position = side;
            } else {
                node.parent = match bp_node.parent {
                    Some(old_id) => Some(lookup_or_same(&id_remap, old_id)),
                    None => None,
                };
            }
            let mut children: Vec<NodeId> = Vec::new();
            let mut k: usize = 0;
            while k < bp_node.children.len()
                invariant
                    id_remap@ == m,
                    k <= bp_node.children@.len(),
                    children@ == bp_node.children@.take(k as int).map_values(|c: NodeId| remap(m, c)),
                decreases bp_node.children@.len() - k,
            {
                children.push(lookup_or_same(&id_remap, bp_node.children[k]));
                k = k + 1;
                assert(children@ =~= bp_node.children@.take(k as int).map_values(|c: NodeId| remap(m, c)));
            }
            assert(bp_node.children@.take(k as int) =~= bp_node.children@);
            node.children = children;
            proof {
                assert(blueprint.nodes@[i as int]@ == bp[i as int]);
                assert(node@ == pasted_node(ns, self.root, bp, parent_id, next, i as int));
            }
            let ghost prev = self.ns();
            let ghost nv = node@;
            self.nodes.push(node);
            all_new_ids.push(new_id);
            i = i + 1;
            proof {
                assert(self.ns() =~= prev.push(nv));
                assert(self.ns() =~= ns + Seq::new(i as nat, |j: int| pasted_node(ns, self.root, bp, parent_id, next, j)));
                assert(all_new_ids@ =~= Seq::new(i as nat, |j: int| (base + j) as NodeId));
            }
        }
        let ghost added = Seq::new(n as nat, |j: int| pasted_node(ns, self.root, bp, parent_id, next, j));
        assert(self.ns() == ns + added);
        assert((ns + added)[parent_id as int] == ns[parent_id as int]);
        self.nodes[parent_id].children.push(base);
        self.nodes[parent_id].folded = false;
        self.cached_visible = None;
        assert(self.ns() =~= after_paste(ns, self.root, bp, parent_id, next));
        (base, all_new_ids)
    }
}

/// The new slot of `x` if the map holds it, else `x`.
fn lookup_or_same(m: &HashMap<NodeId, NodeId>, x: NodeId) -> (res: NodeId)
    ensures
        res == remap(m@, x),
{
    match m.get(&x) {
        Some(v) => *v,
        None => x,
    }
}

/// The arena after moving `n` to the end of `q`'s children: a child of the root is
/// given the side with fewer branches (counted after the move), any other node loses
/// its side; `q` is unfolded.
pub open spec fn after_reparent(ns: Seq<NodeView>, root: NodeId, n: NodeId, q: NodeId) -> Seq<NodeView> {
    let b = moved(ns, n, q);
    let pos = if q == root { Some(balanced_side(b, root)) } else { None };
    let c = b.update(n as int, NodeView { position: pos, ..b[n as int] });
    c.update(q as int, NodeView { folded: false, ..c[q as int] })
}

impl MindmapTree {
    /// Detaches `node_id` from its parent and appends it as the last child of
    /// `new_parent`. Returns (old parent, old index among its children, old side)
    /// for undo, or `None` when the node has no parent (nothing changes then).
    #[verifier::spinoff_prover]
    #[verifier::rlimit(40)]
    pub fn reparent_node(&mut self, node_id: NodeId, new_parent: NodeId) -> (res: Option<(NodeId, usize, Option<Side>)>)
        requires
            old(self).wf(),
            node_id < old(self).nodes.len(),
            new_parent < old(self).nodes.len(),
            !in_subtree(old(self).ns(), node_id, new_parent),
        ensures
            res == match old(self).ns()[node_id as int].parent {
                Some(p) => Some((p, old(self).ns()[p as int].children.index_of(node_id) as usize, old(self).ns()[node_id as int].position)),
                None => None::<(NodeId, usize, Option<Side>)>,
            },
            final(self).ns() == if res is Some {
                after_reparent(old(self).ns(), old(self).root, node_id, new_parent)
            } else {
                old(self).ns()
            },
            final(self).cache() == if res is Some { None } else { old(self).cache() },
            final(self).wf(),
            final(self).same_settings(old(self)),
    {
        let ghost ns = self.ns();
        let old_parent = match self.nodes[node_id].parent {
            Some(p) => p,
            None => {
                return None;
            },
        };
        assert(parent_ok(ns, node_id as int));
        assert(children_ok(ns, old_parent as int));
        assert(forest_wf(moved(ns, node_id, new_parent), self.root)) by {
            lemma_wf_move(ns, self.root, node_id, new_parent);
        }
        let old_index = position_of(&self.nodes[old_parent].children, node_id);
        let old_position = self.nodes[node_id].position;
        self.nodes[old_parent].children.remove(old_index);
        let ghost a = self.ns();
        assert(a =~= detach(ns, old_parent, node_id));
        self.nodes[new_parent].children.push(node_id);
        let ghost a2 = self.ns();
        assert(a2 =~= a.update(new_parent as int, NodeView { children: a[new_parent as int].children.push(node_id), ..a[new_parent as int] }));
        self.nodes[node_id].parent = Some(new_parent);
        assert(self.ns() =~= a2.update(node_id as int, NodeView { parent: Some(new_parent), ..a2[node_id as int] }));
        assert(self.ns() =~= moved(ns, node_id, new_parent));
        let ghost b = self.ns();
        if new_parent == self.root {
            let side = self.side_for_new_branch(new_parent);
            self.nodes[node_id].position = Some(side);
        } else {
            self.nodes[node_id].position = None;
        }
        self.nodes[new_parent].folded = false;
        self.cached_visible = None;
        assert(self.ns() =~= after_reparent(ns, self.root, node_id, new_parent));
        assert(forest_wf(self.ns(), self.root)) by {
            lemma_wf_same_shape(b, self.ns(), self.root);
        }
        Some((old_parent, old_index, old_position))
    }
}

proof fn lemma_in_subtree_ancestors_rank(ns: Seq<NodeView>, root: NodeId, rank: Seq<nat>, n: NodeId, x: NodeId)
    requires
        forest_wf(ns, root),
        ranked(ns, rank),
        n < ns.len(),
        x < ns.len(),
        in_subtree(ns, n, x),
    ensures
        x == n || ancestors(ns, x).contains(n),
    decreases rank[x as int],
{
    lemma_subtree_facts(ns, root, n);
    if x != n {
        let p = ns[x as int].parent->0;
        lemma_parent_rank(ns, root, rank, x);
        lemma_in_subtree_ancestors_rank(ns, root, rank, n, p);
        lemma_ancestors_unfold(ns, root, x);
        if p == n {
            assert(ancestors(ns, x)[0] == n);
        } else {
            let k = choose|k: int| 0 <= k < ancestors(ns, p).len() && ancestors(ns, p)[k] == n;
            assert(ancestors(ns, x)[k + 1] == n);
        }
    }
}

/// A node inside the subtree under `n` is `n` itself or has `n` among its ancestors.
pub proof fn lemma_in_subtree_ancestors(ns: Seq<NodeView>, root: NodeId, n: NodeId, x: NodeId)
    requires
        forest_wf(ns, root),
        n < ns.len(),
        x < ns.len(),
    ensures
        in_subtree(ns, n, x) ==> x == n || ancestors(ns, x).contains(n),
{
    if in_subtree(ns, n, x) {
        let rank = choose|rank: Seq<nat>| ranked(ns, rank);
        lemma_in_subtree_ancestors_rank(ns, root, rank, n, x);
    }
}

/// The number in a FreeMind id of the form `ID_<n>`, or 0 for any other id.
pub open spec fn id_number(fid: Seq<char>) -> u64 {
    if fid.len() >= 3 && fid[0] == 'I' && fid[1] == 'D' && fid[2] == '_' {
        match parse_u64_spec(fid.skip(3)) {
            Some(v) => v,
            None => 0,
        }
    } else {
        0
    }
}

/// Every FreeMind id in the arena has its `ID_<n>` number below `next`, so the id
/// `ID_<next>` is not taken.
pub open spec fn ids_below(ns: Seq<NodeView>, next: u64) -> bool {
    forall|i: int| 0 <= i < ns.len() ==> #[trigger] id_number(ns[i].freemind_id) < next
}

/// The number of `ID_<n>` is `n`.
pub proof fn lemma_id_number_of_text(n: u64)
    ensures
        id_number(freemind_id_text(n)) == n,
{
    crate::text::lemma_decimal_digits(n as nat);
    let t = freemind_id_text(n);
    assert(t.skip(3) =~= decimal(n as nat));
    assert(t[0] == 'I' && t[1] == 'D' && t[2] == '_');
}

/// Adding a node with id `ID_<next>` to an arena whose ids are all below `next`
/// gives it an id that no other node has, and keeps the ids below `next + 1`.
proof fn lemma_fresh_id_push(ns: Seq<NodeView>, ns2: Seq<NodeView>, next: u64)
    requires
        ids_below(ns, next),
        ns2.len() == ns.len() + 1,
        forall|i: int| 0 <= i < ns.len() ==> #[trigger] ns2[i].freemind_id == ns[i].freemind_id,
        ns2[ns.len() as int].freemind_id == freemind_id_text(next),
    ensures
        forall|i: int| 0 <= i < ns.len() ==> #[trigger] ns[i].freemind_id != freemind_id_text(next),
        next < u64::MAX ==> ids_below(ns2, (next + 1) as u64),
{
    lemma_id_number_of_text(next);
    assert forall|i: int| 0 <= i < ns.len() implies #[trigger] ns[i].freemind_id != freemind_id_text(next) by {
        assert(id_number(ns[i].freemind_id) < next);
    }
    if next < u64::MAX {
        assert forall|i: int| 0 <= i < ns2.len() implies #[trigger] id_number(ns2[i].freemind_id) < (next + 1) as u64 by {
            if i < ns.len() {
                assert(ns2[i].freemind_id == ns[i].freemind_id);
                assert(id_number(ns[i].freemind_id) < next);
            }
        }
    }
}

/// Every id's number is at most the largest one.
proof fn lemma_max_id_bound(ns: Seq<NodeView>)
    ensures
        forall|i: int| 0 <= i < ns.len() ==> #[trigger] id_number(ns[i].freemind_id) <= max_id_number(ns),
    decreases ns.len(),
{
    if ns.len() > 0 {
        lemma_max_id_bound(ns.drop_last());
        assert forall|i: int| 0 <= i < ns.len() implies #[trigger] id_number(ns[i].freemind_id) <= max_id_number(ns) by {
            if i < ns.len() - 1 {
                assert(ns[i] == ns.drop_last()[i]);
            }
        }
    }
}

/// The largest `ID_<n>` number among the nodes (0 when there is none).
pub open spec fn max_id_number(ns: Seq<NodeView>) -> u64
    decreases ns.len(),
{
    if ns.len() == 0 {
        0
    } else {
        let m = max_id_number(ns.drop_last());
        let v = id_number(ns.last().freemind_id);
        if v > m { v } else { m }
    }
}

/// The number of an `ID_<n>` FreeMind id.
fn freemind_id_number(fid: &str) -> (res: u64)
    ensures
        res == id_number(fid@),
{
    let len = fid.unicode_len();
    if len >= 3 && fid.get_char(0) == 'I' && fid.get_char(1) == 'D' && fid.get_char(2) == '_' {
        let rest = fid.substring_char(3, len);
        assert(rest@ =~= fid@.skip(3));
        match parse_u64(rest) {
            Some(v) => v,
            None => 0,
        }
    } else {
        0
    }
}

impl MindmapTree {
    /// A tree over `nodes` rooted at `root`. New FreeMind ids continue after the
    /// largest numeric `ID_<n>` present (the count wraps at `u64::MAX`).
    pub fn new(nodes: Vec<MindmapNode>, root: NodeId) -> (res: Self)
        ensures
            res.nodes@ == nodes@,
            res.root == root,
            res.next_id() == max_id_number(view_nodes(nodes@)).wrapping_add(1),
            max_id_number(view_nodes(nodes@)) < u64::MAX ==> ids_below(res.ns(), res.next_id()),
            res.cache() is None,
            res.cached_max_depth == 0,
            res.sibling_limit == 20,
            res.force_expanded@ == Set::<NodeId>::empty(),
    {
        let ghost ns = view_nodes(nodes@);
        let mut max_id: u64 = 0;
        let mut i: usize = 0;
        while i < nodes.len()
            invariant
                ns == view_nodes(nodes@),
                i <= nodes.len(),
                max_id == max_id_number(ns.take(i as int)),
            decreases nodes.len() - i,
        {
            let v = freemind_id_number(nodes[i].freemind_id.as_str());
            proof {
                assert(ns.take(i + 1).drop_last() =~= ns.take(i as int));
                assert(ns.take(i + 1).last() == nodes@[i as int]@);
            }
            if v > max_id {
                max_id = v;
            }
            i = i + 1;
        }
        assert(ns.take(i as int) =~= ns);
        proof {
            lemma_max_id_bound(ns);
        }
        Self::from_parts(nodes, root, max_id.wrapping_add(1))
    }

    /// A tree holding only a root node `ID_0` with `root_text`.
    pub fn new_empty(root_text: &str) -> (res: Self)
        ensures
            res.ns() == seq![crate::node::fresh_node(0, seq!['I', 'D', '_', '0'], root_text@)],
            res.root == 0,
            res.next_id() == 1,
            ids_below(res.ns(), res.next_id()),
            res.wf(),
            res.cache() is None,
            res.sibling_limit == 20,
            res.force_expanded@ == Set::<NodeId>::empty(),
    {
        let mut fid = String::new();
        push_char(&mut fid, 'I');
        push_char(&mut fid, 'D');
        push_char(&mut fid, '_');
        push_char(&mut fid, '0');
        assert(fid@ =~= seq!['I', 'D', '_', '0']);
        let root = MindmapNode::new(0, fid, root_text.to_owned());
        let mut nodes: Vec<MindmapNode> = Vec::new();
        nodes.push(root);
        let t = Self::from_parts(nodes, 0, 1);
        proof {
            let ns = t.ns();
            assert(ns =~= seq![crate::node::fresh_node(0, seq!['I', 'D', '_', '0'], root_text@)]);
            let rank = seq![0nat];
            assert(crate::walk::ranked(ns, rank));
            assert(parent_ok(ns, 0));
            assert(children_ok(ns, 0));
            assert(seq!['I', 'D', '_', '0'] =~= freemind_id_text(0));
            lemma_id_number_of_text(0);
        }
        t
    }
}


/// How many nodes the subtrees under `cs` hold together.
pub open spec fn below_count(ns: Seq<NodeView>, cs: Seq<NodeId>) -> nat
    decreases cs.len(),
{
    if cs.len() == 0 {
        0
    } else {
        subtree(ns, cs[0]).len() + below_count(ns, cs.drop_first())
    }
}

proof fn lemma_walk_list_below(ns: Seq<NodeView>, cs: Seq<NodeId>)
    ensures
        crate::walk::walk_list(ns, WalkMode::All, cs, 1, ns.len()).len() == below_count(ns, cs),
    decreases cs.len(),
{
    if cs.len() > 0 {
        lemma_walk_list_below(ns, cs.drop_first());
        crate::walk::lemma_walk_ids_depth(ns, WalkMode::All, cs[0], 1, 0, ns.len());
        assert(ids_of(crate::walk::walk(ns, WalkMode::All, cs[0], 1, ns.len())).len()
            == crate::walk::walk(ns, WalkMode::All, cs[0], 1, ns.len()).len());
        assert(ids_of(crate::walk::walk(ns, WalkMode::All, cs[0], 0, ns.len())).len()
            == crate::walk::walk(ns, WalkMode::All, cs[0], 0, ns.len()).len());
    }
}

/// A subtree holds its root and the subtrees under the root's children.
proof fn lemma_subtree_len(ns: Seq<NodeView>, rank: Seq<nat>, id: NodeId)
    requires
        ranked(ns, rank),
        id < ns.len(),
    ensures
        subtree(ns, id).len() == 1 + below_count(ns, ns[id as int].children),
{
    lemma_traversal_unfold(ns, rank, WalkMode::All, id, 0);
    lemma_walk_list_below(ns, ns[id as int].children);
}

/// The number of nodes below `id`.
fn count_below(nodes: &[MindmapNode], id: NodeId, Ghost(rank): Ghost<Seq<nat>>) -> (res: usize)
    requires
        ranked(view_nodes(nodes@), rank),
        id < nodes@.len(),
        below_count(view_nodes(nodes@), view_nodes(nodes@)[id as int].children) <= usize::MAX,
    ensures
        res == below_count(view_nodes(nodes@), view_nodes(nodes@)[id as int].children),
    decreases nodes@.len() - rank[id as int],
{
    let ghost ns = view_nodes(nodes@);
    let cs = &nodes[id].children;
    let ghost kids = ns[id as int].children;
    assert(cs@ == kids);
    let mut count: usize = 0;
    let mut k = cs.len();
    assert(kids.skip(k as int) =~= Seq::<NodeId>::empty());
    while k > 0
        invariant
            ns == view_nodes(nodes@),
            ranked(ns, rank),
            id < ns.len(),
            cs@ == kids,
            kids == ns[id as int].children,
            below_count(ns, kids) <= usize::MAX,
            k <= kids.len(),
            count == below_count(ns, kids.skip(k as int)),
        decreases k,
    {
        k = k - 1;
        let c = cs[k];
        assert(ns[id as int].children[k as int] == c);
        assert(c < ns.len() && rank[id as int] < rank[c as int]);
        proof {
            assert(kids.skip(k as int).drop_first() =~= kids.skip(k + 1));
            assert(kids.skip(k as int)[0] == c);
            lemma_subtree_len(ns, rank, c);
            lemma_below_skip(ns, kids, k as int);
        }
        let below = count_below(nodes, c, Ghost(rank));
        count = count + 1 + below;
    }
    assert(kids.skip(0) =~= kids);
    count
}

/// The count over a suffix of `cs` is at most the count over all of `cs`.
proof fn lemma_below_skip(ns: Seq<NodeView>, cs: Seq<NodeId>, k: int)
    requires
        0 <= k <= cs.len(),
    ensures
        below_count(ns, cs.skip(k)) <= below_count(ns, cs),
    decreases k,
{
    if k > 0 {
        lemma_below_skip(ns, cs.drop_first(), k - 1);
        assert(cs.drop_first().skip(k - 1) =~= cs.skip(k));
    } else {
        assert(cs.skip(0) =~= cs);
    }
}

impl MindmapNode {
    /// How many nodes lie below this node: its children, their children, and so on.
    pub fn descendant_count(&self, nodes: &[MindmapNode]) -> (res: usize)
        requires
            exists|root: NodeId| forest_wf(view_nodes(nodes@), root),
            forall|k: int| 0 <= k < self.children@.len() ==> #[trigger] self.children@[k] < nodes@.len(),
            below_count(view_nodes(nodes@), self.children@) <= usize::MAX,
        ensures
            res == below_count(view_nodes(nodes@), self.children@),
    {
        let ghost ns = view_nodes(nodes@);
        let ghost root = choose|root: NodeId| forest_wf(ns, root);
        let ghost rank = choose|rank: Seq<nat>| ranked(ns, rank);
        let cs = &self.children;
        let mut count: usize = 0;
        let mut k = cs.len();
        assert(cs@.skip(k as int) =~= Seq::<NodeId>::empty());
        while k > 0
            invariant
                ns == view_nodes(nodes@),
                ranked(ns, rank),
                forall|j: int| 0 <= j < cs@.len() ==> #[trigger] cs@[j] < ns.len(),
                below_count(ns, cs@) <= usize::MAX,
                k <= cs@.len(),
                count == below_count(ns, cs@.skip(k as int)),
            decreases k,
        {
            k = k - 1;
            let c = cs[k];
            proof {
                assert(cs@.skip(k as int).drop_first() =~= cs@.skip(k + 1));
                assert(cs@.skip(k as int)[0] == c);
                lemma_subtree_len(ns, rank, c);
                lemma_below_skip(ns, cs@, k as int);
            }
            let below = count_below(nodes, c, Ghost(rank));
            count = count + 1 + below;
        }
        assert(cs@.skip(0) =~= cs@);
        count
    }
}


/// Whether the node at `id` carries notes.
pub open spec fn has_notes(ns: Seq<NodeView>) -> spec_fn(NodeId) -> bool {
    |id: NodeId| ns[id as int].notes.len() > 0
}

/// The nodes that carry notes, in pre-order from the root.
pub fn collect_nodes_with_notes(tree: &MindmapTree) -> (res: Vec<NodeId>)
    requires
        tree.wf(),
    ensures
        res@ == subtree(tree.ns(), tree.root).filter(has_notes(tree.ns())),
{
    let ghost ns = tree.ns();
    let all = tree.collect_subtree(tree.root);
    proof {
        lemma_subtree_facts(ns, tree.root, tree.root);
    }
    let mut out: Vec<NodeId> = Vec::new();
    let mut i: usize = 0;
    while i < all.len()
        invariant
            ns == tree.ns(),
            tree.wf(),
            all@ == subtree(ns, tree.root),
            forall|x: NodeId| #[trigger] in_subtree(ns, tree.root, x) ==> x < ns.len(),
            i <= all.len(),
            out@ == all@.take(i as int).filter(has_notes(ns)),
        decreases all.len() - i,
    {
        let id = all[i];
        assert(all@.take(i + 1).drop_last() =~= all@.take(i as int));
        assert(all@.contains(id));
        assert(in_subtree(ns, tree.root, id));
        if !tree.nodes[id].notes.as_str().is_empty() {
            out.push(id);
        }
        proof {
            reveal(Seq::filter);
            assert(all@.take(i + 1).last() == id);
        }
        i = i + 1;
    }
    assert(all@.take(i as int) =~= all@);
    out
}

impl MindmapNode {
    /// How many ancestors this node has in `nodes`, following parent links.
    pub fn depth(&self, nodes: &[MindmapNode]) -> (res: usize)
        requires
            exists|root: NodeId| forest_wf(view_nodes(nodes@), root),
            self.parent matches Some(p) ==> p < nodes@.len(),
        ensures
            res == match self.parent {
                Some(p) => 1 + ancestors(view_nodes(nodes@), p).len(),
                None => 0,
            },
    {
        let ghost ns = view_nodes(nodes@);
        let ghost root = choose|root: NodeId| forest_wf(ns, root);
        let ghost rank = choose|rank: Seq<nat>| ranked(ns, rank);
        let mut depth: usize = 0;
        let mut current = self.parent;
        assert(nodes@.len() == nodes.len());
        let ghost mut seen: Seq<NodeId> = Seq::empty();
        let ghost start = match self.parent {
            Some(p) => seq![p] + ancestors(ns, p),
            None => Seq::<NodeId>::empty(),
        };
        proof {
            if let Some(p) = self.parent {
                lemma_ancestors_unfold(ns, root, p);
                if ns[p as int].parent is Some {
                    lemma_parent_rank(ns, root, rank, p);
                }
                assert(ancestors_from(ns, Some(p)) =~= start);
            } else {
                assert(ancestors_from(ns, None) =~= start);
            }
        }
        while current.is_some()
            invariant
                ns == view_nodes(nodes@),
                forest_wf(ns, root),
                ranked(ns, rank),
                start == seen + ancestors_from(ns, current),
                depth == seen.len(),
                current matches Some(c) ==> c < ns.len(),
                depth + (match current { Some(c) => rank[c as int] + 1, None => 0 }) <= ns.len(),
                ns.len() == nodes@.len(),
                nodes@.len() <= usize::MAX,
            decreases match current { Some(c) => rank[c as int] + 1, None => 0 },
        {
            let pid = current.unwrap();
            proof {
                lemma_ancestors_unfold(ns, root, pid);
                if ns[pid as int].parent is Some {
                    lemma_parent_rank(ns, root, rank, pid);
                }
                seen = seen.push(pid);
            }
            depth = depth + 1;
            current = nodes[pid].parent;
            assert(nodes@[pid as int]@.parent == ns[pid as int].parent);
            assert(start =~= seen + ancestors_from(ns, current));
        }
        assert(start =~= seen);
        depth
    }
}

} // verus!
