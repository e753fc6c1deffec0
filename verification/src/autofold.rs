//! Folding a large map on load so that it stays navigable: the deepest levels
//! are folded first until few enough nodes are shown.
use vstd::prelude::*;
use crate::node::{NodeId, NodeView};
use crate::tree::{MindmapTree, WalkKind};
use crate::walk::{WalkMode, ancestors, ids_of, lemma_walk_parents, lemma_wf_same_shape, traversal};

verus! {

/// The nodes that no folded ancestor hides, in pre-order from `x` (sibling
/// limits play no part).
pub open spec fn unfolded_walk(ns: Seq<NodeView>, x: NodeId) -> Seq<NodeId> {
    ids_of(traversal(ns, WalkMode::Unfolded, x, 0))
}

/// How deep a node is: the number of its ancestors.
pub open spec fn level(ns: Seq<NodeView>, x: NodeId) -> nat {
    ancestors(ns, x).len()
}

/// A shown node that auto-folding may fold: it has children, is not folded
/// yet and has text.
pub open spec fn auto_foldable(ns: Seq<NodeView>, root: NodeId, x: NodeId) -> bool {
    &&& unfolded_walk(ns, root).contains(x)
    &&& ns[x as int].children.len() > 0
    &&& !ns[x as int].folded
    &&& ns[x as int].text.len() > 0
}

/// The deepest level among the shown nodes with an id below `i`.
pub open spec fn max_level(ns: Seq<NodeView>, root: NodeId, i: nat) -> nat
    decreases i,
{
    if i == 0 {
        0
    } else {
        let m = max_level(ns, root, (i - 1) as nat);
        let x = (i - 1) as NodeId;
        if unfolded_walk(ns, root).contains(x) && level(ns, x) > m {
            level(ns, x)
        } else {
            m
        }
    }
}

/// The arena with every foldable node of level `d` or deeper folded.
pub open spec fn folded_from(ns: Seq<NodeView>, root: NodeId, d: nat) -> Seq<NodeView> {
    Seq::new(
        ns.len(),
        |i: int|
            if auto_foldable(ns, root, i as NodeId) && level(ns, i as NodeId) >= d {
                NodeView { folded: true, ..ns[i] }
            } else {
                ns[i]
            },
    )
}

/// How many nodes are shown once every foldable node of level `d` or deeper is folded.
pub open spec fn shown_after(ns: Seq<NodeView>, root: NodeId, d: nat) -> nat {
    unfolded_walk(folded_from(ns, root, d), root).len()
}

/// The last level that auto-folding folds, searching upward from level `d`:
/// the first level whose folding leaves at most `max_visible` nodes shown, and
/// level 2 at the latest.
pub open spec fn stop_level(ns: Seq<NodeView>, root: NodeId, max_visible: nat, d: nat) -> nat
    decreases d,
{
    if d <= 2 {
        2
    } else if shown_after(ns, root, d) <= max_visible {
        d
    } else {
        stop_level(ns, root, max_visible, (d - 1) as nat)
    }
}

/// The arena after auto-folding for at most `max_visible` shown nodes: when more
/// are shown, the foldable nodes of every level from the deepest up to the stop
/// level are folded (the root and its children never are).
pub open spec fn auto_folded(ns: Seq<NodeView>, root: NodeId, max_visible: nat) -> Seq<NodeView> {
    let top = max_level(ns, root, ns.len());
    if unfolded_walk(ns, root).len() <= max_visible || top < 2 {
        ns
    } else {
        folded_from(ns, root, stop_level(ns, root, max_visible, top))
    }
}

/// The arena with the foldable nodes of level above `d`, and those of level `d`
/// with an id below `i`, folded.
pub open spec fn folded_down_to(ns: Seq<NodeView>, root: NodeId, d: nat, i: nat) -> Seq<NodeView> {
    Seq::new(
        ns.len(),
        |x: int|
            if auto_foldable(ns, root, x as NodeId) && (level(ns, x as NodeId) > d || (level(ns, x as NodeId) == d
                && x < i)) {
                NodeView { folded: true, ..ns[x] }
            } else {
                ns[x]
            },
    )
}

/// Auto-folding only folds: every node keeps everything but its folded flag,
/// nodes that were folded stay folded, the root and its children are never
/// folded, and a map that shows few enough nodes is left as it is.
pub proof fn lemma_auto_fold_only_folds(ns: Seq<NodeView>, root: NodeId, max_visible: nat)
    ensures
        auto_folded(ns, root, max_visible).len() == ns.len(),
        forall|i: int| 0 <= i < ns.len() ==> #[trigger] auto_folded(ns, root, max_visible)[i] == ns[i]
            || auto_folded(ns, root, max_visible)[i] == (NodeView { folded: true, ..ns[i] }),
        forall|i: int| 0 <= i < ns.len() && level(ns, i as NodeId) < 2 ==> #[trigger] auto_folded(ns, root, max_visible)[i] == ns[i],
        unfolded_walk(ns, root).len() <= max_visible ==> auto_folded(ns, root, max_visible) == ns,
{
    let top = max_level(ns, root, ns.len());
    if !(unfolded_walk(ns, root).len() <= max_visible || top < 2) {
        lemma_stop_at_least_two(ns, root, max_visible, top);
    }
}

proof fn lemma_stop_at_least_two(ns: Seq<NodeView>, root: NodeId, max_visible: nat, d: nat)
    ensures
        stop_level(ns, root, max_visible, d) >= 2,
    decreases d,
{
    if d > 2 {
        lemma_stop_at_least_two(ns, root, max_visible, (d - 1) as nat);
    }
}

/// Every shown node with an id below `i` is at most `max_level(ns, root, i)` deep.
proof fn lemma_max_level_bound(ns: Seq<NodeView>, root: NodeId, i: nat)
    ensures
        forall|x: NodeId| x < i && unfolded_walk(ns, root).contains(x) ==> level(ns, x) <= max_level(ns, root, i),
    decreases i,
{
    if i > 0 {
        lemma_max_level_bound(ns, root, (i - 1) as nat);
    }
}

impl MindmapTree {
    /// Folds nodes level by level, deepest first, until at most `max_visible`
    /// nodes are shown (or level 2 is reached), to keep large maps navigable.
    /// Folded nodes, empty nodes and the first two levels are left alone. After
    /// each level the shown nodes are counted again.
    pub fn auto_fold_for_display(&mut self, max_visible: usize)
        requires
            old(self).wf(),
        ensures
            final(self).ns() == auto_folded(old(self).ns(), old(self).root, max_visible as nat),
            final(self).cache() == if unfolded_walk(old(self).ns(), old(self).root).len() <= max_visible {
                old(self).cache()
            } else {
                None
            },
            final(self).root == old(self).root,
            final(self).same_settings(old(self)),
            final(self).wf(),
    {
        let ghost ns = self.ns();
        let root = self.root;
        let n = self.nodes.len();
        let shown = self.collect_walk(root, WalkKind::Unfolded);
        let count0 = shown.len();
        if count0 <= max_visible {
            return;
        }
        proof {
            lemma_walk_parents(ns, root, WalkMode::Unfolded, root, 0, ns.len());
        }
        // Which nodes are shown.
        let mut reached: Vec<bool> = Vec::new();
        let mut i: usize = 0;
        while i < n
            invariant
                i <= n,
                reached@.len() == i,
                forall|x: int| 0 <= x < i ==> !reached@[x],
            decreases n - i,
        {
            reached.push(false);
            i = i + 1;
        }
        let mut k: usize = 0;
        while k < shown.len()
            invariant
                n == ns.len(),
                shown@ == unfolded_walk(ns, root),
                forall|x: NodeId| #[trigger] shown@.contains(x) ==> x < n,
                k <= shown.len(),
                reached@.len() == n,
                forall|x: int| 0 <= x < n ==> (#[trigger] reached@[x] <==> shown@.take(k as int).contains(x as NodeId)),
            decreases shown.len() - k,
        {
            let x = shown[k];
            assert(shown@.contains(x));
            reached.set(x, true);
            proof {
                let t = shown@.take(k + 1);
                assert(t =~= shown@.take(k as int).push(x));
                assert forall|y: int| 0 <= y < n implies (#[trigger] reached@[y] <==> t.contains(y as NodeId)) by {
                    if y == x {
                        assert(t[k as int] == x);
                    } else if t.contains(y as NodeId) {
                        let j = choose|j: int| 0 <= j < t.len() && t[j] == y as NodeId;
                        assert(shown@.take(k as int)[j] == y as NodeId);
                    }
                }
            }
            k = k + 1;
        }
        assert(shown@.take(k as int) =~= shown@);
        // The level of each shown node, the deepest level, and which nodes may be folded.
        let mut levels: Vec<usize> = Vec::new();
        let mut foldable: Vec<bool> = Vec::new();
        let mut max_depth: usize = 0;
        let mut x: usize = 0;
        while x < n
            invariant
                self.wf(),
                self.ns() == ns,
                self.root == root,
                n == ns.len(),
                reached@.len() == n,
                forall|y: int| 0 <= y < n ==> (#[trigger] reached@[y] <==> unfolded_walk(ns, root).contains(y as NodeId)),
                x <= n,
                levels@.len() == x,
                foldable@.len() == x,
                max_depth == max_level(ns, root, x as nat),
                forall|y: int| 0 <= y < x ==> #[trigger] foldable@[y] == auto_foldable(ns, root, y as NodeId),
                forall|y: int| 0 <= y < x ==> reached@[y] ==> #[trigger] levels@[y] == level(ns, y as NodeId),
            decreases n - x,
        {
            let r = reached[x];
            let lv = if r { self.depth(x) } else { 0 };
            if r && lv > max_depth {
                max_depth = lv;
            }
            let f = r && self.nodes[x].children.len() > 0 && !self.nodes[x].folded && !self.nodes[x].text.as_str().is_empty();
            levels.push(lv);
            foldable.push(f);
            x = x + 1;
        }
        // Fold level by level, deepest first, counting the shown nodes after each.
        let ghost top = max_level(ns, root, ns.len());
        if max_depth >= 2 {
            let mut d = max_depth;
            proof {
                lemma_max_level_bound(ns, root, ns.len());
                assert(self.ns() =~= folded_down_to(ns, root, d as nat, 0));
            }
            loop
                invariant_except_break
                    2 <= d <= top,
                    reached@.len() == n,
                    forall|y: int| 0 <= y < n ==> (#[trigger] reached@[y] <==> unfolded_walk(ns, root).contains(y as NodeId)),
                    levels@.len() == n,
                    foldable@.len() == n,
                    forall|y: int| 0 <= y < n ==> #[trigger] foldable@[y] == auto_foldable(ns, root, y as NodeId),
                    forall|y: int| 0 <= y < n ==> reached@[y] ==> #[trigger] levels@[y] == level(ns, y as NodeId),
                    self.ns() == folded_down_to(ns, root, d as nat, 0),
                    stop_level(ns, root, max_visible as nat, top) == stop_level(ns, root, max_visible as nat, d as nat),
                invariant
                    self.wf(),
                    self.root == root,
                    self.same_settings(old(self)),
                    self.nodes.len() == n,
                    n == ns.len(),
                    ns == old(self).ns(),
                    top == max_depth,
                    top == max_level(ns, root, ns.len()),
                    top >= 2,
                    count0 == unfolded_walk(ns, root).len(),
                    count0 > max_visible,
                ensures
                    self.ns() == auto_folded(ns, root, max_visible as nat),
                decreases d,
            {
                let mut y: usize = 0;
                while y < n
                    invariant
                        self.wf(),
                        self.root == root,
                        self.same_settings(old(self)),
                        self.nodes.len() == n,
                        n == ns.len(),
                        ns == old(self).ns(),
                        2 <= d <= top,
                        top == max_level(ns, root, ns.len()),
                        y <= n,
                        reached@.len() == n,
                        forall|z: int| 0 <= z < n ==> (#[trigger] reached@[z] <==> unfolded_walk(ns, root).contains(z as NodeId)),
                        levels@.len() == n,
                        foldable@.len() == n,
                        forall|z: int| 0 <= z < n ==> #[trigger] foldable@[z] == auto_foldable(ns, root, z as NodeId),
                        forall|z: int| 0 <= z < n ==> reached@[z] ==> #[trigger] levels@[z] == level(ns, z as NodeId),
                        self.ns() == folded_down_to(ns, root, d as nat, y as nat),
                    decreases n - y,
                {
                    let ghost before = self.ns();
                    let ghost pn = self.nodes@;
                    assert(reached@[y as int] <==> unfolded_walk(ns, root).contains(y as NodeId));
                    assert(foldable@[y as int] == auto_foldable(ns, root, y as NodeId));
                    if foldable[y] && levels[y] == d {
                        self.nodes[y].folded = true;
                    }
                    proof {
                        assert(forall|z: int| 0 <= z < pn.len() && z != y ==> self.nodes@[z] == pn[z]);
                        assert(before[y as int] == folded_down_to(ns, root, d as nat, y as nat)[y as int]);
                        if foldable@[y as int] && levels@[y as int] == d {
                            assert(level(ns, y as NodeId) == d);
                            assert(before[y as int] == ns[y as int]);
                            assert(self.nodes@[y as int].folded);
                            assert(self.ns()[y as int] == NodeView { folded: true, ..ns[y as int] });
                        } else {
                            assert(self.nodes@[y as int] == pn[y as int]);
                            assert(self.ns()[y as int] == before[y as int]);
                        }
                        assert(self.ns()[y as int] == folded_down_to(ns, root, d as nat, (y + 1) as nat)[y as int]);
                        assert forall|z: int| 0 <= z < n implies self.ns()[z] == folded_down_to(ns, root, d as nat, (y + 1) as nat)[z] by {
                            if z != y {
                                assert(self.nodes@[z] == pn[z]);
                                assert(self.ns()[z] == before[z]);
                                assert(before[z] == folded_down_to(ns, root, d as nat, y as nat)[z]);
                            }
                        }
                        assert(self.ns() =~= folded_down_to(ns, root, d as nat, (y + 1) as nat));
                        lemma_wf_same_shape(before, self.ns(), root);
                    }
                    y = y + 1;
                }
                assert(self.ns() =~= folded_from(ns, root, d as nat));
                let count = self.collect_walk(root, WalkKind::Unfolded).len();
                assert(count == shown_after(ns, root, d as nat));
                assert(folded_from(ns, root, d as nat) =~= folded_down_to(ns, root, (d - 1) as nat, 0));
                if count <= max_visible || d == 2 {
                    proof {
                        let stop = stop_level(ns, root, max_visible as nat, top);
                        assert(stop == d);
                    }
                    break;
                }
                d = d - 1;
            }
        }
        self.cached_visible = None;
    }
}

} // verus!
