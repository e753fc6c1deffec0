//! The tree shape of an arena of nodes: well-formedness, and the depth-first
//! traversals that the tree operations and the exporters perform.
use vstd::prelude::*;
use crate::node::{NodeId, NodeView};

verus! {

/// Every parent link points at a node that lists the child.
pub open spec fn parent_ok(ns: Seq<NodeView>, i: int) -> bool {
    match ns[i].parent {
        Some(p) => p < ns.len() && ns[p as int].children.contains(i as NodeId),
        None => true,
    }
}

/// Every child index is in the arena, points back at its parent, and occurs once.
pub open spec fn children_ok(ns: Seq<NodeView>, p: int) -> bool {
    &&& ns[p].children.no_duplicates()
    &&& forall|k: int|
        0 <= k < ns[p].children.len() ==> {
            let c = #[trigger] ns[p].children[k];
            c < ns.len() && ns[c as int].parent == Some(p as NodeId)
        }
}

/// `rank` strictly grows from a parent to each child and stays below the arena size,
/// which rules out cycles.
pub open spec fn ranked(ns: Seq<NodeView>, rank: Seq<nat>) -> bool {
    &&& rank.len() == ns.len()
    &&& forall|i: int| 0 <= i < ns.len() ==> #[trigger] rank[i] < ns.len()
    &&& forall|i: int, k: int|
        0 <= i < ns.len() && 0 <= k < ns[i].children.len() ==> {
            let c = #[trigger] ns[i].children[k];
            c < ns.len() && rank[i] < rank[c as int]
        }
}

/// The arena is a forest whose node `root` has no parent, and each node's
/// `id` is its own index.
pub open spec fn forest_wf(ns: Seq<NodeView>, root: NodeId) -> bool {
    &&& root < ns.len()
    &&& ns[root as int].parent is None
    &&& forall|i: int| 0 <= i < ns.len() ==> (#[trigger] ns[i]).id == i
    &&& forall|i: int| 0 <= i < ns.len() ==> #[trigger] parent_ok(ns, i)
    &&& forall|i: int| 0 <= i < ns.len() ==> #[trigger] children_ok(ns, i)
    &&& exists|rank: Seq<nat>| ranked(ns, rank)
}

/// Which nodes a traversal emits and which children it descends into.
pub enum WalkMode {
    /// Every node of the subtree.
    All,
    /// Nodes with non-empty text; a node with empty text is skipped together with its subtree.
    Live,
    /// Nodes shown on screen: folded nodes hide their children, and a parent with more
    /// than `limit` children shows only the first `limit` unless it is in `expanded`.
    Visible { limit: nat, expanded: Set<NodeId> },
    /// Nodes not hidden by a folded ancestor (no sibling limit).
    Unfolded,
}

/// The children a node shows when at most `limit` are shown unless it is expanded.
pub open spec fn visible_slice(children: Seq<NodeId>, id: NodeId, limit: nat, expanded: Set<NodeId>) -> Seq<NodeId> {
    if children.len() <= limit || expanded.contains(id) {
        children
    } else {
        children.take(limit as int)
    }
}

pub open spec fn walk_kids(ns: Seq<NodeView>, m: WalkMode, id: NodeId) -> Seq<NodeId> {
    match m {
        WalkMode::Visible { limit, expanded } => if ns[id as int].folded {
            Seq::empty()
        } else {
            visible_slice(ns[id as int].children, id, limit, expanded)
        },
        WalkMode::Unfolded => if ns[id as int].folded {
            Seq::empty()
        } else {
            ns[id as int].children
        },
        _ => ns[id as int].children,
    }
}

pub open spec fn walk_keep(ns: Seq<NodeView>, m: WalkMode, id: NodeId) -> bool {
    match m {
        WalkMode::Live => ns[id as int].text.len() > 0,
        _ => true,
    }
}

/// Pre-order depth-first listing of the nodes under `id`, each with its depth
/// (`d` for `id`), children in order, with `fuel` bounding the depth.
pub open spec fn walk(ns: Seq<NodeView>, m: WalkMode, id: NodeId, d: nat, fuel: nat) -> Seq<(NodeId, nat)>
    decreases fuel, 0nat, 0nat,
{
    if fuel == 0 || !walk_keep(ns, m, id) {
        Seq::empty()
    } else {
        seq![(id, d)] + walk_list(ns, m, walk_kids(ns, m, id), d + 1, (fuel - 1) as nat)
    }
}

pub open spec fn walk_list(ns: Seq<NodeView>, m: WalkMode, cs: Seq<NodeId>, d: nat, fuel: nat) -> Seq<(NodeId, nat)>
    decreases fuel, 1nat, cs.len(),
{
    if cs.len() == 0 {
        Seq::empty()
    } else {
        walk(ns, m, cs[0], d, fuel) + walk_list(ns, m, cs.drop_first(), d, fuel)
    }
}

/// The complete pre-order traversal from `id` (at depth `d`) in a well-formed arena.
pub open spec fn traversal(ns: Seq<NodeView>, m: WalkMode, id: NodeId, d: nat) -> Seq<(NodeId, nat)> {
    walk(ns, m, id, d, ns.len())
}

pub open spec fn ids_of(s: Seq<(NodeId, nat)>) -> Seq<NodeId> {
    s.map_values(|p: (NodeId, nat)| p.0)
}

/// The nodes of the subtree rooted at `id`, in pre-order.
pub open spec fn subtree(ns: Seq<NodeView>, id: NodeId) -> Seq<NodeId> {
    ids_of(traversal(ns, WalkMode::All, id, 0))
}

/// Each node of `cs` paired with the depth `d`.
pub open spec fn at_depth(cs: Seq<NodeId>, d: nat) -> Seq<(NodeId, nat)> {
    cs.map_values(|c: NodeId| (c, d))
}

/// What is still to be emitted by a depth-first stack: the top is processed first.
pub open spec fn pending(ns: Seq<NodeView>, m: WalkMode, stack: Seq<(NodeId, nat)>) -> Seq<(NodeId, nat)>
    decreases stack.len(),
{
    if stack.len() == 0 {
        Seq::empty()
    } else {
        traversal(ns, m, stack.last().0, stack.last().1) + pending(ns, m, stack.drop_last())
    }
}

pub proof fn lemma_kids_are_children(ns: Seq<NodeView>, m: WalkMode, id: NodeId, k: int)
    requires
        0 <= k < walk_kids(ns, m, id).len(),
    ensures
        k < ns[id as int].children.len(),
        ns[id as int].children[k] == walk_kids(ns, m, id)[k],
{
}

/// Every child that a traversal descends into is in the arena and ranks above its parent.
pub proof fn lemma_kids_ranked(ns: Seq<NodeView>, rank: Seq<nat>, m: WalkMode, id: NodeId)
    requires
        ranked(ns, rank),
        id < ns.len(),
    ensures
        forall|k: int|
            0 <= k < walk_kids(ns, m, id).len() ==> walk_kids(ns, m, id)[k] < ns.len() && rank[
                #[trigger] walk_kids(ns, m, id)[k] as int
            ] >= rank[id as int] + 1,
{
    assert forall|k: int| 0 <= k < walk_kids(ns, m, id).len() implies walk_kids(ns, m, id)[k]
        < ns.len() && rank[#[trigger] walk_kids(ns, m, id)[k] as int] >= rank[id as int] + 1 by {
        lemma_kids_are_children(ns, m, id, k);
        let c = ns[id as int].children[k];
        assert(c < ns.len() && rank[id as int] < rank[c as int]);
    }
}

/// With enough fuel the traversal does not depend on the fuel.
pub proof fn lemma_walk_fuel(
    ns: Seq<NodeView>,
    rank: Seq<nat>,
    m: WalkMode,
    id: NodeId,
    d: nat,
    f1: nat,
    f2: nat,
)
    requires
        ranked(ns, rank),
        id < ns.len(),
        f1 >= ns.len() - rank[id as int],
        f2 >= ns.len() - rank[id as int],
    ensures
        walk(ns, m, id, d, f1) == walk(ns, m, id, d, f2),
    decreases f1, 0nat,
{
    if walk_keep(ns, m, id) {
        let ks = walk_kids(ns, m, id);
        lemma_kids_ranked(ns, rank, m, id);
        lemma_walk_list_fuel(ns, rank, m, ks, d + 1, (f1 - 1) as nat, (f2 - 1) as nat, rank[id as int] + 1);
    }
}

pub proof fn lemma_walk_list_fuel(
    ns: Seq<NodeView>,
    rank: Seq<nat>,
    m: WalkMode,
    cs: Seq<NodeId>,
    d: nat,
    f1: nat,
    f2: nat,
    lo: nat,
)
    requires
        ranked(ns, rank),
        forall|k: int| 0 <= k < cs.len() ==> cs[k] < ns.len() && rank[cs[k] as int] >= lo,
        f1 + lo >= ns.len(),
        f2 + lo >= ns.len(),
    ensures
        walk_list(ns, m, cs, d, f1) == walk_list(ns, m, cs, d, f2),
    decreases f1, cs.len() + 1,
{
    if cs.len() > 0 {
        lemma_walk_fuel(ns, rank, m, cs[0], d, f1, f2);
        lemma_walk_list_fuel(ns, rank, m, cs.drop_first(), d, f1, f2, lo);
    }
}

/// Unfolding one step of a complete traversal.
pub proof fn lemma_traversal_unfold(ns: Seq<NodeView>, rank: Seq<nat>, m: WalkMode, id: NodeId, d: nat)
    requires
        ranked(ns, rank),
        id < ns.len(),
    ensures
        traversal(ns, m, id, d) == if walk_keep(ns, m, id) {
            seq![(id, d)] + walk_list(ns, m, walk_kids(ns, m, id), d + 1, ns.len())
        } else {
            Seq::empty()
        },
{
    if walk_keep(ns, m, id) {
        let ks = walk_kids(ns, m, id);
        lemma_kids_ranked(ns, rank, m, id);
        lemma_walk_list_fuel(
            ns,
            rank,
            m,
            ks,
            d + 1,
            (ns.len() - 1) as nat,
            ns.len(),
            rank[id as int] + 1,
        );
    }
}

/// Pushing children in reverse order onto a stack makes them come out first, in order.
pub proof fn lemma_pending_push_rev(
    ns: Seq<NodeView>,
    m: WalkMode,
    s: Seq<(NodeId, nat)>,
    cs: Seq<NodeId>,
    d: nat,
)
    ensures
        pending(ns, m, s + at_depth(cs, d).reverse()) == walk_list(ns, m, cs, d, ns.len())
            + pending(ns, m, s),
    decreases cs.len(),
{
    if cs.len() == 0 {
        assert(s + at_depth(cs, d).reverse() =~= s);
    } else {
        let t = s + at_depth(cs, d).reverse();
        let rest = cs.drop_first();
        assert(t.last() == (cs[0], d));
        assert(t.drop_last() =~= s + at_depth(rest, d).reverse());
        lemma_pending_push_rev(ns, m, s, rest, d);
        assert(pending(ns, m, t) =~= walk_list(ns, m, cs, d, ns.len()) + pending(ns, m, s));
    }
}

pub proof fn lemma_pending_single(ns: Seq<NodeView>, m: WalkMode, id: NodeId, d: nat)
    ensures
        pending(ns, m, seq![(id, d)]) == traversal(ns, m, id, d),
{
    let st = seq![(id, d)];
    assert(st.drop_last() =~= Seq::<(NodeId, nat)>::empty());
    assert(st.last() == (id, d));
    assert(pending(ns, m, st.drop_last()) == Seq::<(NodeId, nat)>::empty());
    assert(traversal(ns, m, id, d) + Seq::<(NodeId, nat)>::empty() =~= traversal(ns, m, id, d));
}

} // verus!

verus! {

/// Two arenas agree on ids, parent links and children lists.
pub open spec fn same_shape(a: Seq<NodeView>, b: Seq<NodeView>) -> bool {
    &&& a.len() == b.len()
    &&& forall|i: int|
        0 <= i < a.len() ==> (#[trigger] a[i]).id == b[i].id && a[i].parent == b[i].parent
            && a[i].children == b[i].children
}

/// Well-formedness depends only on the shape of the arena.
pub proof fn lemma_wf_same_shape(a: Seq<NodeView>, b: Seq<NodeView>, root: NodeId)
    requires
        forest_wf(a, root),
        same_shape(a, b),
    ensures
        forest_wf(b, root),
{
    let rank = choose|rank: Seq<nat>| ranked(a, rank);
    assert forall|i: int| 0 <= i < b.len() implies #[trigger] parent_ok(b, i) by {
        assert(parent_ok(a, i));
        assert(a[i].parent == b[i].parent);
        if let Some(p) = b[i].parent {
            assert(a[p as int].children == b[p as int].children);
        }
    }
    assert forall|i: int| 0 <= i < b.len() implies #[trigger] children_ok(b, i) by {
        assert(children_ok(a, i));
        assert forall|k: int| 0 <= k < b[i].children.len() implies {
            let c = #[trigger] b[i].children[k];
            c < b.len() && b[c as int].parent == Some(i as NodeId)
        } by {
            let c = a[i].children[k];
            assert(a[c as int].parent == b[c as int].parent);
        }
    }
    assert forall|i: int| 0 <= i < b.len() implies (#[trigger] b[i]).id == i by {
        assert(a[i].id == i);
    }
    assert(ranked(b, rank)) by {
        assert forall|i: int, k: int|
            0 <= i < b.len() && 0 <= k < b[i].children.len() implies {
            let c = #[trigger] b[i].children[k];
            c < b.len() && rank[i] < rank[c as int]
        } by {
            assert(a[i].children[k] == b[i].children[k]);
        }
    }
}

/// Adding a new childless node under an existing node keeps the arena a forest.
pub proof fn lemma_wf_add_leaf(ns: Seq<NodeView>, root: NodeId, p: NodeId, j: int, ns2: Seq<NodeView>)
    requires
        forest_wf(ns, root),
        p < ns.len(),
        0 <= j <= ns[p as int].children.len(),
        ns2.len() == ns.len() + 1,
        forall|i: int|
            0 <= i < ns.len() && i != p ==> (#[trigger] ns2[i]).id == ns[i].id && ns2[i].parent
                == ns[i].parent && ns2[i].children == ns[i].children,
        ns2[p as int].id == ns[p as int].id,
        ns2[p as int].parent == ns[p as int].parent,
        ns2[p as int].children == ns[p as int].children.insert(j, ns.len() as NodeId),
        ns2[ns.len() as int].id == ns.len(),
        ns2[ns.len() as int].parent == Some(p),
        ns2[ns.len() as int].children.len() == 0,
    ensures
        forest_wf(ns2, root),
{
    let n = ns.len();
    let rank = choose|rank: Seq<nat>| ranked(ns, rank);
    let rank2 = rank.push(rank[p as int] + 1);
    assert forall|i: int| 0 <= i < ns2.len() implies #[trigger] parent_ok(ns2, i) by {
        if i < n {
            assert(parent_ok(ns, i));
            if let Some(q) = ns2[i].parent {
                if q == p {
                    let idx = choose|idx: int| 0 <= idx < ns[p as int].children.len() && ns[p as int].children[idx] == i;
                    if idx < j {
                        assert(ns2[p as int].children[idx] == i);
                    } else {
                        assert(ns2[p as int].children[idx + 1] == i);
                    }
                } else {
                    assert(ns2[q as int].children == ns[q as int].children);
                }
            }
        } else {
            assert(ns2[p as int].children[j] == n);
        }
    }
    assert forall|i: int| 0 <= i < ns2.len() implies #[trigger] children_ok(ns2, i) by {
        if i < n {
            assert(children_ok(ns, i));
            if i == p {
                assert forall|k: int| 0 <= k < ns[p as int].children.len() implies ns[p as int].children[k]
                    != n by {
                    let c = ns[p as int].children[k];
                }
                let old_cs = ns[p as int].children;
                let new_cs = ns2[p as int].children;
                assert forall|a: int, b: int| 0 <= a < new_cs.len() && 0 <= b < new_cs.len() && a != b implies new_cs[a] != new_cs[b] by {
                    let oa = if a < j { a } else { a - 1 };
                    let ob = if b < j { b } else { b - 1 };
                    if a != j && b != j {
                        assert(new_cs[a] == old_cs[oa]);
                        assert(new_cs[b] == old_cs[ob]);
                    } else if a == j {
                        assert(new_cs[b] == old_cs[ob]);
                    } else {
                        assert(new_cs[a] == old_cs[oa]);
                    }
                }
                assert(ns2[i].children.no_duplicates());
            }
            assert forall|k: int| 0 <= k < ns2[i].children.len() implies {
                let c = #[trigger] ns2[i].children[k];
                c < ns2.len() && ns2[c as int].parent == Some(i as NodeId)
            } by {
                if i == p && k == j {
                } else {
                    let ok = if i == p && k > j { k - 1 } else { k };
                    let c = ns[i].children[ok];
                    assert(ns2[i].children[k] == c);
                    assert(c < n && ns[c as int].parent == Some(i as NodeId));
                }
            }
        }
    }
    assert forall|i: int| 0 <= i < ns2.len() implies (#[trigger] ns2[i]).id == i by {
        if i < n {
            assert(ns[i].id == i);
        }
    }
    assert(ranked(ns2, rank2)) by {
        assert forall|i: int| 0 <= i < ns2.len() implies #[trigger] rank2[i] < ns2.len() by {
            if i < n {
                assert(rank[i] < n);
            }
        }
        assert forall|i: int, k: int|
            0 <= i < ns2.len() && 0 <= k < ns2[i].children.len() implies {
            let c = #[trigger] ns2[i].children[k];
            c < ns2.len() && rank2[i] < rank2[c as int]
        } by {
            if i == p && k == j {
            } else {
                let ok = if i == p && k > j { k - 1 } else { k };
                let c = ns[i].children[ok];
                assert(ns2[i].children[k] == c);
                assert(c < n && rank[i] < rank[c as int]);
            }
        }
    }
}

} // verus!

verus! {

/// The ancestors of `i`, nearest first, following at most `fuel` parent links.
pub open spec fn ancestors_fuel(ns: Seq<NodeView>, i: NodeId, fuel: nat) -> Seq<NodeId>
    decreases fuel,
{
    if fuel == 0 {
        Seq::empty()
    } else {
        match ns[i as int].parent {
            Some(p) => seq![p] + ancestors_fuel(ns, p, (fuel - 1) as nat),
            None => Seq::empty(),
        }
    }
}

/// The ancestors of `i`, nearest (its parent) first, up to a node without parent.
pub open spec fn ancestors(ns: Seq<NodeView>, i: NodeId) -> Seq<NodeId> {
    ancestors_fuel(ns, i, ns.len())
}

/// In a ranked arena a parent ranks below its child.
pub proof fn lemma_parent_rank(ns: Seq<NodeView>, root: NodeId, rank: Seq<nat>, i: NodeId)
    requires
        forest_wf(ns, root),
        ranked(ns, rank),
        i < ns.len(),
        ns[i as int].parent is Some,
    ensures
        ns[i as int].parent->0 < ns.len(),
        rank[ns[i as int].parent->0 as int] < rank[i as int],
{
    let p = ns[i as int].parent->0;
    assert(parent_ok(ns, i as int));
    let k = choose|k: int| 0 <= k < ns[p as int].children.len() && ns[p as int].children[k] == i;
    assert(ns[p as int].children[k] == i);
}

/// With enough fuel the ancestor list does not depend on the fuel.
pub proof fn lemma_ancestors_fuel(ns: Seq<NodeView>, root: NodeId, rank: Seq<nat>, i: NodeId, f1: nat, f2: nat)
    requires
        forest_wf(ns, root),
        ranked(ns, rank),
        i < ns.len(),
        f1 > rank[i as int],
        f2 > rank[i as int],
    ensures
        ancestors_fuel(ns, i, f1) == ancestors_fuel(ns, i, f2),
    decreases f1,
{
    if let Some(p) = ns[i as int].parent {
        lemma_parent_rank(ns, root, rank, i);
        lemma_ancestors_fuel(ns, root, rank, p, (f1 - 1) as nat, (f2 - 1) as nat);
    }
}

/// One step up the ancestor list.
pub proof fn lemma_ancestors_unfold(ns: Seq<NodeView>, root: NodeId, i: NodeId)
    requires
        forest_wf(ns, root),
        i < ns.len(),
    ensures
        ancestors(ns, i) == match ns[i as int].parent {
            Some(p) => seq![p] + ancestors(ns, p),
            None => Seq::<NodeId>::empty(),
        },
        forall|k: int| 0 <= k < ancestors(ns, i).len() ==> #[trigger] ancestors(ns, i)[k] < ns.len(),
    decreases ns.len(),
{
    let rank = choose|rank: Seq<nat>| ranked(ns, rank);
    if let Some(p) = ns[i as int].parent {
        lemma_parent_rank(ns, root, rank, i);
        assert(rank[i as int] < ns.len());
        lemma_ancestors_fuel(ns, root, rank, p, (ns.len() - 1) as nat, ns.len());
        lemma_ancestors_in_range(ns, root, rank, p, ns.len());
    }
}

pub proof fn lemma_ancestors_in_range(ns: Seq<NodeView>, root: NodeId, rank: Seq<nat>, i: NodeId, f: nat)
    requires
        forest_wf(ns, root),
        ranked(ns, rank),
        i < ns.len(),
    ensures
        forall|k: int| 0 <= k < ancestors_fuel(ns, i, f).len() ==> #[trigger] ancestors_fuel(ns, i, f)[k] < ns.len(),
    decreases f,
{
    if f > 0 {
        if let Some(p) = ns[i as int].parent {
            lemma_parent_rank(ns, root, rank, i);
            lemma_ancestors_in_range(ns, root, rank, p, (f - 1) as nat);
            let a = ancestors_fuel(ns, i, f);
            assert forall|k: int| 0 <= k < a.len() implies #[trigger] a[k] < ns.len() by {
                if k > 0 {
                    assert(a[k] == ancestors_fuel(ns, p, (f - 1) as nat)[k - 1]);
                }
            }
        }
    }
}

} // verus!

verus! {

/// The side a node is drawn on: its own position, or else that of its nearest
/// ancestor below the root that has one.
pub open spec fn effective_side_fuel(ns: Seq<NodeView>, root: NodeId, i: NodeId, fuel: nat) -> Option<crate::node::Side>
    decreases fuel,
{
    if fuel == 0 {
        None
    } else if ns[i as int].position is Some {
        ns[i as int].position
    } else {
        match ns[i as int].parent {
            Some(p) => if p != root {
                effective_side_fuel(ns, root, p, (fuel - 1) as nat)
            } else {
                None
            },
            None => None,
        }
    }
}

pub open spec fn effective_side(ns: Seq<NodeView>, root: NodeId, i: NodeId) -> Option<crate::node::Side> {
    effective_side_fuel(ns, root, i, ns.len())
}

pub proof fn lemma_effective_side_fuel(ns: Seq<NodeView>, root: NodeId, rank: Seq<nat>, i: NodeId, f1: nat, f2: nat)
    requires
        forest_wf(ns, root),
        ranked(ns, rank),
        i < ns.len(),
        f1 > rank[i as int],
        f2 > rank[i as int],
    ensures
        effective_side_fuel(ns, root, i, f1) == effective_side_fuel(ns, root, i, f2),
    decreases f1,
{
    if let Some(p) = ns[i as int].parent {
        lemma_parent_rank(ns, root, rank, i);
        lemma_effective_side_fuel(ns, root, rank, p, (f1 - 1) as nat, (f2 - 1) as nat);
    }
}

pub proof fn lemma_effective_side_unfold(ns: Seq<NodeView>, root: NodeId, i: NodeId)
    requires
        forest_wf(ns, root),
        i < ns.len(),
    ensures
        effective_side(ns, root, i) == if ns[i as int].position is Some {
            ns[i as int].position
        } else {
            match ns[i as int].parent {
                Some(p) => if p != root { effective_side(ns, root, p) } else { None },
                None => None,
            }
        },
{
    let rank = choose|rank: Seq<nat>| ranked(ns, rank);
    if let Some(p) = ns[i as int].parent {
        lemma_parent_rank(ns, root, rank, i);
        assert(rank[i as int] < ns.len());
        lemma_effective_side_fuel(ns, root, rank, p, (ns.len() - 1) as nat, ns.len());
    }
}

} // verus!

verus! {

/// The nodes that a traversal of the whole subtree emits, as a set.
pub open spec fn in_subtree(ns: Seq<NodeView>, id: NodeId, x: NodeId) -> bool {
    subtree(ns, id).contains(x)
}

/// Every node of a walk other than its start has its parent in the walk.
pub proof fn lemma_walk_parents(ns: Seq<NodeView>, root: NodeId, m: WalkMode, id: NodeId, d: nat, fuel: nat)
    requires
        forest_wf(ns, root),
        id < ns.len(),
    ensures
        forall|x: NodeId|
            #![trigger ids_of(walk(ns, m, id, d, fuel)).contains(x)]
            ids_of(walk(ns, m, id, d, fuel)).contains(x) ==> x < ns.len() && (x == id || (ns[x as int].parent
                is Some && ids_of(walk(ns, m, id, d, fuel)).contains(ns[x as int].parent->0))),
    decreases fuel, 0nat,
{
    let w = walk(ns, m, id, d, fuel);
    if fuel > 0 && walk_keep(ns, m, id) {
        let ks = walk_kids(ns, m, id);
        let rank = choose|rank: Seq<nat>| ranked(ns, rank);
        lemma_kids_ranked(ns, rank, m, id);
        assert(children_ok(ns, id as int));
        assert forall|k: int| 0 <= k < ks.len() implies ks[k] < ns.len() && ns[ks[k] as int].parent == Some(id) by {
            lemma_kids_are_children(ns, m, id, k);
            let c = ns[id as int].children[k];
        }
        lemma_walk_list_parents(ns, root, m, id, ks, d + 1, (fuel - 1) as nat);
        let tail = walk_list(ns, m, ks, d + 1, (fuel - 1) as nat);
        assert(w == seq![(id, d)] + tail);
        assert(ids_of(w) =~= seq![id] + ids_of(tail));
        assert forall|x: NodeId| ids_of(w).contains(x) implies x < ns.len() && (x == id || (ns[x as int].parent
            is Some && ids_of(w).contains(ns[x as int].parent->0))) by {
            if x != id {
                let k = choose|k: int| 0 <= k < ids_of(w).len() && ids_of(w)[k] == x;
                assert(ids_of(tail)[k - 1] == x);
                assert(ids_of(tail).contains(x));
                let q = ns[x as int].parent->0;
                if q == id {
                    assert(ids_of(w)[0] == id);
                } else {
                    let kq = choose|kq: int| 0 <= kq < ids_of(tail).len() && ids_of(tail)[kq] == q;
                    assert(ids_of(w)[kq + 1] == q);
                }
            }
        }
    }
}

/// Helper for `lemma_walk_parents` over a list of siblings whose parent is `p`.
pub proof fn lemma_walk_list_parents(
    ns: Seq<NodeView>,
    root: NodeId,
    m: WalkMode,
    p: NodeId,
    cs: Seq<NodeId>,
    d: nat,
    fuel: nat,
)
    requires
        forest_wf(ns, root),
        forall|k: int| 0 <= k < cs.len() ==> cs[k] < ns.len() && ns[cs[k] as int].parent == Some(p),
    ensures
        forall|x: NodeId|
            #![trigger ids_of(walk_list(ns, m, cs, d, fuel)).contains(x)]
            ids_of(walk_list(ns, m, cs, d, fuel)).contains(x) ==> x < ns.len() && ns[x as int].parent is Some && (
            ns[x as int].parent->0 == p || ids_of(walk_list(ns, m, cs, d, fuel)).contains(
                ns[x as int].parent->0,
            )),
    decreases fuel, cs.len() + 1,
{
    let wl = walk_list(ns, m, cs, d, fuel);
    if cs.len() > 0 {
        let c = cs[0];
        lemma_walk_parents(ns, root, m, c, d, fuel);
        lemma_walk_list_parents(ns, root, m, p, cs.drop_first(), d, fuel);
        let a = walk(ns, m, c, d, fuel);
        let b = walk_list(ns, m, cs.drop_first(), d, fuel);
        assert(wl == a + b);
        assert(ids_of(wl) =~= ids_of(a) + ids_of(b));
        assert forall|x: NodeId| ids_of(wl).contains(x) implies x < ns.len() && ns[x as int].parent is Some && (
        ns[x as int].parent->0 == p || ids_of(wl).contains(ns[x as int].parent->0)) by {
            let k = choose|k: int| 0 <= k < ids_of(wl).len() && ids_of(wl)[k] == x;
            if k < ids_of(a).len() {
                assert(ids_of(a)[k] == x);
                assert(ids_of(a).contains(x));
                if x != c {
                    let q = ns[x as int].parent->0;
                    let kq = choose|kq: int| 0 <= kq < ids_of(a).len() && ids_of(a)[kq] == q;
                    assert(ids_of(wl)[kq] == q);
                }
            } else {
                assert(ids_of(b)[k - ids_of(a).len()] == x);
                assert(ids_of(b).contains(x));
                if ns[x as int].parent->0 != p {
                    let q = ns[x as int].parent->0;
                    let kq = choose|kq: int| 0 <= kq < ids_of(b).len() && ids_of(b)[kq] == q;
                    assert(ids_of(wl)[kq + ids_of(a).len()] == q);
                }
            }
        }
    }
}

} // verus!

verus! {

/// The nodes a walk emits do not depend on the starting depth.
pub proof fn lemma_walk_ids_depth(ns: Seq<NodeView>, m: WalkMode, id: NodeId, d1: nat, d2: nat, fuel: nat)
    ensures
        ids_of(walk(ns, m, id, d1, fuel)) == ids_of(walk(ns, m, id, d2, fuel)),
    decreases fuel, 0nat,
{
    if fuel > 0 && walk_keep(ns, m, id) {
        let ks = walk_kids(ns, m, id);
        lemma_walk_list_ids_depth(ns, m, ks, d1 + 1, d2 + 1, (fuel - 1) as nat);
        let t1 = walk_list(ns, m, ks, d1 + 1, (fuel - 1) as nat);
        let t2 = walk_list(ns, m, ks, d2 + 1, (fuel - 1) as nat);
        assert(ids_of(walk(ns, m, id, d1, fuel)) =~= seq![id] + ids_of(t1));
        assert(ids_of(walk(ns, m, id, d2, fuel)) =~= seq![id] + ids_of(t2));
    }
}

pub proof fn lemma_walk_list_ids_depth(ns: Seq<NodeView>, m: WalkMode, cs: Seq<NodeId>, d1: nat, d2: nat, fuel: nat)
    ensures
        ids_of(walk_list(ns, m, cs, d1, fuel)) == ids_of(walk_list(ns, m, cs, d2, fuel)),
    decreases fuel, cs.len() + 1,
{
    if cs.len() > 0 {
        lemma_walk_ids_depth(ns, m, cs[0], d1, d2, fuel);
        lemma_walk_list_ids_depth(ns, m, cs.drop_first(), d1, d2, fuel);
        let a1 = walk(ns, m, cs[0], d1, fuel);
        let a2 = walk(ns, m, cs[0], d2, fuel);
        let b1 = walk_list(ns, m, cs.drop_first(), d1, fuel);
        let b2 = walk_list(ns, m, cs.drop_first(), d2, fuel);
        assert(ids_of(walk_list(ns, m, cs, d1, fuel)) =~= ids_of(a1) + ids_of(b1));
        assert(ids_of(walk_list(ns, m, cs, d2, fuel)) =~= ids_of(a2) + ids_of(b2));
    }
}

/// A node is emitted by a walk over siblings exactly when one of their walks emits it.
pub proof fn lemma_walk_list_member(ns: Seq<NodeView>, m: WalkMode, cs: Seq<NodeId>, d: nat, fuel: nat, x: NodeId)
    ensures
        ids_of(walk_list(ns, m, cs, d, fuel)).contains(x) <==> exists|k: int|
            0 <= k < cs.len() && #[trigger] ids_of(walk(ns, m, cs[k], d, fuel)).contains(x),
    decreases cs.len(),
{
    if cs.len() > 0 {
        let rest = cs.drop_first();
        lemma_walk_list_member(ns, m, rest, d, fuel, x);
        let a = walk(ns, m, cs[0], d, fuel);
        let b = walk_list(ns, m, rest, d, fuel);
        assert(ids_of(walk_list(ns, m, cs, d, fuel)) =~= ids_of(a) + ids_of(b));
        if ids_of(walk_list(ns, m, cs, d, fuel)).contains(x) {
            let i = choose|i: int| 0 <= i < ids_of(a + b).len() && ids_of(a + b)[i] == x;
            if i < ids_of(a).len() {
                assert(ids_of(a)[i] == x);
                assert(ids_of(walk(ns, m, cs[0], d, fuel)).contains(x));
            } else {
                assert(ids_of(b)[i - ids_of(a).len()] == x);
                assert(ids_of(b).contains(x));
                let k = choose|k: int| 0 <= k < rest.len() && #[trigger] ids_of(walk(ns, m, rest[k], d, fuel)).contains(x);
                assert(rest[k] == cs[k + 1]);
            }
        }
        if exists|k: int| 0 <= k < cs.len() && #[trigger] ids_of(walk(ns, m, cs[k], d, fuel)).contains(x) {
            let k = choose|k: int| 0 <= k < cs.len() && #[trigger] ids_of(walk(ns, m, cs[k], d, fuel)).contains(x);
            if k == 0 {
                let i = choose|i: int| 0 <= i < ids_of(a).len() && ids_of(a)[i] == x;
                assert(ids_of(a + b)[i] == x);
            } else {
                assert(rest[k - 1] == cs[k]);
                assert(ids_of(walk(ns, m, rest[k - 1], d, fuel)).contains(x));
                assert(ids_of(b).contains(x));
                let i = choose|i: int| 0 <= i < ids_of(b).len() && ids_of(b)[i] == x;
                assert(ids_of(a + b)[i + ids_of(a).len()] == x);
            }
        }
    }
}

/// A full walk of all nodes contains the children of every node it contains.
pub proof fn lemma_walk_all_closed(ns: Seq<NodeView>, root: NodeId, rank: Seq<nat>, id: NodeId, d: nat, fuel: nat)
    requires
        forest_wf(ns, root),
        ranked(ns, rank),
        id < ns.len(),
        fuel >= ns.len() - rank[id as int],
    ensures
        forall|x: NodeId, k: int|
            ids_of(walk(ns, WalkMode::All, id, d, fuel)).contains(x) && 0 <= k < ns[x as int].children.len()
                ==> #[trigger] ids_of(walk(ns, WalkMode::All, id, d, fuel)).contains(
                #[trigger] ns[x as int].children[k],
            ),
    decreases fuel,
{
    let m = WalkMode::All;
    let w = walk(ns, m, id, d, fuel);
    let ks = walk_kids(ns, m, id);
    lemma_kids_ranked(ns, rank, m, id);
    let tail = walk_list(ns, m, ks, d + 1, (fuel - 1) as nat);
    assert(ids_of(w) =~= seq![id] + ids_of(tail));
    lemma_walk_parents(ns, root, m, id, d, fuel);
    assert forall|x: NodeId, k: int|
        ids_of(w).contains(x) && 0 <= k < ns[x as int].children.len() implies #[trigger] ids_of(w).contains(
        #[trigger] ns[x as int].children[k]) by {
        let c = ns[x as int].children[k];
        if x == id {
            assert(ks[k] == c);
            assert(walk(ns, m, c, d + 1, (fuel - 1) as nat)[0] == (c, d + 1));
            assert(ids_of(walk(ns, m, c, d + 1, (fuel - 1) as nat))[0] == c);
            assert(ids_of(walk(ns, m, ks[k], d + 1, (fuel - 1) as nat)).contains(c));
            lemma_walk_list_member(ns, m, ks, d + 1, (fuel - 1) as nat, c);
            assert(ids_of(tail).contains(c));
            let i = choose|i: int| 0 <= i < ids_of(tail).len() && ids_of(tail)[i] == c;
            assert(ids_of(w)[i + 1] == c);
        } else {
            let i = choose|i: int| 0 <= i < ids_of(w).len() && ids_of(w)[i] == x;
            assert(ids_of(tail)[i - 1] == x);
            assert(ids_of(tail).contains(x));
            lemma_walk_list_member(ns, m, ks, d + 1, (fuel - 1) as nat, x);
            let j = choose|j: int| 0 <= j < ks.len() && #[trigger] ids_of(walk(ns, m, ks[j], d + 1, (fuel - 1) as nat)).contains(x);
            lemma_walk_all_closed(ns, root, rank, ks[j], d + 1, (fuel - 1) as nat);
            assert(ids_of(walk(ns, m, ks[j], d + 1, (fuel - 1) as nat)).contains(c));
            lemma_walk_list_member(ns, m, ks, d + 1, (fuel - 1) as nat, c);
            assert(ids_of(tail).contains(c));
            let i2 = choose|i2: int| 0 <= i2 < ids_of(tail).len() && ids_of(tail)[i2] == c;
            assert(ids_of(w)[i2 + 1] == c);
        }
    }
}

} // verus!

verus! {

/// A node emptied by deletion: no text, no parent, no children.
pub open spec fn cleared(v: NodeView) -> NodeView {
    NodeView { children: Seq::empty(), parent: None, text: Seq::empty(), ..v }
}

/// `p`'s child list without `c`.
pub open spec fn detach(ns: Seq<NodeView>, p: NodeId, c: NodeId) -> Seq<NodeView> {
    ns.update(
        p as int,
        NodeView { children: ns[p as int].children.remove(ns[p as int].children.index_of(c)), ..ns[p as int] },
    )
}

/// The arena after deleting the subtree under `n`: `n` leaves its parent's child
/// list and every node of the subtree is cleared (but stays in the arena).
pub open spec fn after_delete(ns: Seq<NodeView>, n: NodeId) -> Seq<NodeView> {
    let d = match ns[n as int].parent {
        Some(p) => detach(ns, p, n),
        None => ns,
    };
    Seq::new(ns.len(), |i: int| if in_subtree(ns, n, i as NodeId) { cleared(d[i]) } else { d[i] })
}

/// Nodes under `id` rank at least as high as `id`.
pub proof fn lemma_walk_rank(ns: Seq<NodeView>, root: NodeId, rank: Seq<nat>, m: WalkMode, id: NodeId, d: nat, fuel: nat)
    requires
        forest_wf(ns, root),
        ranked(ns, rank),
        id < ns.len(),
    ensures
        forall|x: NodeId| #[trigger] ids_of(walk(ns, m, id, d, fuel)).contains(x) ==> x < ns.len() && rank[x as int] >= rank[id as int],
    decreases fuel,
{
    let w = walk(ns, m, id, d, fuel);
    if fuel > 0 && walk_keep(ns, m, id) {
        let ks = walk_kids(ns, m, id);
        lemma_kids_ranked(ns, rank, m, id);
        let tail = walk_list(ns, m, ks, d + 1, (fuel - 1) as nat);
        assert(ids_of(w) =~= seq![id] + ids_of(tail));
        assert forall|x: NodeId| #[trigger] ids_of(w).contains(x) implies x < ns.len() && rank[x as int] >= rank[id as int] by {
            if x != id {
                let i = choose|i: int| 0 <= i < ids_of(w).len() && ids_of(w)[i] == x;
                assert(ids_of(tail)[i - 1] == x);
                lemma_walk_list_member(ns, m, ks, d + 1, (fuel - 1) as nat, x);
                let j = choose|j: int| 0 <= j < ks.len() && #[trigger] ids_of(walk(ns, m, ks[j], d + 1, (fuel - 1) as nat)).contains(x);
                lemma_walk_rank(ns, root, rank, m, ks[j], d + 1, (fuel - 1) as nat);
            }
        }
    }
}

/// The facts about subtree membership that deletion relies on.
pub proof fn lemma_subtree_facts(ns: Seq<NodeView>, root: NodeId, n: NodeId)
    requires
        forest_wf(ns, root),
        n < ns.len(),
    ensures
        in_subtree(ns, n, n),
        forall|x: NodeId| #[trigger] in_subtree(ns, n, x) ==> x < ns.len(),
        forall|x: NodeId| #[trigger] in_subtree(ns, n, x) && x != n ==> ns[x as int].parent is Some
            && in_subtree(ns, n, ns[x as int].parent->0),
        forall|x: NodeId, k: int| #[trigger] in_subtree(ns, n, x) && 0 <= k < ns[x as int].children.len()
            ==> in_subtree(ns, n, #[trigger] ns[x as int].children[k]),
        ns[n as int].parent is Some ==> !in_subtree(ns, n, ns[n as int].parent->0),
        !in_subtree(ns, n, root) || n == root,
        subtree(ns, n).len() > 0 && subtree(ns, n)[0] == n,
{
    let rank = choose|rank: Seq<nat>| ranked(ns, rank);
    let m = WalkMode::All;
    lemma_walk_parents(ns, root, m, n, 0, ns.len());
    lemma_walk_all_closed(ns, root, rank, n, 0, ns.len());
    lemma_walk_rank(ns, root, rank, m, n, 0, ns.len());
    assert(rank[n as int] < ns.len());
    assert(walk(ns, m, n, 0, ns.len())[0] == (n, 0nat));
    assert(subtree(ns, n)[0] == n);
    if ns[n as int].parent is Some {
        lemma_parent_rank(ns, root, rank, n);
    }
}

/// Deleting a subtree (other than the whole tree) keeps the arena a forest.
pub proof fn lemma_wf_delete(ns: Seq<NodeView>, root: NodeId, n: NodeId)
    requires
        forest_wf(ns, root),
        n < ns.len(),
        n != root,
    ensures
        forest_wf(after_delete(ns, n), root),
{
    lemma_subtree_facts(ns, root, n);
    let rank = choose|rank: Seq<nat>| ranked(ns, rank);
    let ns2 = after_delete(ns, n);
    let in_s = |x: NodeId| in_subtree(ns, n, x);
    if let Some(p) = ns[n as int].parent {
        assert(parent_ok(ns, n as int));
        assert(children_ok(ns, p as int));
    }
    assert forall|i: int| 0 <= i < ns2.len() implies (#[trigger] ns2[i]).id == i by {
        assert(ns[i].id == i);
    }
    assert forall|i: int| 0 <= i < ns2.len() implies #[trigger] parent_ok(ns2, i) by {
        assert(parent_ok(ns, i));
        if !in_subtree(ns, n, i as NodeId) {
            if let Some(q) = ns[i].parent {
                assert(ns2[i].parent == Some(q));
                let k = choose|k: int| 0 <= k < ns[q as int].children.len() && ns[q as int].children[k] == i;
                assert(ns[q as int].children[k] == i);
                if in_subtree(ns, n, q) {
                    assert(in_subtree(ns, n, ns[q as int].children[k]));
                }
                assert(!in_subtree(ns, n, q));
                if ns[n as int].parent == Some(q) {
                    let cs = ns[q as int].children;
                    let j = cs.index_of(n);
                    assert(cs[j] == n);
                    assert(i != n);
                    assert(k != j);
                    let cs2 = cs.remove(j);
                    if k < j {
                        assert(cs2[k] == i);
                    } else {
                        assert(cs2[k - 1] == i);
                    }
                    assert(ns2[q as int].children == cs2);
                } else {
                    assert(ns2[q as int].children == ns[q as int].children);
                }
            }
        }
    }
    assert forall|q: int| 0 <= q < ns2.len() implies #[trigger] children_ok(ns2, q) by {
        assert(children_ok(ns, q));
        if !in_subtree(ns, n, q as NodeId) {
            let cs = ns[q as int].children;
            if ns[n as int].parent == Some(q as NodeId) {
                let j = cs.index_of(n);
                assert(cs[j] == n);
                let cs2 = cs.remove(j);
                assert(ns2[q].children == cs2);
                assert forall|a: int, b: int| 0 <= a < cs2.len() && 0 <= b < cs2.len() && a != b implies cs2[a] != cs2[b] by {
                    let oa = if a < j { a } else { a + 1 };
                    let ob = if b < j { b } else { b + 1 };
                    assert(cs2[a] == cs[oa]);
                    assert(cs2[b] == cs[ob]);
                }
                assert forall|k: int| 0 <= k < cs2.len() implies {
                    let c = #[trigger] cs2[k];
                    c < ns2.len() && ns2[c as int].parent == Some(q as NodeId)
                } by {
                    let ok = if k < j { k } else { k + 1 };
                    let c = cs[ok];
                    assert(cs2[k] == c);
                    assert(c != n);
                    assert(ns[c as int].parent == Some(q as NodeId));
                    if in_subtree(ns, n, c) {
                        assert(in_subtree(ns, n, q as NodeId));
                    }
                }
            } else {
                assert(ns2[q].children == cs);
                assert forall|k: int| 0 <= k < cs.len() implies {
                    let c = #[trigger] cs[k];
                    c < ns2.len() && ns2[c as int].parent == Some(q as NodeId)
                } by {
                    let c = cs[k];
                    assert(ns[c as int].parent == Some(q as NodeId));
                    if c == n {
                        assert(false);
                    }
                    if in_subtree(ns, n, c) {
                        assert(in_subtree(ns, n, q as NodeId));
                    }
                }
            }
        }
    }
    assert(ranked(ns2, rank)) by {
        assert forall|i: int, k: int|
            0 <= i < ns2.len() && 0 <= k < ns2[i].children.len() implies {
            let c = #[trigger] ns2[i].children[k];
            c < ns2.len() && rank[i] < rank[c as int]
        } by {
            let cs = ns[i].children;
            if ns[n as int].parent == Some(i as NodeId) && !in_subtree(ns, n, i as NodeId) {
                let j = cs.index_of(n);
                let ok = if k < j { k } else { k + 1 };
                assert(ns2[i].children[k] == cs[ok]);
                assert(cs[ok] < ns.len() && rank[i] < rank[cs[ok] as int]);
            } else {
                assert(ns2[i].children[k] == cs[k]);
                assert(cs[k] < ns.len() && rank[i] < rank[cs[k] as int]);
            }
        }
    }
}

} // verus!

verus! {

/// Reordering the children of one node keeps the arena a forest.
pub proof fn lemma_wf_reorder_children(ns: Seq<NodeView>, root: NodeId, p: NodeId, ns2: Seq<NodeView>)
    requires
        forest_wf(ns, root),
        p < ns.len(),
        ns2.len() == ns.len(),
        forall|i: int|
            0 <= i < ns.len() && i != p ==> (#[trigger] ns2[i]).id == ns[i].id && ns2[i].parent
                == ns[i].parent && ns2[i].children == ns[i].children,
        ns2[p as int].id == ns[p as int].id,
        ns2[p as int].parent == ns[p as int].parent,
        ns2[p as int].children.len() == ns[p as int].children.len(),
        ns2[p as int].children.no_duplicates(),
        forall|x: NodeId| ns2[p as int].children.contains(x) <==> ns[p as int].children.contains(x),
    ensures
        forest_wf(ns2, root),
{
    let rank = choose|rank: Seq<nat>| ranked(ns, rank);
    assert forall|i: int| 0 <= i < ns2.len() implies #[trigger] parent_ok(ns2, i) by {
        assert(parent_ok(ns, i));
        if let Some(q) = ns2[i].parent {
            if q != p {
                assert(ns2[q as int].children == ns[q as int].children);
            }
        }
    }
    assert forall|i: int| 0 <= i < ns2.len() implies #[trigger] children_ok(ns2, i) by {
        assert(children_ok(ns, i));
        if i == p {
            assert forall|k: int| 0 <= k < ns2[i].children.len() implies {
                let c = #[trigger] ns2[i].children[k];
                c < ns2.len() && ns2[c as int].parent == Some(i as NodeId)
            } by {
                let c = ns2[i].children[k];
                assert(ns2[p as int].children.contains(c));
                let j = choose|j: int| 0 <= j < ns[p as int].children.len() && ns[p as int].children[j] == c;
                assert(ns[p as int].children[j] == c);
            }
        } else {
            assert forall|k: int| 0 <= k < ns2[i].children.len() implies {
                let c = #[trigger] ns2[i].children[k];
                c < ns2.len() && ns2[c as int].parent == Some(i as NodeId)
            } by {
                assert(ns[i].children[k] == ns2[i].children[k]);
            }
        }
    }
    assert forall|i: int| 0 <= i < ns2.len() implies (#[trigger] ns2[i]).id == i by {
        assert(ns[i].id == i);
    }
    assert(ranked(ns2, rank)) by {
        assert forall|i: int, k: int|
            0 <= i < ns2.len() && 0 <= k < ns2[i].children.len() implies {
            let c = #[trigger] ns2[i].children[k];
            c < ns2.len() && rank[i] < rank[c as int]
        } by {
            let c = ns2[i].children[k];
            if i == p {
                assert(ns2[p as int].children.contains(c));
                let j = choose|j: int| 0 <= j < ns[p as int].children.len() && ns[p as int].children[j] == c;
                assert(ns[p as int].children[j] == c);
            } else {
                assert(ns[i].children[k] == c);
            }
        }
    }
}

} // verus!

verus! {

/// Like `ranked` but without the bound on rank values.
pub open spec fn ranked_loose(ns: Seq<NodeView>, rank: Seq<nat>) -> bool {
    &&& rank.len() == ns.len()
    &&& forall|i: int, k: int|
        0 <= i < ns.len() && 0 <= k < ns[i].children.len() ==> {
            let c = #[trigger] ns[i].children[k];
            c < ns.len() && rank[i] < rank[c as int]
        }
}

/// `forest_wf` with an unbounded rank.
pub open spec fn forest_wf_loose(ns: Seq<NodeView>, root: NodeId, rank: Seq<nat>) -> bool {
    &&& root < ns.len()
    &&& ns[root as int].parent is None
    &&& forall|i: int| 0 <= i < ns.len() ==> (#[trigger] ns[i]).id == i
    &&& forall|i: int| 0 <= i < ns.len() ==> #[trigger] parent_ok(ns, i)
    &&& forall|i: int| 0 <= i < ns.len() ==> #[trigger] children_ok(ns, i)
    &&& ranked_loose(ns, rank)
}

proof fn lemma_loose_parent_rank(ns: Seq<NodeView>, root: NodeId, r: Seq<nat>, i: NodeId)
    requires
        forest_wf_loose(ns, root, r),
        i < ns.len(),
        ns[i as int].parent is Some,
    ensures
        ns[i as int].parent->0 < ns.len(),
        r[ns[i as int].parent->0 as int] < r[i as int],
{
    let p = ns[i as int].parent->0;
    assert(parent_ok(ns, i as int));
    let k = choose|k: int| 0 <= k < ns[p as int].children.len() && ns[p as int].children[k] == i;
    assert(ns[p as int].children[k] == i);
}

proof fn lemma_loose_chain(ns: Seq<NodeView>, root: NodeId, r: Seq<nat>, x: NodeId, f: nat)
    requires
        forest_wf_loose(ns, root, r),
        x < ns.len(),
    ensures
        forall|k: int| 0 <= k < ancestors_fuel(ns, x, f).len() ==> {
            let a = #[trigger] ancestors_fuel(ns, x, f)[k];
            a < ns.len() && r[a as int] < r[x as int]
        },
        forall|j: int, k: int| 0 <= j < k < ancestors_fuel(ns, x, f).len() ==> r[
            #[trigger] ancestors_fuel(ns, x, f)[k] as int
        ] < r[#[trigger] ancestors_fuel(ns, x, f)[j] as int],
    decreases f,
{
    if f > 0 {
        if let Some(p) = ns[x as int].parent {
            lemma_loose_parent_rank(ns, root, r, x);
            lemma_loose_chain(ns, root, r, p, (f - 1) as nat);
            let a = ancestors_fuel(ns, x, f);
            let b = ancestors_fuel(ns, p, (f - 1) as nat);
            assert(a == seq![p] + b);
            assert forall|k: int| 0 <= k < a.len() implies {
                let e = #[trigger] a[k];
                e < ns.len() && r[e as int] < r[x as int]
            } by {
                if k > 0 {
                    assert(a[k] == b[k - 1]);
                }
            }
            assert forall|j: int, k: int| 0 <= j < k < a.len() implies r[#[trigger] a[k] as int] < r[#[trigger] a[j] as int] by {
                assert(a[k] == b[k - 1]);
                if j > 0 {
                    assert(a[j] == b[j - 1]);
                }
            }
        }
    }
}

proof fn lemma_loose_fuel(ns: Seq<NodeView>, root: NodeId, r: Seq<nat>, x: NodeId, f1: nat, f2: nat)
    requires
        forest_wf_loose(ns, root, r),
        x < ns.len(),
        f1 > r[x as int],
        f2 > r[x as int],
    ensures
        ancestors_fuel(ns, x, f1) == ancestors_fuel(ns, x, f2),
    decreases f1,
{
    if let Some(p) = ns[x as int].parent {
        lemma_loose_parent_rank(ns, root, r, x);
        lemma_loose_fuel(ns, root, r, p, (f1 - 1) as nat, (f2 - 1) as nat);
    }
}

/// A sequence of distinct indices below `n` has at most `n` elements.
pub proof fn lemma_distinct_below(s: Seq<NodeId>, n: nat)
    requires
        s.no_duplicates(),
        forall|k: int| 0 <= k < s.len() ==> #[trigger] s[k] < n,
    ensures
        s.len() <= n,
{
    let t = s.map_values(|x: NodeId| x as int);
    assert(t.no_duplicates()) by {
        assert forall|a: int, b: int| 0 <= a < t.len() && 0 <= b < t.len() && a != b implies t[a] != t[b] by {
            assert(s[a] != s[b]);
        }
    }
    t.unique_seq_to_set();
    vstd::set_lib::lemma_int_range(0, n as int);
    assert(t.to_set().subset_of(vstd::set_lib::set_int_range(0, n as int))) by {
        assert forall|v: int| t.to_set().contains(v) implies vstd::set_lib::set_int_range(0, n as int).contains(v) by {
            let k = choose|k: int| 0 <= k < t.len() && t[k] == v;
            assert(s[k] < n);
        }
    }
    vstd::set_lib::lemma_len_subset(t.to_set(), vstd::set_lib::set_int_range(0, n as int));
}

/// An arena with an unbounded rank also has one bounded by its size.
pub proof fn lemma_loose_to_wf(ns: Seq<NodeView>, root: NodeId, r: Seq<nat>)
    requires
        forest_wf_loose(ns, root, r),
    ensures
        forest_wf(ns, root),
{
    let n = ns.len();
    let d = Seq::new(n, |x: int| ancestors_fuel(ns, x as NodeId, r[x] + 1).len());
    assert forall|x: int| 0 <= x < n implies #[trigger] d[x] < n by {
        let a = ancestors_fuel(ns, x as NodeId, r[x] + 1);
        lemma_loose_chain(ns, root, r, x as NodeId, r[x] + 1);
        let s = seq![x as NodeId] + a;
        assert(s.no_duplicates()) by {
            assert forall|i: int, j: int| 0 <= i < s.len() && 0 <= j < s.len() && i != j implies s[i] != s[j] by {
                if i == 0 {
                    assert(s[j] == a[j - 1]);
                } else if j == 0 {
                    assert(s[i] == a[i - 1]);
                } else if i < j {
                    assert(s[i] == a[i - 1] && s[j] == a[j - 1]);
                } else {
                    assert(s[i] == a[i - 1] && s[j] == a[j - 1]);
                }
            }
        }
        assert forall|k: int| 0 <= k < s.len() implies #[trigger] s[k] < n by {
            if k > 0 {
                assert(s[k] == a[k - 1]);
            }
        }
        lemma_distinct_below(s, n);
    }
    assert(ranked(ns, d)) by {
        assert forall|i: int, k: int|
            0 <= i < ns.len() && 0 <= k < ns[i].children.len() implies {
            let c = #[trigger] ns[i].children[k];
            c < ns.len() && d[i] < d[c as int]
        } by {
            let c = ns[i].children[k];
            assert(children_ok(ns, i));
            assert(ns[c as int].parent == Some(i as NodeId));
            assert(r[i] < r[c as int]);
            lemma_loose_fuel(ns, root, r, i as NodeId, r[c as int], r[i] + 1);
            assert(ancestors_fuel(ns, c, r[c as int] + 1) == seq![i as NodeId] + ancestors_fuel(ns, i as NodeId, r[c as int]));
        }
    }
}

} // verus!

verus! {

/// The arena after moving `n` from its parent to the end of `q`'s child list.
pub open spec fn moved(ns: Seq<NodeView>, n: NodeId, q: NodeId) -> Seq<NodeView> {
    let p = ns[n as int].parent->0;
    let a = detach(ns, p, n);
    let b = a.update(q as int, NodeView { children: a[q as int].children.push(n), ..a[q as int] });
    b.update(n as int, NodeView { parent: Some(q), ..b[n as int] })
}

pub open spec fn move_ok(ns: Seq<NodeView>, root: NodeId, n: NodeId, q: NodeId) -> bool {
    &&& forest_wf(ns, root)
    &&& n < ns.len()
    &&& q < ns.len()
    &&& ns[n as int].parent is Some
    &&& !in_subtree(ns, n, q)
}

/// The new child list of `q` without `n`.
pub open spec fn move_base(ns: Seq<NodeView>, n: NodeId, q: NodeId) -> Seq<NodeId> {
    detach(ns, ns[n as int].parent->0, n)[q as int].children
}

proof fn lemma_move_facts(ns: Seq<NodeView>, root: NodeId, n: NodeId, q: NodeId)
    requires
        move_ok(ns, root, n, q),
    ensures
        n != q,
        ns[n as int].parent->0 < ns.len(),
        !in_subtree(ns, n, ns[n as int].parent->0),
        ns[n as int].parent->0 != n,
        ns[n as int].children.no_duplicates(),
        ns[ns[n as int].parent->0 as int].children.contains(n),
        ns[ns[n as int].parent->0 as int].children[ns[ns[n as int].parent->0 as int].children.index_of(n)] == n,
        !move_base(ns, n, q).contains(n),
        move_base(ns, n, q).no_duplicates(),
        forall|k: int| 0 <= k < move_base(ns, n, q).len() ==> {
            let c = #[trigger] move_base(ns, n, q)[k];
            c < ns.len() && c != n && ns[c as int].parent == Some(q) && !in_subtree(ns, n, c)
        },
{
    lemma_subtree_facts(ns, root, n);
    let p = ns[n as int].parent->0;
    assert(parent_ok(ns, n as int));
    assert(children_ok(ns, p as int));
    assert(children_ok(ns, q as int));
    assert(children_ok(ns, n as int));
    let cs = ns[p as int].children;
    let j = cs.index_of(n);
    assert(cs[j] == n);
    let base = move_base(ns, n, q);
    assert(!base.contains(n)) by {
        if base.contains(n) {
            let k = choose|k: int| 0 <= k < base.len() && base[k] == n;
            if q == p {
                let ok = if k < j { k } else { k + 1 };
                assert(cs.remove(j)[k] == cs[ok]);
            } else {
                assert(ns[q as int].children[k] == n);
            }
        }
    }
    assert(base.no_duplicates()) by {
        if q == p {
            assert forall|s: int, t: int| 0 <= s < base.len() && 0 <= t < base.len() && s != t implies base[s] != base[t] by {
                let os = if s < j { s } else { s + 1 };
                let ot = if t < j { t } else { t + 1 };
                assert(base[s] == cs[os] && base[t] == cs[ot]);
            }
        }
    }
    assert forall|k: int| 0 <= k < base.len() implies {
        let c = #[trigger] base[k];
        c < ns.len() && c != n && ns[c as int].parent == Some(q) && !in_subtree(ns, n, c)
    } by {
        let c = base[k];
        if q == p {
            let ok = if k < j { k } else { k + 1 };
            assert(cs.remove(j)[k] == cs[ok]);
        } else {
            assert(ns[q as int].children[k] == c);
        }
        if in_subtree(ns, n, c) {
            assert(in_subtree(ns, n, q));
        }
    }
}

#[verifier::spinoff_prover]
proof fn lemma_move_parent_ok(ns: Seq<NodeView>, root: NodeId, n: NodeId, q: NodeId)
    requires
        move_ok(ns, root, n, q),
    ensures
        forall|x: int| 0 <= x < ns.len() ==> #[trigger] parent_ok(moved(ns, n, q), x),
{
    lemma_move_facts(ns, root, n, q);
    let m = moved(ns, n, q);
    let p = ns[n as int].parent->0;
    let cs = ns[p as int].children;
    let j = cs.index_of(n);
    let a = detach(ns, p, n);
    let base = move_base(ns, n, q);
    assert forall|x: int| 0 <= x < m.len() implies #[trigger] parent_ok(m, x) by {
        assert(parent_ok(ns, x));
        if x == n {
            assert(m[q as int].children == base.push(n));
            assert(m[q as int].children[base.len() as int] == n);
        } else if let Some(y) = ns[x].parent {
            let k0 = choose|k0: int| 0 <= k0 < ns[y as int].children.len() && ns[y as int].children[k0] == x;
            assert(ns[y as int].children[k0] == x);
            let ay = a[y as int].children;
            let ak = if y == p { if k0 < j { k0 } else { k0 - 1 } } else { k0 };
            if y == p {
                assert(k0 != j);
                assert(cs.remove(j)[ak] == x);
            }
            assert(ay[ak] == x);
            if y == q {
                assert(m[y as int].children == ay.push(n));
                assert(m[y as int].children[ak] == x);
            } else {
                assert(m[y as int].children == ay);
            }
        }
    }
}

#[verifier::spinoff_prover]
proof fn lemma_move_children_ok(ns: Seq<NodeView>, root: NodeId, n: NodeId, q: NodeId)
    requires
        move_ok(ns, root, n, q),
    ensures
        forall|y: int| 0 <= y < ns.len() ==> #[trigger] children_ok(moved(ns, n, q), y),
{
    lemma_move_facts(ns, root, n, q);
    let m = moved(ns, n, q);
    let p = ns[n as int].parent->0;
    let cs = ns[p as int].children;
    let j = cs.index_of(n);
    let base = move_base(ns, n, q);
    assert forall|y: int| 0 <= y < m.len() implies #[trigger] children_ok(m, y) by {
        assert(children_ok(ns, y));
        if y == q {
            let mc = m[y].children;
            assert(mc == base.push(n));
            assert forall|s: int, t: int| 0 <= s < mc.len() && 0 <= t < mc.len() && s != t implies mc[s] != mc[t] by {
                if s < base.len() && t < base.len() {
                    assert(mc[s] == base[s] && mc[t] == base[t]);
                } else if s < base.len() {
                    assert(mc[t] == n);
                    assert(mc[s] == base[s]);
                } else if t < base.len() {
                    assert(mc[s] == n);
                    assert(mc[t] == base[t]);
                }
            }
            assert forall|k: int| 0 <= k < mc.len() implies {
                let c = #[trigger] mc[k];
                c < m.len() && m[c as int].parent == Some(y as NodeId)
            } by {
                if k < base.len() {
                    assert(mc[k] == base[k]);
                }
            }
        } else if y == p {
            let mc = m[y].children;
            assert(mc == cs.remove(j));
            assert forall|s: int, t: int| 0 <= s < mc.len() && 0 <= t < mc.len() && s != t implies mc[s] != mc[t] by {
                let os = if s < j { s } else { s + 1 };
                let ot = if t < j { t } else { t + 1 };
                assert(mc[s] == cs[os] && mc[t] == cs[ot]);
            }
            assert forall|k: int| 0 <= k < mc.len() implies {
                let c = #[trigger] mc[k];
                c < m.len() && m[c as int].parent == Some(y as NodeId)
            } by {
                let ok = if k < j { k } else { k + 1 };
                assert(mc[k] == cs[ok]);
            }
        } else {
            assert(m[y].children == ns[y].children);
            assert forall|k: int| 0 <= k < m[y].children.len() implies {
                let c = #[trigger] m[y].children[k];
                c < m.len() && m[c as int].parent == Some(y as NodeId)
            } by {
                let c = ns[y].children[k];
                assert(ns[c as int].parent == Some(y as NodeId));
            }
        }
    }
}

#[verifier::spinoff_prover]
proof fn lemma_move_ranked(ns: Seq<NodeView>, root: NodeId, n: NodeId, q: NodeId, rank: Seq<nat>)
    requires
        move_ok(ns, root, n, q),
        ranked(ns, rank),
    ensures
        ranked_loose(
            moved(ns, n, q),
            Seq::new(ns.len(), |x: int| if in_subtree(ns, n, x as NodeId) { rank[x] + rank[q as int] + 1 } else { rank[x] }),
        ),
{
    lemma_move_facts(ns, root, n, q);
    lemma_subtree_facts(ns, root, n);
    let m = moved(ns, n, q);
    let p = ns[n as int].parent->0;
    let cs = ns[p as int].children;
    let j = cs.index_of(n);
    let base = move_base(ns, n, q);
    let r2 = Seq::new(ns.len(), |x: int| if in_subtree(ns, n, x as NodeId) { rank[x] + rank[q as int] + 1 } else { rank[x] });
    assert forall|y: int, k: int|
        0 <= y < m.len() && 0 <= k < m[y].children.len() implies {
        let c = #[trigger] m[y].children[k];
        c < m.len() && r2[y] < r2[c as int]
    } by {
        let c = m[y].children[k];
        if y == q && k == base.len() {
            assert(m[y].children == base.push(n));
            assert(c == n);
        } else {
            let ok = if y == p && k >= j { k + 1 } else { k };
            if y == q {
                assert(m[y].children == base.push(n));
                assert(c == base[k]);
                assert(ns[c as int].parent == Some(q));
                assert(!in_subtree(ns, n, c));
            }
            if y == p {
                assert(cs.remove(j)[k] == cs[ok]);
            }
            assert(ns[y].children[ok] == c);
            assert(rank[y] < rank[c as int]);
            if in_subtree(ns, n, y as NodeId) {
                assert(in_subtree(ns, n, ns[y].children[ok]));
            } else if in_subtree(ns, n, c) {
                assert(children_ok(ns, y));
                assert(ns[c as int].parent == Some(y as NodeId));
            }
        }
    }
}

/// Moving a subtree under a node outside it keeps the arena a forest.
pub proof fn lemma_wf_move(ns: Seq<NodeView>, root: NodeId, n: NodeId, q: NodeId)
    requires
        forest_wf(ns, root),
        n < ns.len(),
        q < ns.len(),
        ns[n as int].parent is Some,
        !in_subtree(ns, n, q),
    ensures
        forest_wf(moved(ns, n, q), root),
{
    let rank = choose|rank: Seq<nat>| ranked(ns, rank);
    lemma_subtree_facts(ns, root, n);
    lemma_move_facts(ns, root, n, q);
    lemma_move_parent_ok(ns, root, n, q);
    lemma_move_children_ok(ns, root, n, q);
    lemma_move_ranked(ns, root, n, q, rank);
    let m = moved(ns, n, q);
    let p = ns[n as int].parent->0;
    let a = detach(ns, p, n);
    let b = a.update(q as int, NodeView { children: a[q as int].children.push(n), ..a[q as int] });
    assert forall|i: int| 0 <= i < m.len() implies (#[trigger] m[i]).id == i by {
        assert(ns[i].id == i);
        assert(a[i].id == ns[i].id);
        assert(b[i].id == a[i].id);
        assert(m[i].id == b[i].id);
    }
    assert(m[root as int].parent is None) by {
        assert(root != n);
        assert(a[root as int].parent == ns[root as int].parent);
        assert(b[root as int].parent == a[root as int].parent);
    }
    let r2 = Seq::new(ns.len(), |x: int| if in_subtree(ns, n, x as NodeId) { rank[x] + rank[q as int] + 1 } else { rank[x] });
    lemma_loose_to_wf(m, root, r2);
}

} // verus!
