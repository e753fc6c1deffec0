//! Undo restores the tree after the structural edits: moving a node under a new
//! parent and deleting a subtree.
use vstd::prelude::*;
use crate::node::{NodeId, NodeView};
use crate::history::{Action, restored, set_children, undo_ns, undo_ok, without};
use crate::node::view_nodes;
use crate::tree::nodes_at;
use crate::walk::{after_delete, subtree};
use crate::tree::after_reparent;
use crate::walk::{children_ok, detach, forest_wf, in_subtree, moved, parent_ok};

verus! {

/// The action that records moving `n` under `q`, as the tree's reparenting
/// reports it.
pub open spec fn move_record(ns: Seq<NodeView>, n: NodeId, q: NodeId) -> Action {
    let p = ns[n as int].parent->0;
    Action::MoveNode {
        node_id: n,
        old_parent: p,
        old_child_index: ns[p as int].children.index_of(n) as usize,
        new_parent: q,
        old_position: ns[n as int].position,
    }
}

/// What a move changes, slot by slot.
proof fn lemma_reparent_slots(ns: Seq<NodeView>, root: NodeId, n: NodeId, q: NodeId)
    requires
        forest_wf(ns, root),
        n < ns.len(),
        q < ns.len(),
        ns[n as int].parent is Some,
        !in_subtree(ns, n, q),
    ensures
        ({
            let ns2 = after_reparent(ns, root, n, q);
            let p = ns[n as int].parent->0;
            let cs = ns[p as int].children;
            let idx = cs.index_of(n);
            &&& ns2.len() == ns.len()
            &&& p < ns.len() && p != n && q != n
            &&& 0 <= idx < cs.len() && cs[idx] == n
            &&& q == p ==> ns2[q as int] == (NodeView { children: cs.remove(idx).push(n), folded: false, ..ns[q as int] })
            &&& q != p ==> ns2[q as int] == (NodeView { children: ns[q as int].children.push(n), folded: false, ..ns[q as int] })
            &&& q != p ==> ns2[p as int] == (NodeView { children: cs.remove(idx), ..ns[p as int] })
            &&& ns2[n as int] == NodeView { parent: Some(q), position: ns2[n as int].position, ..ns[n as int] }
            &&& forall|i: int| 0 <= i < ns.len() && i != p && i != q && i != n ==> ns2[i] == ns[i]
        }),
{
    let p = ns[n as int].parent->0;
    crate::walk::lemma_subtree_facts(ns, root, n);
    assert(parent_ok(ns, n as int));
    let cs = ns[p as int].children;
    assert(cs.contains(n));
    assert(p != n) by {
        if p == n {
            assert(in_subtree(ns, n, p));
        }
    }
}

proof fn lemma_without_absent(cs: Seq<NodeId>, x: NodeId)
    requires
        !cs.contains(x),
    ensures
        without(cs, x) == cs,
    decreases cs.len(),
{
    reveal(Seq::filter);
    if cs.len() > 0 {
        assert(!cs.drop_last().contains(x)) by {
            if cs.drop_last().contains(x) {
                let k = choose|k: int| 0 <= k < cs.drop_last().len() && cs.drop_last()[k] == x;
                assert(cs[k] == x);
            }
        }
        lemma_without_absent(cs.drop_last(), x);
        assert(cs.last() != x) by {
            assert(cs[cs.len() - 1] == cs.last());
        }
        assert(cs.drop_last().push(cs.last()) =~= cs);
    }
}

proof fn lemma_without_push_self(cs: Seq<NodeId>, x: NodeId)
    ensures
        without(cs.push(x), x) == without(cs, x),
{
    reveal(Seq::filter);
    assert(cs.push(x).drop_last() =~= cs);
}

proof fn lemma_remove_drops(cs: Seq<NodeId>, i: int)
    requires
        0 <= i < cs.len(),
        cs.no_duplicates(),
    ensures
        !cs.remove(i).contains(cs[i]),
{
    if cs.remove(i).contains(cs[i]) {
        let k = choose|k: int| 0 <= k < cs.remove(i).len() && cs.remove(i)[k] == cs[i];
        if k < i {
            assert(cs[k] == cs[i]);
        } else {
            assert(cs[k + 1] == cs[i]);
        }
    }
}

/// The arena that reverting a move produces, step by step.
#[verifier::opaque]
pub open spec fn unmoved(ns2: Seq<NodeView>, n: NodeId, p: NodeId, q: NodeId, idx: usize, pos: Option<crate::node::Side>) -> Seq<NodeView> {
    let u1 = set_children(ns2, q, without(ns2[q as int].children, n));
    let u2 = set_children(u1, p, u1[p as int].children.insert(idx as int, n));
    u2.update(n as int, NodeView { parent: Some(p), position: pos, ..u2[n as int] })
}

proof fn lemma_undo_move_unfold(ns2: Seq<NodeView>, n: NodeId, p: NodeId, q: NodeId, idx: usize, pos: Option<crate::node::Side>)
    ensures
        undo_ns(ns2, Action::MoveNode { node_id: n, old_parent: p, old_child_index: idx, new_parent: q, old_position: pos })
            == unmoved(ns2, n, p, q, idx, pos),
{
    reveal(unmoved);
}

/// Reverting a move between two different parents.
#[verifier::rlimit(30)]
proof fn lemma_unmove_apart(ns: Seq<NodeView>, ns2: Seq<NodeView>, n: NodeId, p: NodeId, q: NodeId, idx: usize)
    requires
        ns2.len() == ns.len(),
        p < ns.len() && q < ns.len() && n < ns.len() && p != n && q != n && p != q,
        ns[n as int].parent == Some(p),
        idx < ns[p as int].children.len(),
        ns[p as int].children[idx as int] == n,
        ns[p as int].children.no_duplicates(),
        !ns[q as int].folded,
        !ns[q as int].children.contains(n),
        ns2[q as int] == (NodeView { children: ns[q as int].children.push(n), folded: false, ..ns[q as int] }),
        ns2[p as int] == (NodeView { children: ns[p as int].children.remove(idx as int), ..ns[p as int] }),
        ns2[n as int] == (NodeView { parent: Some(q), position: ns2[n as int].position, ..ns[n as int] }),
        forall|i: int| 0 <= i < ns.len() && i != p && i != q && i != n ==> ns2[i] == ns[i],
    ensures
        unmoved(ns2, n, p, q, idx, ns[n as int].position) == ns,
        idx <= set_children(ns2, q, without(ns2[q as int].children, n))[p as int].children.len(),
{
    reveal(unmoved);
    let cs = ns[p as int].children;
    let cq = ns[q as int].children;
    lemma_without_push_self(cq, n);
    lemma_without_absent(cq, n);
    let u1 = set_children(ns2, q, cq);
    assert(u1[q as int] == ns[q as int]);
    assert(cs.remove(idx as int).insert(idx as int, n) =~= cs);
    let u2 = set_children(u1, p, cs);
    assert(u2[p as int] == ns[p as int]);
    let u3 = u2.update(n as int, NodeView { parent: Some(p), position: ns[n as int].position, ..u2[n as int] });
    assert(u3[n as int] == ns[n as int]);
}

/// Reverting a move to the end of the same parent's children.
#[verifier::rlimit(30)]
proof fn lemma_unmove_same(ns: Seq<NodeView>, ns2: Seq<NodeView>, n: NodeId, p: NodeId, idx: usize)
    requires
        ns2.len() == ns.len(),
        p < ns.len() && n < ns.len() && p != n,
        ns[n as int].parent == Some(p),
        idx < ns[p as int].children.len(),
        ns[p as int].children[idx as int] == n,
        ns[p as int].children.no_duplicates(),
        !ns[p as int].folded,
        ns2[p as int] == (NodeView { children: ns[p as int].children.remove(idx as int).push(n), folded: false, ..ns[p as int] }),
        ns2[n as int] == (NodeView { parent: Some(p), position: ns2[n as int].position, ..ns[n as int] }),
        forall|i: int| 0 <= i < ns.len() && i != p && i != n ==> ns2[i] == ns[i],
    ensures
        unmoved(ns2, n, p, p, idx, ns[n as int].position) == ns,
        idx <= set_children(ns2, p, without(ns2[p as int].children, n))[p as int].children.len(),
{
    let cs = ns[p as int].children;
    let base = cs.remove(idx as int);
    let pos = ns[n as int].position;
    let u = unmoved(ns2, n, p, p, idx, pos);
    assert(without(ns2[p as int].children, n) == base) by {
        lemma_remove_drops(cs, idx as int);
        lemma_without_push_self(base, n);
        lemma_without_absent(base, n);
    }
    assert(base.insert(idx as int, n) =~= cs);
    assert(u.len() == ns.len() && u[p as int] == ns[p as int] && u[n as int] == ns[n as int]
        && forall|i: int| 0 <= i < ns.len() && i != p && i != n ==> u[i] == ns2[i]) by {
        reveal(unmoved);
    }
    assert(u =~= ns);
    assert(idx <= set_children(ns2, p, without(ns2[p as int].children, n))[p as int].children.len());
}

/// Undoing a move of `n` under `q` gives back the arena, when `q` was unfolded
/// (moving unfolds it and undoing does not fold it back).
pub proof fn lemma_undo_reparent(ns: Seq<NodeView>, root: NodeId, n: NodeId, q: NodeId)
    requires
        forest_wf(ns, root),
        n < ns.len(),
        q < ns.len(),
        ns[n as int].parent is Some,
        !in_subtree(ns, n, q),
        !ns[q as int].folded,
        ns[ns[n as int].parent->0 as int].children.len() <= usize::MAX,
    ensures
        undo_ok(after_reparent(ns, root, n, q), move_record(ns, n, q)),
        undo_ns(after_reparent(ns, root, n, q), move_record(ns, n, q)) == ns,
{
    let p = ns[n as int].parent->0;
    let cs = ns[p as int].children;
    lemma_reparent_slots(ns, root, n, q);
    assert(children_ok(ns, p as int));
    assert(children_ok(ns, q as int));
    assert(q != p ==> !ns[q as int].children.contains(n)) by {
        let cq = ns[q as int].children;
        if q != p && cq.contains(n) {
            let k = choose|k: int| 0 <= k < cq.len() && cq[k] == n;
            assert(ns[cq[k] as int].parent == Some(q));
        }
    }
    let idx = cs.index_of(n) as usize;
    let ns2 = after_reparent(ns, root, n, q);
    assert(ns[n as int].parent == Some(p));
    if q == p {
        lemma_unmove_same(ns, ns2, n, p, idx);
    } else {
        lemma_unmove_apart(ns, ns2, n, p, q, idx);
    }
    lemma_undo_move_unfold(ns2, n, p, q, idx, ns[n as int].position);
    assert(undo_ok(ns2, move_record(ns, n, q)));
}


/// Writing back copies of the nodes at `ids` puts exactly those slots back.
proof fn lemma_restored_copies(base: Seq<NodeView>, ns: Seq<NodeView>, ids: Seq<NodeId>)
    requires
        base.len() == ns.len(),
        forall|i: int| 0 <= i < ns.len() ==> (#[trigger] ns[i]).id == i,
        forall|k: int| 0 <= k < ids.len() ==> (#[trigger] ids[k]) < ns.len(),
    ensures
        restored(base, nodes_at(ns, ids)).len() == ns.len(),
        forall|i: NodeId| i < ns.len() ==> #[trigger] restored(base, nodes_at(ns, ids))[i as int]
            == if ids.contains(i) { ns[i as int] } else { base[i as int] },
    decreases ids.len(),
{
    if ids.len() > 0 {
        let prev = ids.drop_last();
        lemma_restored_copies(base, ns, prev);
        assert(nodes_at(ns, ids).drop_last() =~= nodes_at(ns, prev));
        let x = ids.last();
        assert(nodes_at(ns, ids).last() == ns[x as int]);
        assert forall|i: NodeId| i < ns.len() implies #[trigger] restored(base, nodes_at(ns, ids))[i as int]
            == if ids.contains(i) { ns[i as int] } else { base[i as int] } by {
            if i == x {
                assert(ids[ids.len() - 1] == x);
            } else {
                if ids.contains(i) {
                    let k = choose|k: int| 0 <= k < ids.len() && ids[k] == i;
                    assert(k != ids.len() - 1);
                    assert(prev[k] == i);
                }
                if prev.contains(i) {
                    let k = choose|k: int| 0 <= k < prev.len() && prev[k] == i;
                    assert(ids[k] == i);
                }
            }
        }
    }
}

/// The action that records deleting the subtree under `n`, as the tree's
/// deletion reports it.
pub open spec fn deletion_recorded(ns: Seq<NodeView>, n: NodeId, a: Action) -> bool {
    match a {
        Action::DeleteSubtree { subtree: saved, parent_id, .. } => {
            &&& view_nodes(saved@) == nodes_at(ns, subtree(ns, n))
            &&& ns[n as int].parent == Some(parent_id)
        },
        _ => false,
    }
}

/// Undoing the deletion of the subtree under `n` brings every deleted node back
/// as it was; the only difference left is that `n` comes back as the last child
/// of its parent.
#[verifier::rlimit(40)]
pub proof fn lemma_undo_delete(ns: Seq<NodeView>, root: NodeId, n: NodeId, a: Action)
    requires
        forest_wf(ns, root),
        n < ns.len(),
        n != root,
        ns.len() <= usize::MAX,
        deletion_recorded(ns, n, a),
    ensures
        undo_ok(after_delete(ns, n), a),
        ({
            let p = ns[n as int].parent->0;
            let cs = ns[p as int].children;
            undo_ns(after_delete(ns, n), a) == set_children(ns, p, cs.remove(cs.index_of(n)).push(n))
        }),
{
    crate::walk::lemma_subtree_facts(ns, root, n);
    let p = ns[n as int].parent->0;
    let cs = ns[p as int].children;
    let ids = subtree(ns, n);
    assert(parent_ok(ns, n as int));
    assert(cs.contains(n));
    let del = after_delete(ns, n);
    let d = detach(ns, p, n);
    assert(del.len() == ns.len());
    assert forall|k: int| 0 <= k < ids.len() implies (#[trigger] ids[k]) < ns.len() by {
        assert(ids.contains(ids[k]));
        assert(in_subtree(ns, n, ids[k]));
    }
    lemma_restored_copies(del, ns, ids);
    let r = restored(del, nodes_at(ns, ids));
    match a {
        Action::DeleteSubtree { subtree: saved, parent_id, .. } => {
            assert(view_nodes(saved@) == nodes_at(ns, ids));
            assert(saved@.len() == ids.len());
            assert(view_nodes(saved@)[0] == saved@[0]@);
            assert(nodes_at(ns, ids)[0] == ns[ids[0] as int]);
            assert(saved@[0]@ == ns[n as int]);
            assert(saved@[0].id == n);
            assert(!ids.contains(p)) by {
                assert(!in_subtree(ns, n, p));
            }
            assert(r[p as int] == d[p as int]);
            let want = set_children(ns, p, cs.remove(cs.index_of(n)).push(n));
            let got = set_children(r, p, r[p as int].children.push(n));
            assert(undo_ns(del, a) == got);
            assert forall|j: int| 0 <= j < ns.len() implies got[j] == want[j] by {
                let i = j as NodeId;
                assert(i as int == j);
                if i != p {
                    if ids.contains(i) {
                        assert(r[j] == ns[j]);
                    } else {
                        assert(!in_subtree(ns, n, i));
                        assert(r[j] == del[j]);
                        assert(del[j] == d[j]);
                    }
                }
            }
            assert(got =~= want);
        },
        _ => {},
    }
}

} // verus!
