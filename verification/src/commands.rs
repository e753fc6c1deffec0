//! The editing commands behind the keyboard shortcuts, the context menu and
//! drag-and-drop: each changes the tree, records the change in the history and
//! moves the selection, and reports whether the layout must be refreshed and
//! which node should be scrolled into view.
use vstd::prelude::*;
use crate::editing::EditingState;
use crate::history::{Action, History};
use crate::node::{NodeId, NodeState, NodeView};
use crate::selection::Selection;
use crate::search::{SearchState, rescanned_index, search_matches};
use crate::text::{replace_str, replaced, trim, trimmed};
use crate::tree::{MindmapTree, added_child, added_sibling, after_reparent, freemind_id_text, sibling_move, swapped};
use crate::walk::{after_delete, ancestors, children_ok, forest_wf, in_subtree, subtree, visible_slice};
use crate::tree::{ancestor_in, after_paste, nodes_at, nth_id, paste_ready, shown_neighbour};
use crate::clipboard::{Clipboard, SubtreeBlueprint};
use crate::history::{PasteEntry, emptied, not_id, undo_ns, undo_paste, set_children, without};
use crate::node::{clone_opt_string, opt_str_view, view_nodes};

verus! {

/// What the canvas must do after a command.
#[derive(Debug, Clone, Copy, PartialEq, Eq, Structural)]
pub struct InputResult {
    pub needs_relayout: bool,
    pub ensure_visible: Option<NodeId>,
}

pub open spec fn no_effect() -> InputResult {
    InputResult { needs_relayout: false, ensure_visible: None }
}

/// The arena with node `id` in the editing state.
pub open spec fn marked_editing(ns: Seq<NodeView>, id: NodeId) -> Seq<NodeView> {
    ns.update(id as int, NodeView { state: NodeState::Editing, ..ns[id as int] })
}

/// Starts editing `node` with its current text.
pub fn start_edit(tree: &mut MindmapTree, editing: &mut EditingState, node: NodeId)
    requires
        node < old(tree).nodes.len(),
    ensures
        final(tree).ns() == marked_editing(old(tree).ns(), node),
        final(tree).cache() == old(tree).cache(),
        final(tree).same_settings(old(tree)),
        final(editing).active_node == Some(node),
        final(editing).text_buffer@ == old(tree).ns()[node as int].text,
        final(editing).original_text@ == old(tree).ns()[node as int].text,
        final(editing).just_started,
{
    let ghost ns = tree.ns();
    editing.start(node, tree.nodes[node].text.clone());
    tree.nodes[node].state = NodeState::Editing;
    assert(tree.ns() =~= marked_editing(ns, node));
}

/// Adds an empty child under `parent`, records it, selects it and starts editing it.
pub fn add_child_and_edit(
    tree: &mut MindmapTree,
    history: &mut History,
    selection: &mut Selection,
    editing: &mut EditingState,
    parent: NodeId,
) -> (new_id: NodeId)
    requires
        old(tree).wf(),
        parent < old(tree).nodes.len(),
        old(tree).nodes.len() < usize::MAX,
    ensures
        new_id == old(tree).nodes.len(),
        final(tree).ns() == marked_editing(
            added_child(old(tree).ns(), old(tree).root, parent, freemind_id_text(old(tree).next_id()), Seq::empty()),
            new_id,
        ),
        final(tree).next_id() == old(tree).next_id().wrapping_add(1),
        final(tree).root == old(tree).root,
        final(tree).cache() is None,
        final(history).undo_actions() == old(history).undo_actions().push(Action::AddNode { node_id: new_id, parent_id: parent }),
        final(history).redo_actions().len() == 0,
        final(selection).selected@ == Set::<NodeId>::empty().insert(new_id),
        final(editing).active_node == Some(new_id),
        final(editing).text_buffer@.len() == 0,
{
    let new_id = tree.add_child(parent, "");
    proof {
        reveal_strlit("");
        assert(""@ =~= Seq::<char>::empty());
    }
    assert(tree.ns().len() == new_id + 1);
    history.push(Action::AddNode { node_id: new_id, parent_id: parent });
    selection.select_single(new_id);
    let ghost ns = tree.ns();
    editing.start(new_id, String::new());
    tree.nodes[new_id].state = NodeState::Editing;
    assert(tree.ns() =~= marked_editing(ns, new_id));
    new_id
}

/// Adds an empty sibling right after (or, with `before`, right before) `node`,
/// records it, selects it and starts editing it. The root gets a child instead.
pub fn add_sibling_and_edit(
    tree: &mut MindmapTree,
    history: &mut History,
    selection: &mut Selection,
    editing: &mut EditingState,
    node: NodeId,
    before: bool,
) -> (new_id: NodeId)
    requires
        old(tree).wf(),
        node < old(tree).nodes.len(),
        old(tree).nodes.len() < usize::MAX,
    ensures
        new_id == old(tree).nodes.len(),
        final(tree).ns() == marked_editing(
            match old(tree).ns()[node as int].parent {
                Some(p) => added_sibling(old(tree).ns(), node, p, freemind_id_text(old(tree).next_id()), Seq::empty(), !before),
                None => added_child(old(tree).ns(), old(tree).root, node, freemind_id_text(old(tree).next_id()), Seq::empty()),
            },
            new_id,
        ),
        final(tree).root == old(tree).root,
        final(tree).cache() is None,
        final(history).undo_actions() == old(history).undo_actions().push(Action::AddNode {
            node_id: new_id,
            parent_id: match old(tree).ns()[node as int].parent {
                Some(p) => p,
                None => node,
            },
        }),
        final(history).redo_actions().len() == 0,
        final(selection).selected@ == Set::<NodeId>::empty().insert(new_id),
        final(editing).active_node == Some(new_id),
        final(editing).text_buffer@.len() == 0,
{
    proof {
        assert(crate::walk::parent_ok(tree.ns(), node as int));
    }
    let new_id = if before { tree.add_sibling_before(node, "") } else { tree.add_sibling(node, "") };
    proof {
        reveal_strlit("");
        assert(""@ =~= Seq::<char>::empty());
    }
    assert(tree.ns().len() == new_id + 1);
    let parent_id = match tree.nodes[new_id].parent {
        Some(p) => p,
        None => tree.root,
    };
    history.push(Action::AddNode { node_id: new_id, parent_id });
    selection.select_single(new_id);
    let ghost ns = tree.ns();
    editing.start(new_id, String::new());
    tree.nodes[new_id].state = NodeState::Editing;
    assert(tree.ns() =~= marked_editing(ns, new_id));
    new_id
}


/// The action that records deleting the subtree under `n` from `ns`.
pub open spec fn records_deletion(a: Action, ns: Seq<NodeView>, root: NodeId, n: NodeId) -> bool {
    match a {
        Action::DeleteSubtree { subtree: saved, parent_id, child_index } => {
            &&& view_nodes(saved@) == nodes_at(ns, subtree(ns, n))
            &&& parent_id == match ns[n as int].parent { Some(p) => p, None => root }
            &&& child_index == match ns[n as int].parent {
                Some(p) => ns[p as int].children.index_of(n) as usize,
                None => 0usize,
            }
        },
        _ => false,
    }
}

/// Deletes the subtree under `node` (not the root), records it and selects the
/// parent.
pub fn delete_node(tree: &mut MindmapTree, history: &mut History, selection: &mut Selection, node: NodeId) -> (res: InputResult)
    requires
        old(tree).wf(),
        node < old(tree).nodes.len(),
    ensures
        final(tree).wf(),
        final(tree).same_settings(old(tree)),
        node == old(tree).root ==> {
            &&& res == no_effect()
            &&& *final(tree) == *old(tree)
            &&& final(history).undo_actions() == old(history).undo_actions()
            &&& final(history).redo_actions() == old(history).redo_actions()
            &&& final(selection).selected@ == old(selection).selected@
        },
        node != old(tree).root ==> {
            let p = old(tree).ns()[node as int].parent;
            &&& final(tree).ns() == after_delete(old(tree).ns(), node)
            &&& final(tree).cache() is None
            &&& final(history).undo_actions().len() == old(history).undo_actions().len() + 1
            &&& final(history).undo_actions().drop_last() == old(history).undo_actions()
            &&& records_deletion(final(history).undo_actions().last(), old(tree).ns(), old(tree).root, node)
            &&& final(history).redo_actions().len() == 0
            &&& final(selection).selected@ == match p { Some(q) => Set::<NodeId>::empty().insert(q), None => Set::<NodeId>::empty() }
            &&& res == (InputResult { needs_relayout: true, ensure_visible: p })
        },
{
    if node == tree.root {
        return InputResult { needs_relayout: false, ensure_visible: None };
    }
    let ghost ns = tree.ns();
    let parent = tree.nodes[node].parent;
    let child_index = match tree.child_index(node) {
        Some(i) => i,
        None => 0,
    };
    let parent_id = match parent {
        Some(p) => p,
        None => tree.root,
    };
    match tree.delete_subtree(node) {
        Some(saved) => {
            let action = Action::DeleteSubtree { subtree: saved, parent_id, child_index };
            assert(records_deletion(action, ns, tree.root, node));
            history.push(action);
        },
        None => {},
    }
    match parent {
        Some(p) => selection.select_single(p),
        None => selection.clear(),
    }
    InputResult { needs_relayout: true, ensure_visible: parent }
}

/// Folds or unfolds `node` and records it.
pub fn toggle_fold_node(tree: &mut MindmapTree, history: &mut History, node: NodeId) -> (res: InputResult)
    requires
        old(tree).wf(),
        node < old(tree).nodes.len(),
    ensures
        final(tree).ns() == if old(tree).ns()[node as int].children.len() > 0 {
            old(tree).ns().update(node as int, NodeView { folded: !old(tree).ns()[node as int].folded, ..old(tree).ns()[node as int] })
        } else {
            old(tree).ns()
        },
        final(tree).wf(),
        final(tree).same_settings(old(tree)),
        final(history).undo_actions() == old(history).undo_actions().push(Action::ToggleFold { node_id: node }),
        final(history).redo_actions().len() == 0,
        res == (InputResult { needs_relayout: true, ensure_visible: None }),
{
    tree.toggle_fold(node);
    history.push(Action::ToggleFold { node_id: node });
    InputResult { needs_relayout: true, ensure_visible: None }
}

/// Moves `node` one place up (or down) among its siblings and records it.
pub fn move_node_sibling(tree: &mut MindmapTree, history: &mut History, node: NodeId, up: bool) -> (res: InputResult)
    requires
        old(tree).wf(),
        node < old(tree).nodes.len(),
    ensures
        final(tree).wf(),
        final(tree).same_settings(old(tree)),
        final(tree).cache() == old(tree).cache(),
        match sibling_move(old(tree).ns(), node, if up { -1 } else { 1 }) {
            Some((p, i, j)) => {
                &&& final(tree).ns() == old(tree).ns().update(
                    p as int,
                    NodeView { children: swapped(old(tree).ns()[p as int].children, i as int, j as int), ..old(tree).ns()[p as int] },
                )
                &&& final(history).undo_actions() == old(history).undo_actions().push(
                    Action::MoveSibling { node_id: node, parent_id: p, old_index: i, new_index: j },
                )
                &&& final(history).redo_actions().len() == 0
                &&& res == (InputResult { needs_relayout: true, ensure_visible: Some(node) })
            },
            None => {
                &&& final(tree).ns() == old(tree).ns()
                &&& final(history).undo_actions() == old(history).undo_actions()
                &&& final(history).redo_actions() == old(history).redo_actions()
                &&& res == no_effect()
            },
        },
{
    let moved = if up { tree.move_sibling_up(node) } else { tree.move_sibling_down(node) };
    match moved {
        Some((parent_id, old_index, new_index)) => {
            history.push(Action::MoveSibling { node_id: node, parent_id, old_index, new_index });
            InputResult { needs_relayout: true, ensure_visible: Some(node) }
        },
        None => InputResult { needs_relayout: false, ensure_visible: None },
    }
}

/// Folding or unfolding a node twice gives back the arena.
pub proof fn lemma_toggle_fold_twice(ns: Seq<NodeView>, n: NodeId)
    requires
        n < ns.len(),
    ensures
        ({
            let ns1 = if ns[n as int].children.len() > 0 {
                ns.update(n as int, NodeView { folded: !ns[n as int].folded, ..ns[n as int] })
            } else {
                ns
            };
            let ns2 = if ns1[n as int].children.len() > 0 {
                ns1.update(n as int, NodeView { folded: !ns1[n as int].folded, ..ns1[n as int] })
            } else {
                ns1
            };
            ns2 == ns
        }),
{
    let ns1 = if ns[n as int].children.len() > 0 {
        ns.update(n as int, NodeView { folded: !ns[n as int].folded, ..ns[n as int] })
    } else {
        ns
    };
    if ns[n as int].children.len() > 0 {
        assert(ns1.update(n as int, NodeView { folded: !ns1[n as int].folded, ..ns1[n as int] }) =~= ns);
    }
}

/// The arena after `sibling_move` says how to move `n` by `delta`.
pub open spec fn moved_by(ns: Seq<NodeView>, n: NodeId, delta: int) -> Seq<NodeView> {
    match sibling_move(ns, n, delta) {
        Some((p, i, j)) => ns.update(
            p as int,
            NodeView { children: swapped(ns[p as int].children, i as int, j as int), ..ns[p as int] },
        ),
        None => ns,
    }
}

/// Moving a node one place up among its siblings and then one place down gives
/// back the arena (and the other way round).
pub proof fn lemma_move_up_then_down(ns: Seq<NodeView>, root: NodeId, n: NodeId, delta: int)
    requires
        forest_wf(ns, root),
        n < ns.len(),
        ns.len() <= usize::MAX,
        delta == 1 || delta == -1,
        sibling_move(ns, n, delta) is Some,
    ensures
        moved_by(moved_by(ns, n, delta), n, -delta) == ns,
{
    let p = ns[n as int].parent->0;
    assert(ns[n as int].parent is Some);
    assert(crate::walk::parent_ok(ns, n as int));
    assert(children_ok(ns, p as int));
    let cs = ns[p as int].children;
    assert(cs.contains(n));
    let k0 = cs.index_of(n);
    assert(0 <= k0 < cs.len() && cs[k0] == n);
    assert(0 <= k0 + delta < cs.len());
    crate::walk::lemma_distinct_below(cs, ns.len());
    let i = k0 as usize;
    let j = (k0 + delta) as usize;
    assert(sibling_move(ns, n, delta) == Some((p, i, j)));
    let cs1 = swapped(cs, i as int, j as int);
    let ns1 = moved_by(ns, n, delta);
    assert(ns1[p as int].children == cs1);
    assert(ns1[n as int].parent == Some(p)) by {
        if n == p {
            assert(cs.contains(p));
            assert(ns[p as int].parent == Some(p));
        }
    }
    assert(cs1[j as int] == n);
    assert(cs1.index_of(n) == j) by {
        let k = cs1.index_of(n);
        assert(cs1.contains(n));
        assert(cs1[k] == n);
        if k != j {
            if k == i {
                assert(cs[j as int] == n);
            } else {
                assert(cs[k] == n);
            }
        }
    }
    assert(0 <= (j as int) + (-delta) < cs1.len());
    assert(((j as int) + (-delta)) as usize == i);
    assert(sibling_move(ns1, n, -delta) == Some((p, j, i)));
    assert(swapped(cs1, j as int, i as int) =~= cs);
    assert(moved_by(ns1, n, -delta) =~= ns);
}

/// Drops the dragged `node` on `target`: when the target is not already its
/// parent, not the node itself and not below it, `node` becomes the target's last child,
/// and the move is recorded.
pub fn drop_on(tree: &mut MindmapTree, history: &mut History, node: NodeId, target: NodeId) -> (res: InputResult)
    requires
        old(tree).wf(),
        node < old(tree).nodes.len(),
        target < old(tree).nodes.len(),
    ensures
        final(tree).wf(),
        final(tree).same_settings(old(tree)),
        ({
            let ns = old(tree).ns();
            let moves = ns[node as int].parent is Some && ns[node as int].parent != Some(target)
                && target != node && !ancestors(ns, target).contains(node);
            &&& moves ==> {
                let p = ns[node as int].parent->0;
                &&& final(tree).ns() == after_reparent(ns, old(tree).root, node, target)
                &&& final(history).undo_actions() == old(history).undo_actions().push(Action::MoveNode {
                    node_id: node,
                    old_parent: p,
                    old_child_index: ns[p as int].children.index_of(node) as usize,
                    new_parent: target,
                    old_position: ns[node as int].position,
                })
                &&& final(history).redo_actions().len() == 0
                &&& res == (InputResult { needs_relayout: true, ensure_visible: Some(node) })
            }
            &&& !moves ==> {
                &&& *final(tree) == *old(tree)
                &&& final(history).undo_actions() == old(history).undo_actions()
                &&& final(history).redo_actions() == old(history).redo_actions()
                &&& res == no_effect()
            }
        }),
{
    let ghost ns = tree.ns();
    if tree.nodes[node].parent == Some(target) || tree.nodes[node].parent.is_none() {
        return InputResult { needs_relayout: false, ensure_visible: None };
    }
    if node == target || tree.is_ancestor(node, target) {
        return InputResult { needs_relayout: false, ensure_visible: None };
    }
    proof {
        crate::tree::lemma_in_subtree_ancestors(ns, tree.root, node, target);
    }
    match tree.reparent_node(node, target) {
        Some((old_parent, old_child_index, old_position)) => {
            history.push(Action::MoveNode { node_id: node, old_parent, old_child_index, new_parent: target, old_position });
            InputResult { needs_relayout: true, ensure_visible: Some(node) }
        },
        None => InputResult { needs_relayout: false, ensure_visible: None },
    }
}


/// `ids` lists, once each, the selected nodes that have no selected ancestor.
pub open spec fn top_selected(ns: Seq<NodeView>, sel: Set<NodeId>, ids: Seq<NodeId>) -> bool {
    &&& ids.no_duplicates()
    &&& forall|x: NodeId| ids.contains(x) <==> (sel.contains(x) && !ancestor_in(ns, x, sel))
}

/// The clipboard holds copies of the subtrees under `ids`, in order.
pub open spec fn holds_copies(c: Clipboard, ns: Seq<NodeView>, ids: Seq<NodeId>) -> bool {
    &&& c.blueprints@.len() == ids.len()
    &&& forall|k: int| 0 <= k < ids.len() ==> (#[trigger] c.blueprints@[k]).ns() == nodes_at(ns, subtree(ns, ids[k]))
}

pub open spec fn selection_in_tree(sel: Set<NodeId>, t: &MindmapTree) -> bool {
    forall|x: NodeId| sel.contains(x) ==> x < t.nodes.len()
}

fn copy_subtrees(tree: &MindmapTree, ids: &Vec<NodeId>, clipboard: &mut Clipboard)
    requires
        tree.wf(),
        forall|k: int| 0 <= k < ids@.len() ==> (#[trigger] ids@[k]) < tree.nodes.len(),
    ensures
        holds_copies(*final(clipboard), tree.ns(), ids@),
{
    clipboard.clear();
    let mut i: usize = 0;
    while i < ids.len()
        invariant
            tree.wf(),
            forall|k: int| 0 <= k < ids@.len() ==> (#[trigger] ids@[k]) < tree.nodes.len(),
            i <= ids.len(),
            holds_copies(*clipboard, tree.ns(), ids@.take(i as int)),
        decreases ids.len() - i,
    {
        let bp = tree.clone_subtree(ids[i]);
        clipboard.blueprints.push(bp);
        i = i + 1;
        proof {
            let t = ids@.take(i as int);
            assert forall|k: int| 0 <= k < t.len() implies (#[trigger] clipboard.blueprints@[k]).ns() == nodes_at(tree.ns(), subtree(tree.ns(), t[k])) by {
                assert(t[k] == ids@[k]);
                if k < i - 1 {
                    assert(ids@.take(i - 1)[k] == ids@[k]);
                }
            }
        }
    }
    assert(ids@.take(i as int) =~= ids@);
}

/// Copies the subtrees of the selected nodes (those without a selected ancestor)
/// to the clipboard; with nothing selected the clipboard is left as it is.
pub fn copy_selection(tree: &MindmapTree, selection: &Selection, clipboard: &mut Clipboard)
    requires
        tree.wf(),
        selection_in_tree(selection.selected@, tree),
    ensures
        selection.selected@.is_empty() ==> final(clipboard).blueprints@ == old(clipboard).blueprints@,
        !selection.selected@.is_empty() ==> exists|ids: Seq<NodeId>|
            top_selected(tree.ns(), selection.selected@, ids) && #[trigger] holds_copies(*final(clipboard), tree.ns(), ids),
{
    if selection.selected.is_empty() {
        return;
    }
    let ids = tree.deduplicate_selection(&selection.selected);
    assert forall|k: int| 0 <= k < ids@.len() implies (#[trigger] ids@[k]) < tree.nodes.len() by {
        assert(ids@.contains(ids@[k]));
    }
    copy_subtrees(tree, &ids, clipboard);
    assert(top_selected(tree.ns(), selection.selected@, ids@));
}

/// The arena after deleting the subtrees under `ids`, one after the other.
pub open spec fn deleted_all(ns: Seq<NodeView>, ids: Seq<NodeId>) -> Seq<NodeView>
    decreases ids.len(),
{
    if ids.len() == 0 {
        ns
    } else {
        after_delete(deleted_all(ns, ids.drop_last()), ids.last())
    }
}

/// A batch that records deleting the subtrees under `ids`, one after the other.
pub open spec fn records_deletions(v: Seq<Action>, ns: Seq<NodeView>, root: NodeId, ids: Seq<NodeId>) -> bool {
    &&& v.len() == ids.len()
    &&& forall|k: int| 0 <= k < ids.len() ==> records_deletion(#[trigger] v[k], deleted_all(ns, ids.take(k)), root, ids[k])
}

/// Nothing changed by a cut.
pub open spec fn cut_nothing(
    t0: MindmapTree, t1: MindmapTree, h0: History, h1: History, s0: Selection, s1: Selection, c0: Clipboard, c1: Clipboard, res: InputResult,
) -> bool {
    &&& t1 == t0
    &&& h1.undo_actions() == h0.undo_actions()
    &&& h1.redo_actions() == h0.redo_actions()
    &&& s1.selected@ == s0.selected@
    &&& c1.blueprints@ == c0.blueprints@
    &&& res == no_effect()
}

/// What cutting the subtrees under `ids` did.
pub open spec fn cut_done(
    ids: Seq<NodeId>, t0: MindmapTree, t1: MindmapTree, h0: History, h1: History, s1: Selection, c1: Clipboard, res: InputResult,
) -> bool {
    let ns = t0.ns();
    let p = ns[ids[0] as int].parent;
    &&& holds_copies(c1, ns, ids)
    &&& t1.ns() == deleted_all(ns, ids)
    &&& h1.undo_actions().len() == h0.undo_actions().len() + 1
    &&& h1.undo_actions().drop_last() == h0.undo_actions()
    &&& h1.undo_actions().last() matches Action::Batch(v) && records_deletions(v@, ns, t0.root, ids)
    &&& h1.redo_actions().len() == 0
    &&& s1.selected@ == match p { Some(q) => Set::<NodeId>::empty().insert(q), None => Set::<NodeId>::empty() }
    &&& res == (InputResult { needs_relayout: true, ensure_visible: p })
}

/// Cuts the selected subtrees (those without a selected ancestor): copies them to
/// the clipboard, deletes them as one undoable step, and selects the parent of the
/// first. Nothing happens when nothing is selected or the root is among them.
#[verifier::rlimit(40)]
pub fn cut_selection(tree: &mut MindmapTree, history: &mut History, selection: &mut Selection, clipboard: &mut Clipboard) -> (res: InputResult)
    requires
        old(tree).wf(),
        selection_in_tree(old(selection).selected@, old(tree)),
    ensures
        final(tree).wf(),
        final(tree).same_settings(old(tree)),
        old(selection).selected@.is_empty() ==> cut_nothing(
            *old(tree), *final(tree), *old(history), *final(history), *old(selection), *final(selection), *old(clipboard), *final(clipboard), res,
        ),
        !old(selection).selected@.is_empty() ==> exists|ids: Seq<NodeId>| #[trigger] top_selected(old(tree).ns(), old(selection).selected@, ids) && {
            &&& (ids.len() == 0 || ids.contains(old(tree).root)) ==> cut_nothing(
                *old(tree), *final(tree), *old(history), *final(history), *old(selection), *final(selection), *old(clipboard), *final(clipboard), res,
            )
            &&& (ids.len() > 0 && !ids.contains(old(tree).root)) ==> cut_done(
                ids, *old(tree), *final(tree), *old(history), *final(history), *final(selection), *final(clipboard), res,
            )
        },
{
    let ghost ns = tree.ns();
    let root = tree.root;
    if selection.selected.is_empty() {
        return InputResult { needs_relayout: false, ensure_visible: None };
    }
    let ids = tree.deduplicate_selection(&selection.selected);
    let mut has_root = false;
    let mut j: usize = 0;
    while j < ids.len()
        invariant
            j <= ids.len(),
            has_root == ids@.take(j as int).contains(root),
        decreases ids.len() - j,
    {
        proof {
            let a = ids@.take(j as int);
            let b = ids@.take(j + 1);
            assert(b =~= a.push(ids@[j as int]));
            if a.contains(root) {
                let k = choose|k: int| 0 <= k < a.len() && a[k] == root;
                assert(b[k] == root);
            }
            if b.contains(root) && ids@[j as int] != root {
                let k = choose|k: int| 0 <= k < b.len() && b[k] == root;
                assert(k < j);
                assert(a[k] == root);
            }
            if ids@[j as int] == root {
                assert(b[j as int] == root);
            }
        }
        if ids[j] == root {
            has_root = true;
        }
        j = j + 1;
    }
    assert(ids@.take(j as int) =~= ids@);
    if has_root || ids.len() == 0 {
        assert(top_selected(ns, old(selection).selected@, ids@));
        return InputResult { needs_relayout: false, ensure_visible: None };
    }
    assert forall|k: int| 0 <= k < ids@.len() implies (#[trigger] ids@[k]) < tree.nodes.len() by {
        assert(ids@.contains(ids@[k]));
    }
    copy_subtrees(tree, &ids, clipboard);
    let select_after = tree.nodes[ids[0]].parent;
    let mut batch: Vec<Action> = Vec::new();
    let mut i: usize = 0;
    while i < ids.len()
        invariant
            tree.wf(),
            tree.root == root,
            tree.same_settings(old(tree)),
            root == old(tree).root,
            forall|k: int| 0 <= k < ids@.len() ==> (#[trigger] ids@[k]) < tree.nodes.len(),
            !ids@.contains(root),
            i <= ids.len(),
            tree.ns() == deleted_all(ns, ids@.take(i as int)),
            records_deletions(batch@, ns, root, ids@.take(i as int)),
        decreases ids.len() - i,
    {
        let id = ids[i];
        assert(ids@.contains(id));
        let ghost cur = tree.ns();
        let ghost before = batch@;
        let parent = tree.nodes[id].parent;
        let child_index = match tree.child_index(id) {
            Some(c) => c,
            None => 0,
        };
        let parent_id = match parent {
            Some(p) => p,
            None => root,
        };
        match tree.delete_subtree(id) {
            Some(saved) => {
                let action = Action::DeleteSubtree { subtree: saved, parent_id, child_index };
                assert(records_deletion(action, cur, root, id));
                batch.push(action);
            },
            None => {},
        }
        proof {
            let t = ids@.take(i + 1);
            assert(t.drop_last() =~= ids@.take(i as int));
            assert(t.last() == id);
            assert forall|k: int| 0 <= k < t.len() implies records_deletion(#[trigger] batch@[k], deleted_all(ns, t.take(k)), root, t[k]) by {
                assert(t.take(k) =~= ids@.take(i as int).take(k) || k == i);
                if k < i {
                    assert(batch@[k] == before[k]);
                    assert(t.take(k) =~= ids@.take(i as int).take(k));
                    assert(t[k] == ids@.take(i as int)[k]);
                } else {
                    assert(t.take(k) =~= ids@.take(i as int));
                }
            }
        }
        i = i + 1;
    }
    assert(ids@.take(i as int) =~= ids@);
    history.push(Action::Batch(batch));
    match select_after {
        Some(p) => selection.select_single(p),
        None => selection.clear(),
    }
    assert(top_selected(ns, old(selection).selected@, ids@));
    let res = InputResult { needs_relayout: true, ensure_visible: select_after };
    assert(holds_copies(*clipboard, ns, ids@));
    assert(tree.ns() == deleted_all(ns, ids@));
    assert(history.undo_actions().drop_last() == old(history).undo_actions());
    assert(history.undo_actions().last() matches Action::Batch(v) && records_deletions(v@, ns, root, ids@));
    assert(select_after == ns[ids@[0] as int].parent);
    assert(cut_done(ids@, *old(tree), *tree, *old(history), *history, *selection, *clipboard, res));
    res
}


/// The node lists of the clipboard's blueprints.
pub open spec fn blueprint_views(bps: Seq<SubtreeBlueprint>) -> Seq<Seq<NodeView>> {
    bps.map_values(|b: SubtreeBlueprint| b.ns())
}

/// How many nodes the blueprints hold together.
pub open spec fn total_nodes(bps: Seq<Seq<NodeView>>) -> nat
    decreases bps.len(),
{
    if bps.len() == 0 {
        0
    } else {
        total_nodes(bps.drop_last()) + bps.last().len()
    }
}

/// The arena and the next FreeMind id after pasting each blueprint of `bps` in
/// turn under `parent` (an empty blueprint pastes nothing).
pub open spec fn pasted_all(
    ns: Seq<NodeView>,
    root: NodeId,
    bps: Seq<Seq<NodeView>>,
    parent: NodeId,
    next: u64,
) -> (Seq<NodeView>, u64)
    decreases bps.len(),
{
    if bps.len() == 0 {
        (ns, next)
    } else {
        let prev = pasted_all(ns, root, bps.drop_last(), parent, next);
        if bps.last().len() == 0 {
            prev
        } else {
            (after_paste(prev.0, root, bps.last(), parent, prev.1), nth_id(prev.1, bps.last().len()))
        }
    }
}

/// The history entry of one paste of `bp` under `parent`, from `before` to `after`.
pub open spec fn records_paste(e: PasteEntry, before: Seq<NodeView>, after: Seq<NodeView>, bp: Seq<NodeView>, parent: NodeId) -> bool {
    &&& e.parent_id == parent
    &&& e.new_root_id == if bp.len() == 0 { 0 } else { before.len() as NodeId }
    &&& e.all_new_ids@ == Seq::new(bp.len(), |i: int| (before.len() + i) as NodeId)
    &&& view_nodes(e.saved_nodes@) == nodes_at(after, e.all_new_ids@)
}

/// One history entry per blueprint, each recording its own paste.
pub open spec fn records_pastes(
    es: Seq<PasteEntry>,
    ns: Seq<NodeView>,
    root: NodeId,
    bps: Seq<Seq<NodeView>>,
    parent: NodeId,
    next: u64,
) -> bool {
    &&& es.len() == bps.len()
    &&& forall|k: int| 0 <= k < bps.len() ==> records_paste(
        #[trigger] es[k],
        pasted_all(ns, root, bps.take(k), parent, next).0,
        pasted_all(ns, root, bps.take(k + 1), parent, next).0,
        bps[k],
        parent,
    )
}

proof fn lemma_pasted_len(ns: Seq<NodeView>, root: NodeId, bps: Seq<Seq<NodeView>>, parent: NodeId, next: u64)
    requires
        parent < ns.len(),
    ensures
        pasted_all(ns, root, bps, parent, next).0.len() == ns.len() + total_nodes(bps),
    decreases bps.len(),
{
    if bps.len() > 0 {
        lemma_pasted_len(ns, root, bps.drop_last(), parent, next);
        let prev = pasted_all(ns, root, bps.drop_last(), parent, next);
        if bps.last().len() > 0 {
            assert(after_paste(prev.0, root, bps.last(), parent, prev.1).len() == prev.0.len() + bps.last().len());
        }
    }
}

/// Pastes every blueprint of the clipboard, in order, as a new last child of
/// `parent`, records all of them as one undoable step and selects the first pasted
/// root. Nothing happens when the clipboard is empty.
pub fn paste_clipboard(
    tree: &mut MindmapTree,
    history: &mut History,
    selection: &mut Selection,
    clipboard: &Clipboard,
    parent: NodeId,
) -> (res: InputResult)
    requires
        paste_ready(old(tree)),
        parent < old(tree).nodes.len(),
        old(tree).nodes.len() + total_nodes(blueprint_views(clipboard.blueprints@)) <= usize::MAX,
    ensures
        paste_ready(final(tree)),
        final(tree).root == old(tree).root,
        clipboard.blueprints@.len() == 0 ==> {
            &&& *final(tree) == *old(tree)
            &&& final(history).undo_actions() == old(history).undo_actions()
            &&& final(history).redo_actions() == old(history).redo_actions()
            &&& final(selection).selected@ == old(selection).selected@
            &&& res == no_effect()
        },
        clipboard.blueprints@.len() > 0 ==> {
            let bps = blueprint_views(clipboard.blueprints@);
            let done = pasted_all(old(tree).ns(), old(tree).root, bps, parent, old(tree).next_id());
            let first = if bps[0].len() == 0 { 0 } else { old(tree).nodes.len() as NodeId };
            &&& final(tree).ns() == done.0
            &&& final(tree).next_id() == done.1
            &&& final(history).undo_actions().len() == old(history).undo_actions().len() + 1
            &&& final(history).undo_actions().drop_last() == old(history).undo_actions()
            &&& final(history).undo_actions().last() matches Action::PasteSubtrees { entries }
                && records_pastes(entries@, old(tree).ns(), old(tree).root, bps, parent, old(tree).next_id())
            &&& final(history).redo_actions().len() == 0
            &&& final(selection).selected@ == Set::<NodeId>::empty().insert(first)
            &&& res == (InputResult { needs_relayout: true, ensure_visible: Some(first) })
        },
{
    if clipboard.is_empty() {
        return InputResult { needs_relayout: false, ensure_visible: None };
    }
    let ghost ns = tree.ns();
    let ghost next = tree.next_id();
    let ghost bps = blueprint_views(clipboard.blueprints@);
    let ghost t0 = *tree;
    let mut entries: Vec<PasteEntry> = Vec::new();
    let mut first_root: Option<NodeId> = None;
    let mut i: usize = 0;
    while i < clipboard.blueprints.len()
        invariant
            bps == blueprint_views(clipboard.blueprints@),
            ns.len() + total_nodes(bps) <= usize::MAX,
            parent < ns.len(),
            paste_ready(tree),
            tree.root == t0.root,
            i <= bps.len(),
            tree.ns() == pasted_all(ns, t0.root, bps.take(i as int), parent, next).0,
            tree.next_id() == pasted_all(ns, t0.root, bps.take(i as int), parent, next).1,
            i == 0 ==> *tree == t0,
            records_pastes(entries@, ns, t0.root, bps.take(i as int), parent, next),
            i == 0 ==> first_root is None,
            i > 0 ==> first_root == Some(if bps[0].len() == 0 { 0 } else { ns.len() as NodeId }),
        decreases bps.len() - i,
    {
        let ghost before = tree.ns();
        let ghost prefix = bps.take(i as int);
        proof {
            assert(bps.take(i + 1).drop_last() =~= prefix);
            assert(bps.take(i + 1).last() == bps[i as int]);
            lemma_pasted_len(ns, t0.root, prefix, parent, next);
            lemma_total_prefix(bps, i + 1);
            assert(bps[i as int] == clipboard.blueprints@[i as int].ns());
        }
        let bp = &clipboard.blueprints[i];
        let (new_root, all_ids) = tree.paste_subtree(bp, parent);
        if first_root.is_none() {
            first_root = Some(new_root);
        }
        proof {
            if bp.nodes.len() == 0 {
                assert(all_ids@ =~= Seq::new(bps[i as int].len(), |j: int| (before.len() + j) as NodeId));
            } else {
                assert(tree.ns().len() == before.len() + bps[i as int].len());
            }
        }
        assert forall|k: int| 0 <= k < all_ids@.len() implies (#[trigger] all_ids@[k]) < tree.nodes.len() by {
            assert(tree.ns().len() == tree.nodes.len());
        }
        let saved = tree.copies_of(&all_ids);
        let entry = PasteEntry { new_root_id: new_root, parent_id: parent, all_new_ids: all_ids, saved_nodes: saved };
        let ghost old_entries = entries@;
        entries.push(entry);
        proof {
            let t = bps.take(i + 1);
            assert(records_paste(entry, before, tree.ns(), bps[i as int], parent));
            assert forall|k: int| 0 <= k < t.len() implies records_paste(
                #[trigger] entries@[k],
                pasted_all(ns, t0.root, t.take(k), parent, next).0,
                pasted_all(ns, t0.root, t.take(k + 1), parent, next).0,
                t[k],
                parent,
            ) by {
                if k < i {
                    assert(entries@[k] == old_entries[k]);
                    assert(t.take(k) =~= prefix.take(k));
                    assert(t.take(k + 1) =~= prefix.take(k + 1));
                    assert(t[k] == prefix[k]);
                } else {
                    assert(t.take(k) =~= prefix);
                    assert(t.take(k + 1) =~= t);
                }
            }
        }
        i = i + 1;
    }
    assert(bps.take(i as int) =~= bps);
    history.push(Action::PasteSubtrees { entries });
    let first = match first_root {
        Some(r) => r,
        None => 0,
    };
    selection.select_single(first);
    InputResult { needs_relayout: true, ensure_visible: Some(first) }
}

/// The slot each pasted root gets when the blueprints are pasted in turn.
pub open spec fn pasted_roots(base: nat, bps: Seq<Seq<NodeView>>) -> Seq<NodeId> {
    Seq::new(bps.len(), |k: int| (base + total_nodes(bps.take(k))) as NodeId)
}

/// No blueprint is empty (copies of subtrees never are).
pub open spec fn all_nonempty(bps: Seq<Seq<NodeView>>) -> bool {
    forall|k: int| 0 <= k < bps.len() ==> (#[trigger] bps[k]).len() > 0
}

proof fn lemma_pasted_shape(ns: Seq<NodeView>, root: NodeId, bps: Seq<Seq<NodeView>>, parent: NodeId, next: u64)
    requires
        parent < ns.len(),
        all_nonempty(bps),
        ns.len() + total_nodes(bps) <= usize::MAX,
    ensures
        pasted_all(ns, root, bps, parent, next).0.len() == ns.len() + total_nodes(bps),
        forall|i: int| 0 <= i < ns.len() && i != parent ==> #[trigger] pasted_all(ns, root, bps, parent, next).0[i] == ns[i],
        pasted_all(ns, root, bps, parent, next).0[parent as int] == (NodeView {
            children: ns[parent as int].children + pasted_roots(ns.len(), bps),
            folded: if bps.len() > 0 { false } else { ns[parent as int].folded },
            ..ns[parent as int]
        }),
    decreases bps.len(),
{
    lemma_pasted_len(ns, root, bps, parent, next);
    if bps.len() == 0 {
        assert(pasted_roots(ns.len(), bps) =~= Seq::<NodeId>::empty());
        assert(ns[parent as int].children + Seq::<NodeId>::empty() =~= ns[parent as int].children);
    } else {
        let b0 = bps.drop_last();
        assert(all_nonempty(b0)) by {
            assert forall|k: int| 0 <= k < b0.len() implies (#[trigger] b0[k]).len() > 0 by {
                assert(b0[k] == bps[k]);
            }
        }
        lemma_pasted_shape(ns, root, b0, parent, next);
        let prev = pasted_all(ns, root, b0, parent, next);
        assert(bps.last() == bps[bps.len() - 1]);
        let rs0 = pasted_roots(ns.len(), b0);
        let rs = pasted_roots(ns.len(), bps);
        assert(rs =~= rs0.push(prev.0.len() as NodeId)) by {
            assert forall|k: int| 0 <= k < rs.len() implies rs[k] == rs0.push(prev.0.len() as NodeId)[k] by {
                if k < b0.len() {
                    assert(bps.take(k) =~= b0.take(k));
                } else {
                    assert(bps.take(k) =~= b0);
                }
            }
        }
        assert(ns[parent as int].children + rs =~= (ns[parent as int].children + rs0).push(prev.0.len() as NodeId));
    }
}

/// Removing `x` from a sequence that does not hold it changes nothing.
#[verifier::spinoff_prover]
proof fn lemma_without_absent(s: Seq<NodeId>, x: NodeId)
    requires
        forall|k: int| 0 <= k < s.len() ==> s[k] != x,
    ensures
        without(s, x) == s,
    decreases s.len(),
{
    if s.len() == 0 {
        assert(s.filter(not_id(x)) =~= s) by {
            reveal(Seq::filter);
        }
    } else {
        let rest = s.drop_first();
        assert forall|k: int| 0 <= k < rest.len() implies rest[k] != x by {
            assert(rest[k] == s[k + 1]);
        }
        lemma_without_absent(rest, x);
        rest.lemma_filter_prepend(s[0], not_id(x));
        assert(not_id(x)(s[0]));
        assert(seq![s[0]] + rest =~= s);
    }
}

/// Emptying slots at or above `n0` leaves the slots below `n0` as they were.
proof fn lemma_emptied_keeps(ns: Seq<NodeView>, ids: Seq<NodeId>, n0: nat)
    requires
        forall|k: int| 0 <= k < ids.len() ==> ids[k] >= n0,
    ensures
        emptied(ns, ids).len() == ns.len(),
        forall|i: int| 0 <= i < n0 && i < ns.len() ==> #[trigger] emptied(ns, ids)[i] == ns[i],
    decreases ids.len(),
{
    if ids.len() > 0 {
        lemma_emptied_keeps(ns, ids.drop_last(), n0);
    }
}

/// Undoing the first `j` entries of a paste record takes their roots off the
/// target's child list and leaves every other slot below `n0` alone.
proof fn lemma_undo_paste_prefix(
    after: Seq<NodeView>,
    es: Seq<PasteEntry>,
    j: int,
    n0: nat,
    parent: NodeId,
    orig: Seq<NodeId>,
    roots: Seq<NodeId>,
)
    requires
        0 <= j <= es.len(),
        parent < n0 <= after.len(),
        roots.len() == es.len(),
        forall|k: int| 0 <= k < es.len() ==> (#[trigger] es[k]).parent_id == parent && es[k].new_root_id == roots[k]
            && forall|x: int| 0 <= x < es[k].all_new_ids@.len() ==> es[k].all_new_ids@[x] >= n0,
        forall|k: int| 0 <= k < roots.len() ==> #[trigger] roots[k] >= n0,
        forall|a: int, b: int| 0 <= a < b < roots.len() ==> roots[a] < roots[b],
        forall|k: int| 0 <= k < orig.len() ==> #[trigger] orig[k] < n0,
        after[parent as int].children == orig + roots,
    ensures
        undo_paste(after, es.take(j)).len() == after.len(),
        forall|i: int| 0 <= i < n0 && i != parent ==> #[trigger] undo_paste(after, es.take(j))[i] == after[i],
        undo_paste(after, es.take(j))[parent as int] == (NodeView { children: orig + roots.skip(j), ..after[parent as int] }),
    decreases j,
{
    if j == 0 {
        assert(es.take(0) =~= Seq::<PasteEntry>::empty());
        assert(roots.skip(0) =~= roots);
    } else {
        lemma_undo_paste_prefix(after, es, j - 1, n0, parent, orig, roots);
        let t = es.take(j);
        assert(t.drop_last() =~= es.take(j - 1));
        assert(t.last() == es[j - 1]);
        let u = undo_paste(after, es.take(j - 1));
        let e = es[j - 1];
        let r = roots[j - 1];
        let cs = orig + roots.skip(j - 1);
        assert(roots.skip(j - 1) =~= seq![r] + roots.skip(j));
        assert(orig + roots.skip(j - 1) =~= orig + (seq![r] + roots.skip(j)));
        Seq::filter_distributes_over_add(orig, seq![r] + roots.skip(j), not_id(r));
        lemma_without_absent(orig, r);
        roots.skip(j).lemma_filter_prepend(r, not_id(r));
        lemma_without_absent(roots.skip(j), r);
        assert(without(cs, r) =~= orig + roots.skip(j));
        let a = set_children(u, parent, without(u[parent as int].children, r));
        lemma_emptied_keeps(a, e.all_new_ids@, n0);
    }
}

/// Undoing a paste of the clipboard gives back every node that existed before
/// it: the pasted subtrees are taken off the target's child list (their slots are
/// left empty), and only the target stays unfolded.
pub proof fn lemma_undo_paste_clipboard(
    ns: Seq<NodeView>,
    root: NodeId,
    bps: Seq<Seq<NodeView>>,
    parent: NodeId,
    next: u64,
    a: Action,
)
    requires
        forest_wf(ns, root),
        parent < ns.len(),
        all_nonempty(bps),
        ns.len() + total_nodes(bps) <= usize::MAX,
        a matches Action::PasteSubtrees { entries } && records_pastes(entries@, ns, root, bps, parent, next),
    ensures
        ({
            let after = pasted_all(ns, root, bps, parent, next).0;
            let back = undo_ns(after, a);
            &&& back.len() == after.len()
            &&& forall|i: int| 0 <= i < ns.len() && i != parent ==> #[trigger] back[i] == ns[i]
            &&& back[parent as int] == (NodeView {
                folded: if bps.len() > 0 { false } else { ns[parent as int].folded },
                ..ns[parent as int]
            })
        }),
{
    let es = match a {
        Action::PasteSubtrees { entries } => entries@,
        _ => Seq::empty(),
    };
    let after = pasted_all(ns, root, bps, parent, next).0;
    lemma_pasted_shape(ns, root, bps, parent, next);
    let roots = pasted_roots(ns.len(), bps);
    let orig = ns[parent as int].children;
    assert(children_ok(ns, parent as int));
    assert forall|k: int| 0 <= k < bps.len() implies #[trigger] roots[k] >= ns.len()
        && roots[k] == ns.len() + total_nodes(bps.take(k)) by {
        lemma_total_prefix(bps, k);
    }
    assert forall|x: int, y: int| 0 <= x < y < roots.len() implies roots[x] < roots[y] by {
        lemma_total_prefix(bps.take(y), x + 1);
        assert(bps.take(y).take(x + 1) =~= bps.take(x + 1));
        assert(bps.take(x + 1).drop_last() =~= bps.take(x));
        assert(bps.take(x + 1).last() == bps[x]);
        lemma_total_prefix(bps, y);
    }
    assert forall|k: int| 0 <= k < es.len() implies (#[trigger] es[k]).parent_id == parent && es[k].new_root_id == roots[k]
        && forall|x: int| 0 <= x < es[k].all_new_ids@.len() ==> es[k].all_new_ids@[x] >= ns.len() by {
        lemma_pasted_len(ns, root, bps.take(k), parent, next);
        lemma_total_prefix(bps, k);
        lemma_total_prefix(bps, k + 1);
        assert(bps.take(k + 1).drop_last() =~= bps.take(k));
        assert(bps.take(k + 1).last() == bps[k]);
        assert(bps[k].len() > 0);
    }
    lemma_undo_paste_prefix(after, es, es.len() as int, ns.len(), parent, orig, roots);
    assert(es.take(es.len() as int) =~= es);
    assert(roots.skip(roots.len() as int) =~= Seq::<NodeId>::empty());
    assert(orig + Seq::<NodeId>::empty() =~= orig);
}

proof fn lemma_total_prefix(bps: Seq<Seq<NodeView>>, k: int)
    requires
        0 <= k <= bps.len(),
    ensures
        total_nodes(bps.take(k)) <= total_nodes(bps),
    decreases bps.len() - k,
{
    if k < bps.len() {
        lemma_total_prefix(bps, k + 1);
        assert(bps.take(k + 1).drop_last() =~= bps.take(k));
    } else {
        assert(bps.take(k) =~= bps);
    }
}


/// Selects the parent of `node`; a node without parent changes nothing.
pub fn select_parent(tree: &MindmapTree, selection: &mut Selection, node: NodeId) -> (res: InputResult)
    requires
        node < tree.nodes.len(),
    ensures
        final(selection).hovered == old(selection).hovered,
        match tree.ns()[node as int].parent {
            Some(p) => final(selection).selected@ == Set::<NodeId>::empty().insert(p)
                && res == (InputResult { needs_relayout: false, ensure_visible: Some(p) }),
            None => final(selection).selected@ == old(selection).selected@ && res == no_effect(),
        },
{
    match tree.nodes[node].parent {
        Some(p) => {
            selection.select_single(p);
            InputResult { needs_relayout: false, ensure_visible: Some(p) }
        },
        None => InputResult { needs_relayout: false, ensure_visible: None },
    }
}

/// The first child that an unfolded `n` shows.
pub open spec fn first_shown_child(t: &MindmapTree, n: NodeId) -> Option<NodeId> {
    let vs = visible_slice(t.ns()[n as int].children, n, t.sibling_limit as nat, t.force_expanded@);
    if vs.len() > 0 { Some(vs[0]) } else { None }
}

/// Steps into `node`: a folded node with children is unfolded (and stays selected);
/// an unfolded one hands the selection to its first shown child.
pub fn step_into(tree: &mut MindmapTree, selection: &mut Selection, node: NodeId) -> (res: InputResult)
    requires
        old(tree).wf(),
        node < old(tree).nodes.len(),
    ensures
        final(tree).wf(),
        final(tree).same_settings(old(tree)),
        final(selection).hovered == old(selection).hovered,
        ({
            let n = old(tree).ns()[node as int];
            &&& n.children.len() == 0 ==> {
                &&& *final(tree) == *old(tree)
                &&& final(selection).selected@ == old(selection).selected@
                &&& res == no_effect()
            }
            &&& n.children.len() > 0 && n.folded ==> {
                &&& final(tree).ns() == old(tree).ns().update(node as int, NodeView { folded: false, ..n })
                &&& final(tree).cache() is None
                &&& final(selection).selected@ == old(selection).selected@
                &&& res == (InputResult { needs_relayout: true, ensure_visible: Some(node) })
            }
            &&& n.children.len() > 0 && !n.folded ==> {
                &&& *final(tree) == *old(tree)
                &&& match first_shown_child(old(tree), node) {
                    Some(c) => final(selection).selected@ == Set::<NodeId>::empty().insert(c)
                        && res == (InputResult { needs_relayout: false, ensure_visible: Some(c) }),
                    None => final(selection).selected@ == old(selection).selected@ && res == no_effect(),
                }
            }
        }),
{
    if tree.nodes[node].children.len() == 0 {
        return InputResult { needs_relayout: false, ensure_visible: None };
    }
    if tree.nodes[node].folded {
        tree.toggle_fold(node);
        return InputResult { needs_relayout: true, ensure_visible: Some(node) };
    }
    match tree.first_visible_child(node) {
        Some(c) => {
            selection.select_single(c);
            InputResult { needs_relayout: false, ensure_visible: Some(c) }
        },
        None => InputResult { needs_relayout: false, ensure_visible: None },
    }
}

/// Selects the shown sibling just after `node` (or, with `forward` false, just before).
pub fn select_sibling(tree: &MindmapTree, selection: &mut Selection, node: NodeId, forward: bool) -> (res: InputResult)
    requires
        tree.wf(),
        node < tree.nodes.len(),
    ensures
        final(selection).hovered == old(selection).hovered,
        match shown_neighbour(tree, node, if forward { 1 } else { -1 }) {
            Some(s) => final(selection).selected@ == Set::<NodeId>::empty().insert(s)
                && res == (InputResult { needs_relayout: false, ensure_visible: Some(s) }),
            None => final(selection).selected@ == old(selection).selected@ && res == no_effect(),
        },
{
    let sibling = if forward { tree.next_sibling(node) } else { tree.prev_sibling(node) };
    match sibling {
        Some(s) => {
            selection.select_single(s);
            InputResult { needs_relayout: false, ensure_visible: Some(s) }
        },
        None => InputResult { needs_relayout: false, ensure_visible: None },
    }
}

/// Selects the root.
pub fn select_root(tree: &MindmapTree, selection: &mut Selection) -> (res: InputResult)
    ensures
        final(selection).selected@ == Set::<NodeId>::empty().insert(tree.root),
        final(selection).hovered == old(selection).hovered,
        res == (InputResult { needs_relayout: false, ensure_visible: Some(tree.root) }),
{
    selection.select_single(tree.root);
    InputResult { needs_relayout: false, ensure_visible: Some(tree.root) }
}

/// A click on `node`: with Ctrl it joins or leaves the selection; without, it
/// becomes the only selected node and, when it has children, is folded or unfolded
/// (a click is not recorded in the history).
pub fn click_node(tree: &mut MindmapTree, selection: &mut Selection, node: NodeId, ctrl: bool) -> (res: InputResult)
    requires
        old(tree).wf(),
        node < old(tree).nodes.len(),
    ensures
        final(tree).wf(),
        final(tree).same_settings(old(tree)),
        final(selection).hovered == old(selection).hovered,
        ctrl ==> {
            &&& *final(tree) == *old(tree)
            &&& old(selection).selected@.contains(node) ==> final(selection).selected@ == old(selection).selected@.remove(node)
            &&& !old(selection).selected@.contains(node) ==> final(selection).selected@ == old(selection).selected@.insert(node)
            &&& res == no_effect()
        },
        !ctrl ==> {
            let n = old(tree).ns()[node as int];
            &&& final(selection).selected@ == Set::<NodeId>::empty().insert(node)
            &&& n.children.len() > 0 ==> final(tree).ns() == old(tree).ns().update(node as int, NodeView { folded: !n.folded, ..n })
                && final(tree).cache() is None
                && res == (InputResult { needs_relayout: true, ensure_visible: None })
            &&& n.children.len() == 0 ==> *final(tree) == *old(tree) && res == no_effect()
        },
{
    if ctrl {
        selection.toggle(node);
        return InputResult { needs_relayout: false, ensure_visible: None };
    }
    selection.select_single(node);
    if tree.nodes[node].children.len() > 0 {
        tree.toggle_fold(node);
        InputResult { needs_relayout: true, ensure_visible: None }
    } else {
        InputResult { needs_relayout: false, ensure_visible: None }
    }
}

/// A node's display state once `hovered` is known: a node being edited keeps its
/// state; the others are hovered or default.
pub open spec fn hover_marked(n: NodeView, hovered: Option<NodeId>) -> NodeView {
    if n.state == NodeState::Editing {
        n
    } else {
        NodeView { state: if hovered == Some(n.id) { NodeState::Hovered } else { NodeState::Default }, ..n }
    }
}

/// Sets every node's display state from the hovered node.
pub fn update_hover_states(tree: &mut MindmapTree, hovered: Option<NodeId>)
    ensures
        final(tree).ns() == old(tree).ns().map_values(|n: NodeView| hover_marked(n, hovered)),
        final(tree).root == old(tree).root,
        final(tree).cache() == old(tree).cache(),
        final(tree).same_settings(old(tree)),
        old(tree).wf() ==> final(tree).wf(),
{
    let ghost ns = tree.ns();
    let mut i: usize = 0;
    while i < tree.nodes.len()
        invariant
            i <= tree.nodes.len(),
            tree.nodes.len() == ns.len(),
            tree.root == old(tree).root,
            tree.cached_visible == old(tree).cached_visible,
            tree.next_freemind_id == old(tree).next_freemind_id,
            tree.same_settings(old(tree)),
            ns == old(tree).ns(),
            forall|k: int| 0 <= k < i ==> #[trigger] tree.ns()[k] == hover_marked(ns[k], hovered),
            forall|k: int| i <= k < ns.len() ==> #[trigger] tree.ns()[k] == ns[k],
        decreases ns.len() - i,
    {
        let ghost prev = tree.ns();
        let ghost pn = tree.nodes@;
        if tree.nodes[i].state != NodeState::Editing {
            let id = tree.nodes[i].id;
            let st = if hovered == Some(id) { NodeState::Hovered } else { NodeState::Default };
            tree.nodes[i].state = st;
        }
        assert(forall|k: int| 0 <= k < pn.len() && k != i ==> tree.nodes@[k] == pn[k]);
        assert(prev[i as int] == ns[i as int]);
        assert(tree.ns()[i as int] == hover_marked(ns[i as int], hovered));
        assert(tree.ns() =~= prev.update(i as int, hover_marked(ns[i as int], hovered)));
        i = i + 1;
    }
    let ghost after = tree.ns();
    assert(after =~= ns.map_values(|n: NodeView| hover_marked(n, hovered)));
    proof {
        if old(tree).wf() {
            crate::walk::lemma_wf_same_shape(ns, after, tree.root);
        }
    }
}

/// Starts editing `node` with its text replaced by what was typed.
pub fn start_replace_edit(tree: &mut MindmapTree, editing: &mut EditingState, node: NodeId, typed: String)
    requires
        node < old(tree).nodes.len(),
    ensures
        final(tree).ns() == marked_editing(old(tree).ns(), node),
        final(tree).cache() == old(tree).cache(),
        final(tree).same_settings(old(tree)),
        final(editing).active_node == Some(node),
        final(editing).text_buffer@ == typed@,
        final(editing).original_text@ == old(tree).ns()[node as int].text,
        final(editing).replace_mode_char matches Some(c) && c@ == typed@,
        final(editing).just_started,
{
    let ghost ns = tree.ns();
    let original = tree.nodes[node].text.clone();
    editing.start_replace(node, original, typed);
    tree.nodes[node].state = NodeState::Editing;
    assert(tree.ns() =~= marked_editing(ns, node));
}

/// Removes the link of `node` and records it.
pub fn remove_link(tree: &mut MindmapTree, history: &mut History, node: NodeId)
    requires
        node < old(tree).nodes.len(),
    ensures
        final(tree).ns() == old(tree).ns().update(node as int, NodeView { link: None, ..old(tree).ns()[node as int] }),
        final(tree).cache() == old(tree).cache(),
        final(tree).same_settings(old(tree)),
        old(tree).wf() ==> final(tree).wf(),
        final(history).undo_actions().len() == old(history).undo_actions().len() + 1,
        final(history).undo_actions().drop_last() == old(history).undo_actions(),
        final(history).undo_actions().last() matches Action::SetLink { node_id, old_link, new_link }
            && node_id == node && opt_str_view(old_link) == old(tree).ns()[node as int].link && new_link is None,
        final(history).redo_actions().len() == 0,
{
    let ghost ns = tree.ns();
    let old_link = clone_opt_string(&tree.nodes[node].link);
    tree.nodes[node].link = None;
    proof {
        assert(tree.ns() =~= ns.update(node as int, NodeView { link: None, ..ns[node as int] }));
        if old(tree).wf() {
            crate::walk::lemma_wf_same_shape(ns, tree.ns(), tree.root);
        }
    }
    history.push(Action::SetLink { node_id: node, old_link, new_link: None });
    assert(history.undo_actions().drop_last() =~= old(history).undo_actions());
}

/// Every node with children except the root, folded.
pub open spec fn folded_all(ns: Seq<NodeView>, root: NodeId) -> Seq<NodeView> {
    Seq::new(ns.len(), |i: int| if ns[i].children.len() > 0 && i != root { NodeView { folded: true, ..ns[i] } } else { ns[i] })
}

/// Every node, unfolded.
pub open spec fn unfolded_all(ns: Seq<NodeView>) -> Seq<NodeView> {
    ns.map_values(|n: NodeView| NodeView { folded: false, ..n })
}

/// Folds every node that has children, except the root (not recorded in the history).
pub fn fold_all(tree: &mut MindmapTree)
    ensures
        final(tree).ns() == folded_all(old(tree).ns(), old(tree).root),
        final(tree).root == old(tree).root,
        final(tree).cache() == old(tree).cache(),
        final(tree).same_settings(old(tree)),
        old(tree).wf() ==> final(tree).wf(),
{
    let ghost ns = tree.ns();
    let root = tree.root;
    let mut i: usize = 0;
    while i < tree.nodes.len()
        invariant
            i <= tree.nodes.len(),
            tree.nodes.len() == ns.len(),
            tree.root == root,
            root == old(tree).root,
            tree.cached_visible == old(tree).cached_visible,
            tree.next_freemind_id == old(tree).next_freemind_id,
            tree.same_settings(old(tree)),
            ns == old(tree).ns(),
            forall|k: int| 0 <= k < i ==> #[trigger] tree.ns()[k] == folded_all(ns, root)[k],
            forall|k: int| i <= k < ns.len() ==> #[trigger] tree.ns()[k] == ns[k],
        decreases ns.len() - i,
    {
        let ghost prev = tree.ns();
        let ghost pn = tree.nodes@;
        if tree.nodes[i].children.len() > 0 && i != root {
            tree.nodes[i].folded = true;
        }
        assert(forall|k: int| 0 <= k < pn.len() && k != i ==> tree.nodes@[k] == pn[k]);
        assert(prev[i as int] == ns[i as int]);
        assert(tree.ns()[i as int] == folded_all(ns, root)[i as int]);
        assert(tree.ns() =~= prev.update(i as int, folded_all(ns, root)[i as int]));
        i = i + 1;
    }
    let ghost after = tree.ns();
    assert(after =~= folded_all(ns, root));
    proof {
        if old(tree).wf() {
            crate::walk::lemma_wf_same_shape(ns, after, root);
        }
    }
}

/// Unfolds every node (not recorded in the history).
pub fn unfold_all(tree: &mut MindmapTree)
    ensures
        final(tree).ns() == unfolded_all(old(tree).ns()),
        final(tree).root == old(tree).root,
        final(tree).cache() == old(tree).cache(),
        final(tree).same_settings(old(tree)),
        old(tree).wf() ==> final(tree).wf(),
{
    let ghost ns = tree.ns();
    let mut i: usize = 0;
    while i < tree.nodes.len()
        invariant
            i <= tree.nodes.len(),
            tree.nodes.len() == ns.len(),
            tree.root == old(tree).root,
            tree.cached_visible == old(tree).cached_visible,
            tree.next_freemind_id == old(tree).next_freemind_id,
            tree.same_settings(old(tree)),
            ns == old(tree).ns(),
            forall|k: int| 0 <= k < i ==> #[trigger] tree.ns()[k] == (NodeView { folded: false, ..ns[k] }),
            forall|k: int| i <= k < ns.len() ==> #[trigger] tree.ns()[k] == ns[k],
        decreases ns.len() - i,
    {
        let ghost prev = tree.ns();
        let ghost pn = tree.nodes@;
        tree.nodes[i].folded = false;
        assert(forall|k: int| 0 <= k < pn.len() && k != i ==> tree.nodes@[k] == pn[k]);
        assert(prev[i as int] == ns[i as int]);
        assert(tree.ns()[i as int] == NodeView { folded: false, ..ns[i as int] });
        assert(tree.ns() =~= prev.update(i as int, NodeView { folded: false, ..ns[i as int] }));
        i = i + 1;
    }
    let ghost after = tree.ns();
    assert(after =~= unfolded_all(ns));
    proof {
        if old(tree).wf() {
            crate::walk::lemma_wf_same_shape(ns, after, tree.root);
        }
    }
}


/// Flips `node` between bold and regular and records it.
pub fn toggle_bold(tree: &mut MindmapTree, history: &mut History, node: NodeId)
    requires
        node < old(tree).nodes.len(),
    ensures
        final(tree).ns() == old(tree).ns().update(
            node as int,
            NodeView { bold: !old(tree).ns()[node as int].bold, ..old(tree).ns()[node as int] },
        ),
        final(tree).cache() == old(tree).cache(),
        final(tree).same_settings(old(tree)),
        old(tree).wf() ==> final(tree).wf(),
        final(history).undo_actions() == old(history).undo_actions().push(Action::SetBold {
            node_id: node,
            old_bold: old(tree).ns()[node as int].bold,
            new_bold: !old(tree).ns()[node as int].bold,
        }),
        final(history).redo_actions().len() == 0,
{
    let ghost ns = tree.ns();
    let old_bold = tree.nodes[node].bold;
    tree.nodes[node].bold = !old_bold;
    proof {
        assert(tree.ns() =~= ns.update(node as int, NodeView { bold: !old_bold, ..ns[node as int] }));
        if old(tree).wf() {
            crate::walk::lemma_wf_same_shape(ns, tree.ns(), tree.root);
        }
    }
    history.push(Action::SetBold { node_id: node, old_bold, new_bold: !old_bold });
}

/// The link that an edited address gives: none when it is blank, else the
/// address without surrounding whitespace.
pub open spec fn link_from(url: Seq<char>) -> Option<Seq<char>> {
    if trim(url).len() == 0 { None } else { Some(trim(url)) }
}

/// Sets the link of `node` from an edited address and records it.
pub fn set_link(tree: &mut MindmapTree, history: &mut History, node: NodeId, url: &str)
    requires
        node < old(tree).nodes.len(),
    ensures
        final(tree).ns() == old(tree).ns().update(node as int, NodeView { link: link_from(url@), ..old(tree).ns()[node as int] }),
        final(tree).cache() == old(tree).cache(),
        final(tree).same_settings(old(tree)),
        old(tree).wf() ==> final(tree).wf(),
        final(history).undo_actions().len() == old(history).undo_actions().len() + 1,
        final(history).undo_actions().drop_last() == old(history).undo_actions(),
        final(history).undo_actions().last() matches Action::SetLink { node_id, old_link, new_link }
            && node_id == node && opt_str_view(old_link) == old(tree).ns()[node as int].link
            && opt_str_view(new_link) == link_from(url@),
        final(history).redo_actions().len() == 0,
{
    let ghost ns = tree.ns();
    let old_link = clone_opt_string(&tree.nodes[node].link);
    let t = trimmed(url);
    let new_link = if t.as_str().is_empty() { None } else { Some(t) };
    tree.nodes[node].link = clone_opt_string(&new_link);
    proof {
        assert(opt_str_view(new_link) == link_from(url@));
        assert(tree.ns() =~= ns.update(node as int, NodeView { link: link_from(url@), ..ns[node as int] }));
        if old(tree).wf() {
            crate::walk::lemma_wf_same_shape(ns, tree.ns(), tree.root);
        }
    }
    history.push(Action::SetLink { node_id: node, old_link, new_link });
    assert(history.undo_actions().drop_last() =~= old(history).undo_actions());
}

/// The arena after replacing `q` by `r` in the texts of `ids`, one after the
/// other, and the text edits that changed something (node, old text, new text).
pub open spec fn replaced_texts(
    ns: Seq<NodeView>,
    ids: Seq<NodeId>,
    q: Seq<char>,
    r: Seq<char>,
) -> (Seq<NodeView>, Seq<(NodeId, Seq<char>, Seq<char>)>)
    decreases ids.len(),
{
    if ids.len() == 0 {
        (ns, Seq::empty())
    } else {
        let prev = replaced_texts(ns, ids.drop_last(), q, r);
        let id = ids.last();
        let before = prev.0[id as int].text;
        let after = replaced(before, q, r);
        if after == before {
            prev
        } else {
            (prev.0.update(id as int, NodeView { text: after, ..prev.0[id as int] }), prev.1.push((id, before, after)))
        }
    }
}

/// `v` records the text edits `es`, in order.
pub open spec fn records_edits(v: Seq<Action>, es: Seq<(NodeId, Seq<char>, Seq<char>)>) -> bool {
    &&& v.len() == es.len()
    &&& forall|k: int| 0 <= k < es.len() ==> (#[trigger] v[k] matches Action::EditText { node_id, old_text, new_text }
        && node_id == es[k].0 && old_text@ == es[k].1 && new_text@ == es[k].2)
}

/// Replaces the search query by the replacement text in `node` and returns
/// whether the text changed; a change is recorded.
fn replace_in_node(tree: &mut MindmapTree, node: NodeId, query: &str, with: &str) -> (res: Option<Action>)
    requires
        old(tree).wf(),
        node < old(tree).nodes.len(),
    ensures
        final(tree).wf(),
        final(tree).same_settings(old(tree)),
        final(tree).cache() == old(tree).cache(),
        final(tree).nodes.len() == old(tree).nodes.len(),
        ({
            let before = old(tree).ns()[node as int].text;
            let after = replaced(before, query@, with@);
            &&& after == before ==> res is None && final(tree).ns() == old(tree).ns()
            &&& after != before ==> {
                &&& final(tree).ns() == old(tree).ns().update(node as int, NodeView { text: after, ..old(tree).ns()[node as int] })
                &&& res matches Some(Action::EditText { node_id, old_text, new_text })
                    && node_id == node && old_text@ == before && new_text@ == after
            }
        }),
{
    let ghost ns = tree.ns();
    let old_text = tree.nodes[node].text.clone();
    let new_text = replace_str(old_text.as_str(), query, with);
    if new_text != old_text {
        tree.nodes[node].text = new_text.clone();
        proof {
            assert(tree.ns() =~= ns.update(node as int, NodeView { text: new_text@, ..ns[node as int] }));
            crate::walk::lemma_wf_same_shape(ns, tree.ns(), tree.root);
        }
        Some(Action::EditText { node_id: node, old_text, new_text })
    } else {
        None
    }
}

/// The cursor after a forced rescan of `n` matches followed by a step forward.
pub open spec fn cursor_after_replace(old_index: usize, q: Seq<char>, n: nat) -> int {
    let i = if q.len() == 0 { old_index } else { rescanned_index(old_index, q, n) };
    if n == 0 { i as int } else { (i + 1) % (n as int) }
}

/// Replaces the query in the current match (recording a change), rescans and
/// moves to the next match. Returns whether a text changed.
pub fn replace_current(tree: &mut MindmapTree, history: &mut History, search: &mut SearchState) -> (changed: bool)
    requires
        old(tree).wf(),
        forall|k: int| 0 <= k < old(search).matches@.len() ==> (#[trigger] old(search).matches@[k]) < old(tree).nodes.len(),
    ensures
        final(tree).wf(),
        final(tree).same_settings(old(tree)),
        final(search).query@ == old(search).query@,
        final(search).replace_text@ == old(search).replace_text@,
        old(search).current_index >= old(search).matches@.len() ==> {
            &&& !changed
            &&& *final(tree) == *old(tree)
            &&& final(history).undo_actions() == old(history).undo_actions()
            &&& final(history).redo_actions() == old(history).redo_actions()
            &&& final(search).matches@ == old(search).matches@
            &&& final(search).current_index == old(search).current_index
        },
        old(search).current_index < old(search).matches@.len() ==> {
            let node = old(search).matches@[old(search).current_index as int];
            let before = old(tree).ns()[node as int].text;
            let after = replaced(before, old(search).query@, old(search).replace_text@);
            let m = if old(search).query@.len() == 0 {
                old(search).matches@
            } else {
                search_matches(final(tree), old(search).query@)
            };
            &&& changed == (after != before)
            &&& final(tree).ns() == if changed {
                old(tree).ns().update(node as int, NodeView { text: after, ..old(tree).ns()[node as int] })
            } else {
                old(tree).ns()
            }
            &&& changed ==> {
                &&& final(history).undo_actions().len() == old(history).undo_actions().len() + 1
                &&& final(history).undo_actions().drop_last() == old(history).undo_actions()
                &&& final(history).undo_actions().last() matches Action::EditText { node_id, old_text, new_text }
                    && node_id == node && old_text@ == before && new_text@ == after
                &&& final(history).redo_actions().len() == 0
            }
            &&& !changed ==> final(history).undo_actions() == old(history).undo_actions()
                && final(history).redo_actions() == old(history).redo_actions()
            &&& final(search).matches@ == m
            &&& final(search).current_index == cursor_after_replace(old(search).current_index, old(search).query@, m.len())
        },
{
    let node = match search.current_match() {
        Some(n) => n,
        None => return false,
    };
    let changed = match replace_in_node(tree, node, search.query.as_str(), search.replace_text.as_str()) {
        Some(action) => {
            history.push(action);
            assert(history.undo_actions().drop_last() =~= old(history).undo_actions());
            true
        },
        None => false,
    };
    search.update_matches_force(tree);
    search.next();
    changed
}

/// Replaces the query in every match, records the changed texts as one
/// undoable step, and rescans. Returns whether a text changed.
pub fn replace_all_matches(tree: &mut MindmapTree, history: &mut History, search: &mut SearchState) -> (changed: bool)
    requires
        old(tree).wf(),
        forall|k: int| 0 <= k < old(search).matches@.len() ==> (#[trigger] old(search).matches@[k]) < old(tree).nodes.len(),
    ensures
        final(tree).wf(),
        final(tree).same_settings(old(tree)),
        final(search).query@ == old(search).query@,
        final(search).replace_text@ == old(search).replace_text@,
        ({
            let done = replaced_texts(old(tree).ns(), old(search).matches@, old(search).query@, old(search).replace_text@);
            &&& final(tree).ns() == done.0
            &&& changed == (done.1.len() > 0)
            &&& changed ==> {
                &&& final(history).undo_actions().len() == old(history).undo_actions().len() + 1
                &&& final(history).undo_actions().drop_last() == old(history).undo_actions()
                &&& final(history).undo_actions().last() matches Action::Batch(v) && records_edits(v@, done.1)
                &&& final(history).redo_actions().len() == 0
            }
            &&& !changed ==> final(history).undo_actions() == old(history).undo_actions()
                && final(history).redo_actions() == old(history).redo_actions()
            &&& old(search).query@.len() == 0 ==> final(search).matches@ == old(search).matches@
                && final(search).current_index == old(search).current_index
            &&& old(search).query@.len() > 0 ==> final(search).matches@ == search_matches(final(tree), old(search).query@)
                && final(search).current_index == rescanned_index(
                    old(search).current_index,
                    old(search).query@,
                    final(search).matches@.len(),
                )
        }),
{
    let ghost ns = tree.ns();
    let ghost q = search.query@;
    let ghost r = search.replace_text@;
    let ids = search.matches.clone();
    let mut batch: Vec<Action> = Vec::new();
    let mut i: usize = 0;
    while i < ids.len()
        invariant
            ids@ == old(search).matches@,
            forall|k: int| 0 <= k < ids@.len() ==> (#[trigger] ids@[k]) < ns.len(),
            search.query@ == q,
            search.replace_text@ == r,
            *search == *old(search),
            tree.wf(),
            tree.same_settings(old(tree)),
            tree.root == old(tree).root,
            tree.nodes.len() == ns.len(),
            ns == old(tree).ns(),
            i <= ids.len(),
            tree.ns() == replaced_texts(ns, ids@.take(i as int), q, r).0,
            records_edits(batch@, replaced_texts(ns, ids@.take(i as int), q, r).1),
        decreases ids.len() - i,
    {
        let ghost prev_batch = batch@;
        let ghost es = replaced_texts(ns, ids@.take(i as int), q, r).1;
        proof {
            assert(ids@.take(i + 1).drop_last() =~= ids@.take(i as int));
            assert(ids@.take(i + 1).last() == ids@[i as int]);
        }
        match replace_in_node(tree, ids[i], search.query.as_str(), search.replace_text.as_str()) {
            Some(action) => {
                batch.push(action);
                proof {
                    let es2 = replaced_texts(ns, ids@.take(i + 1), q, r).1;
                    assert forall|k: int| 0 <= k < es2.len() implies (#[trigger] batch@[k] matches Action::EditText { node_id, old_text, new_text }
                        && node_id == es2[k].0 && old_text@ == es2[k].1 && new_text@ == es2[k].2) by {
                        if k < es.len() {
                            assert(batch@[k] == prev_batch[k]);
                            assert(es2[k] == es[k]);
                        }
                    }
                }
            },
            None => {},
        }
        i = i + 1;
    }
    assert(ids@.take(i as int) =~= ids@);
    let changed = batch.len() > 0;
    if changed {
        history.push(Action::Batch(batch));
        assert(history.undo_actions().drop_last() =~= old(history).undo_actions());
    }
    search.update_matches_force(tree);
    changed
}


/// Unfold All leaves no node folded, at any depth, and changes nothing else.
pub proof fn lemma_unfold_all_unfolds_every_node(ns: Seq<NodeView>)
    ensures
        unfolded_all(ns).len() == ns.len(),
        forall|i: int| 0 <= i < ns.len() ==> !(#[trigger] unfolded_all(ns)[i]).folded,
        forall|i: int| 0 <= i < ns.len() ==> (NodeView { folded: ns[i].folded, ..#[trigger] unfolded_all(ns)[i] }) == ns[i],
{
}

/// Unfold All after Fold All gives the same map as Unfold All alone: folding
/// first leaves no trace.
pub proof fn lemma_unfold_after_fold_all(ns: Seq<NodeView>, root: NodeId)
    ensures
        unfolded_all(folded_all(ns, root)) == unfolded_all(ns),
{
    assert(unfolded_all(folded_all(ns, root)) =~= unfolded_all(ns));
}
} // verus!
