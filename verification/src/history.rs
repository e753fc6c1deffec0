//! Undo/redo history: the recorded edit actions and how each one is reverted
//! and replayed on the tree.
use vstd::prelude::*;
use crate::node::{MindmapNode, NodeId, NodeView, Side, fresh_node, opt_str_view, view_nodes, clone_opt_string};
use crate::tree::{MindmapTree, added_child, after_reparent, count_side, swapped};
use crate::walk::{after_delete, children_ok, forest_wf, in_subtree, parent_ok};

verus! {

/// One entry per pasted subtree root.
#[derive(Debug)]
pub struct PasteEntry {
    pub new_root_id: NodeId,
    pub parent_id: NodeId,
    pub all_new_ids: Vec<NodeId>,
    /// Snapshot of every pasted node, for redo.
    pub saved_nodes: Vec<MindmapNode>,
}

/// A recorded edit, with what is needed to revert and replay it.
#[derive(Debug)]
pub enum Action {
    AddNode { node_id: NodeId, parent_id: NodeId },
    DeleteSubtree { subtree: Vec<MindmapNode>, parent_id: NodeId, child_index: usize },
    EditText { node_id: NodeId, old_text: String, new_text: String },
    ToggleFold { node_id: NodeId },
    MoveSibling { node_id: NodeId, parent_id: NodeId, old_index: usize, new_index: usize },
    MoveNode {
        node_id: NodeId,
        old_parent: NodeId,
        old_child_index: usize,
        new_parent: NodeId,
        old_position: Option<Side>,
    },
    PasteSubtrees { entries: Vec<PasteEntry> },
    Batch(Vec<Action>),
    SetBold { node_id: NodeId, old_bold: bool, new_bold: bool },
    SetLink { node_id: NodeId, old_link: Option<String>, new_link: Option<String> },
}

// ---------------------------------------------------------------------------
// The effect of reverting and replaying an action on the arena.

pub open spec fn not_id(x: NodeId) -> spec_fn(NodeId) -> bool {
    |c: NodeId| c != x
}

/// `cs` with every occurrence of `x` removed.
pub open spec fn without(cs: Seq<NodeId>, x: NodeId) -> Seq<NodeId> {
    cs.filter(not_id(x))
}

pub open spec fn set_children(ns: Seq<NodeView>, p: NodeId, cs: Seq<NodeId>) -> Seq<NodeView> {
    ns.update(p as int, NodeView { children: cs, ..ns[p as int] })
}

/// The arena with each saved node written back to its own slot, in order (slots
/// outside the arena are skipped).
pub open spec fn restored(ns: Seq<NodeView>, saved: Seq<NodeView>) -> Seq<NodeView>
    decreases saved.len(),
{
    if saved.len() == 0 {
        ns
    } else {
        let r = restored(ns, saved.drop_last());
        let v = saved.last();
        if v.id < r.len() {
            r.update(v.id as int, v)
        } else {
            r
        }
    }
}

/// The arena with the nodes at `ids` emptied: no children, no parent, no text.
pub open spec fn emptied(ns: Seq<NodeView>, ids: Seq<NodeId>) -> Seq<NodeView>
    decreases ids.len(),
{
    if ids.len() == 0 {
        ns
    } else {
        let r = emptied(ns, ids.drop_last());
        let i = ids.last();
        if i < r.len() {
            r.update(i as int, NodeView { children: Seq::empty(), parent: None, text: Seq::empty(), ..r[i as int] })
        } else {
            r
        }
    }
}

/// The largest of `ids`, or 0 when there is none.
pub open spec fn max_of(ids: Seq<NodeId>) -> NodeId
    decreases ids.len(),
{
    if ids.len() == 0 {
        0
    } else {
        let m = max_of(ids.drop_last());
        if ids.last() > m { ids.last() } else { m }
    }
}

/// The arena grown with empty placeholder nodes until slot `m` exists.
pub open spec fn grown(ns: Seq<NodeView>, m: NodeId) -> Seq<NodeView> {
    if m < ns.len() {
        ns
    } else {
        ns + Seq::new((m + 1 - ns.len()) as nat, |i: int| fresh_node((ns.len() + i) as NodeId, Seq::empty(), Seq::empty()))
    }
}

pub open spec fn undo_paste_entry(ns: Seq<NodeView>, e: PasteEntry) -> Seq<NodeView> {
    let a = set_children(ns, e.parent_id, without(ns[e.parent_id as int].children, e.new_root_id));
    emptied(a, e.all_new_ids@)
}

pub open spec fn undo_paste_ok(ns: Seq<NodeView>, es: Seq<PasteEntry>) -> bool
    decreases es.len(),
{
    es.len() > 0 ==> {
        &&& undo_paste_ok(ns, es.drop_last())
        &&& es.last().parent_id < ns.len()
    }
}

pub open spec fn undo_paste(ns: Seq<NodeView>, es: Seq<PasteEntry>) -> Seq<NodeView>
    decreases es.len(),
{
    if es.len() == 0 {
        ns
    } else {
        undo_paste_entry(undo_paste(ns, es.drop_last()), es.last())
    }
}

pub open spec fn redo_paste_entry(ns: Seq<NodeView>, e: PasteEntry) -> Seq<NodeView> {
    let g = grown(ns, max_of(e.all_new_ids@));
    let r = restored(g, view_nodes(e.saved_nodes@));
    set_children(r, e.parent_id, r[e.parent_id as int].children.push(e.new_root_id))
}

pub open spec fn redo_paste_ok(ns: Seq<NodeView>, es: Seq<PasteEntry>) -> bool
    decreases es.len(),
{
    es.len() > 0 ==> {
        &&& redo_paste_ok(ns, es.drop_last())
        &&& max_of(es.last().all_new_ids@) < usize::MAX
        &&& es.last().parent_id < grown(redo_paste(ns, es.drop_last()), max_of(es.last().all_new_ids@)).len()
    }
}

pub open spec fn redo_paste(ns: Seq<NodeView>, es: Seq<PasteEntry>) -> Seq<NodeView>
    decreases es.len(),
{
    if es.len() == 0 {
        ns
    } else {
        redo_paste_entry(redo_paste(ns, es.drop_last()), es.last())
    }
}

/// Whether reverting `a` on `ns` stays inside the arena (reverting it would index past the arena otherwise).
pub open spec fn undo_ok(ns: Seq<NodeView>, a: Action) -> bool
    decreases a,
{
    match a {
        Action::AddNode { node_id, parent_id } => node_id < ns.len() && parent_id < ns.len(),
        Action::DeleteSubtree { subtree, parent_id, .. } => subtree@.len() > 0 ==> parent_id < restored(ns, view_nodes(subtree@)).len(),
        Action::EditText { node_id, .. } => node_id < ns.len(),
        Action::ToggleFold { node_id } => node_id < ns.len(),
        Action::MoveSibling { parent_id, old_index, new_index, .. } => {
            &&& parent_id < ns.len()
            &&& old_index < ns[parent_id as int].children.len()
            &&& new_index < ns[parent_id as int].children.len()
        },
        Action::MoveNode { node_id, old_parent, old_child_index, new_parent, .. } => {
            &&& node_id < ns.len()
            &&& old_parent < ns.len()
            &&& new_parent < ns.len()
            &&& old_child_index <= set_children(ns, new_parent, without(ns[new_parent as int].children, node_id))[old_parent as int].children.len()
        },
        Action::PasteSubtrees { entries } => undo_paste_ok(ns, entries@),
        Action::Batch(actions) => undo_seq_ok(ns, actions@),
        Action::SetBold { node_id, .. } => node_id < ns.len(),
        Action::SetLink { node_id, .. } => node_id < ns.len(),
    }
}

/// Reverting a list of actions: the last one first.
pub open spec fn undo_seq_ok(ns: Seq<NodeView>, s: Seq<Action>) -> bool
    decreases s,
{
    s.len() > 0 ==> {
        &&& undo_ok(ns, s.last())
        &&& undo_seq_ok(undo_ns(ns, s.last()), s.drop_last())
    }
}

/// The arena after reverting `a`.
pub open spec fn undo_ns(ns: Seq<NodeView>, a: Action) -> Seq<NodeView>
    decreases a,
{
    match a {
        Action::AddNode { node_id, parent_id } => {
            let b = set_children(ns, parent_id, without(ns[parent_id as int].children, node_id));
            b.update(node_id as int, NodeView { parent: None, text: Seq::empty(), ..b[node_id as int] })
        },
        Action::DeleteSubtree { subtree, parent_id, .. } => if subtree@.len() == 0 {
            ns
        } else {
            let r = restored(ns, view_nodes(subtree@));
            set_children(r, parent_id, r[parent_id as int].children.push(subtree@[0].id))
        },
        Action::EditText { node_id, old_text, .. } => ns.update(node_id as int, NodeView { text: old_text@, ..ns[node_id as int] }),
        Action::ToggleFold { node_id } => ns.update(node_id as int, NodeView { folded: !ns[node_id as int].folded, ..ns[node_id as int] }),
        Action::MoveSibling { parent_id, old_index, new_index, .. } =>
            set_children(ns, parent_id, swapped(ns[parent_id as int].children, old_index as int, new_index as int)),
        Action::MoveNode { node_id, old_parent, old_child_index, new_parent, old_position } => {
            let a1 = set_children(ns, new_parent, without(ns[new_parent as int].children, node_id));
            let a2 = set_children(a1, old_parent, a1[old_parent as int].children.insert(old_child_index as int, node_id));
            a2.update(node_id as int, NodeView { parent: Some(old_parent), position: old_position, ..a2[node_id as int] })
        },
        Action::PasteSubtrees { entries } => undo_paste(ns, entries@),
        Action::Batch(actions) => undo_seq_ns(ns, actions@),
        Action::SetBold { node_id, old_bold, .. } => ns.update(node_id as int, NodeView { bold: old_bold, ..ns[node_id as int] }),
        Action::SetLink { node_id, old_link, .. } => ns.update(node_id as int, NodeView { link: opt_str_view(old_link), ..ns[node_id as int] }),
    }
}

pub open spec fn undo_seq_ns(ns: Seq<NodeView>, s: Seq<Action>) -> Seq<NodeView>
    decreases s,
{
    if s.len() == 0 {
        ns
    } else {
        undo_seq_ns(undo_ns(ns, s.last()), s.drop_last())
    }
}


/// The side a node moved under the root gets: right unless the right already has
/// more branches, counting the moved node under its old side.
pub open spec fn side_after_move(ns: Seq<NodeView>, root: NodeId, q: NodeId) -> Option<Side> {
    if q == root {
        if count_side(ns, ns[q as int].children, Side::Right) <= count_side(ns, ns[q as int].children, Side::Left) {
            Some(Side::Right)
        } else {
            Some(Side::Left)
        }
    } else {
        None
    }
}

/// Whether replaying `a` on `ns` stays inside the arena; replaying a deletion needs
/// a well-formed tree.
pub open spec fn redo_ok(ns: Seq<NodeView>, root: NodeId, a: Action) -> bool
    decreases a,
{
    match a {
        Action::AddNode { node_id, parent_id } => node_id < ns.len() && parent_id < ns.len(),
        Action::DeleteSubtree { subtree, .. } => subtree@.len() > 0 ==> forest_wf(ns, root) && subtree@[0].id < ns.len(),
        Action::EditText { node_id, .. } => node_id < ns.len(),
        Action::ToggleFold { node_id } => node_id < ns.len(),
        Action::MoveSibling { parent_id, old_index, new_index, .. } => {
            &&& parent_id < ns.len()
            &&& old_index < ns[parent_id as int].children.len()
            &&& new_index < ns[parent_id as int].children.len()
        },
        Action::MoveNode { node_id, old_parent, new_parent, .. } => {
            &&& node_id < ns.len()
            &&& old_parent < ns.len()
            &&& new_parent < ns.len()
            &&& new_parent == root ==> forall|k: int|
                0 <= k < ns[new_parent as int].children.len() ==> #[trigger] ns[new_parent as int].children[k] < ns.len()
        },
        Action::PasteSubtrees { entries } => redo_paste_ok(ns, entries@),
        Action::Batch(actions) => redo_seq_ok(ns, root, actions@),
        Action::SetBold { node_id, .. } => node_id < ns.len(),
        Action::SetLink { node_id, .. } => node_id < ns.len(),
    }
}

/// Replaying a list of actions: the first one first.
pub open spec fn redo_seq_ok(ns: Seq<NodeView>, root: NodeId, s: Seq<Action>) -> bool
    decreases s,
{
    s.len() > 0 ==> {
        &&& redo_seq_ok(ns, root, s.drop_last())
        &&& redo_ok(redo_seq_ns(ns, root, s.drop_last()), root, s.last())
    }
}

/// The arena after replaying `a`.
pub open spec fn redo_ns(ns: Seq<NodeView>, root: NodeId, a: Action) -> Seq<NodeView>
    decreases a,
{
    match a {
        Action::AddNode { node_id, parent_id } => {
            let b = set_children(ns, parent_id, ns[parent_id as int].children.push(node_id));
            b.update(node_id as int, NodeView { parent: Some(parent_id), ..b[node_id as int] })
        },
        Action::DeleteSubtree { subtree, .. } => if subtree@.len() == 0 || subtree@[0].id == root {
            ns
        } else {
            after_delete(ns, subtree@[0].id)
        },
        Action::EditText { node_id, new_text, .. } => ns.update(node_id as int, NodeView { text: new_text@, ..ns[node_id as int] }),
        Action::ToggleFold { node_id } => ns.update(node_id as int, NodeView { folded: !ns[node_id as int].folded, ..ns[node_id as int] }),
        Action::MoveSibling { parent_id, old_index, new_index, .. } =>
            set_children(ns, parent_id, swapped(ns[parent_id as int].children, old_index as int, new_index as int)),
        Action::MoveNode { node_id, old_parent, new_parent, .. } => {
            let a1 = set_children(ns, old_parent, without(ns[old_parent as int].children, node_id));
            let a2 = set_children(a1, new_parent, a1[new_parent as int].children.push(node_id));
            let a3 = a2.update(node_id as int, NodeView { parent: Some(new_parent), ..a2[node_id as int] });
            let a4 = a3.update(node_id as int, NodeView { position: side_after_move(a3, root, new_parent), ..a3[node_id as int] });
            a4.update(new_parent as int, NodeView { folded: false, ..a4[new_parent as int] })
        },
        Action::PasteSubtrees { entries } => redo_paste(ns, entries@),
        Action::Batch(actions) => redo_seq_ns(ns, root, actions@),
        Action::SetBold { node_id, new_bold, .. } => ns.update(node_id as int, NodeView { bold: new_bold, ..ns[node_id as int] }),
        Action::SetLink { node_id, new_link, .. } => ns.update(node_id as int, NodeView { link: opt_str_view(new_link), ..ns[node_id as int] }),
    }
}

pub open spec fn redo_seq_ns(ns: Seq<NodeView>, root: NodeId, s: Seq<Action>) -> Seq<NodeView>
    decreases s,
{
    if s.len() == 0 {
        ns
    } else {
        redo_ns(redo_seq_ns(ns, root, s.drop_last()), root, s.last())
    }
}

/// Replaying `a` deletes a subtree other than the root's, which drops the tree's
/// cached list of shown nodes.
pub open spec fn redo_drops_cache(root: NodeId, a: Action) -> bool
    decreases a,
{
    match a {
        Action::DeleteSubtree { subtree, .. } => subtree@.len() > 0 && subtree@[0].id != root,
        Action::Batch(actions) => redo_seq_drops_cache(root, actions@),
        _ => false,
    }
}

pub open spec fn redo_seq_drops_cache(root: NodeId, s: Seq<Action>) -> bool
    decreases s,
{
    s.len() > 0 && (redo_seq_drops_cache(root, s.drop_last()) || redo_drops_cache(root, s.last()))
}


// ---------------------------------------------------------------------------
// Reverting and replaying on the tree.

/// `v` without the entries equal to `x`.
fn without_vec(v: &Vec<NodeId>, x: NodeId) -> (res: Vec<NodeId>)
    ensures
        res@ == without(v@, x),
{
    let mut out: Vec<NodeId> = Vec::new();
    let mut i: usize = 0;
    while i < v.len()
        invariant
            i <= v.len(),
            out@ == v@.take(i as int).filter(not_id(x)),
        decreases v.len() - i,
    {
        if v[i] != x {
            out.push(v[i]);
        }
        proof {
            reveal(Seq::filter);
            assert(v@.take(i + 1).drop_last() =~= v@.take(i as int));
            assert(v@.take(i + 1).last() == v@[i as int]);
        }
        i = i + 1;
    }
    assert(v@.take(i as int) =~= v@);
    out
}

/// Removes every `x` from the child list of `p`.
fn drop_child(tree: &mut MindmapTree, p: NodeId, x: NodeId)
    requires
        p < old(tree).nodes.len(),
    ensures
        final(tree).ns() == set_children(old(tree).ns(), p, without(old(tree).ns()[p as int].children, x)),
        final(tree).cache() == old(tree).cache(),
        final(tree).same_settings(old(tree)),
{
    let kept = without_vec(&tree.nodes[p].children, x);
    tree.nodes[p].children = kept;
    assert(tree.ns() =~= set_children(old(tree).ns(), p, without(old(tree).ns()[p as int].children, x)));
}

/// Writes each saved node back to its slot, skipping slots outside the arena.
fn restore_nodes(tree: &mut MindmapTree, saved: &Vec<MindmapNode>)
    ensures
        final(tree).ns() == restored(old(tree).ns(), view_nodes(saved@)),
        final(tree).cache() == old(tree).cache(),
        final(tree).same_settings(old(tree)),
{
    let ghost vs = view_nodes(saved@);
    let mut i: usize = 0;
    while i < saved.len()
        invariant
            vs == view_nodes(saved@),
            i <= saved.len(),
            tree.ns() == restored(old(tree).ns(), vs.take(i as int)),
            tree.cache() == old(tree).cache(),
            tree.same_settings(old(tree)),
        decreases saved.len() - i,
    {
        let ghost before = tree.ns();
        let id = saved[i].id;
        proof {
            assert(vs.take(i + 1).drop_last() =~= vs.take(i as int));
            assert(vs.take(i + 1).last() == saved@[i as int]@);
        }
        if id < tree.nodes.len() {
            let copy = saved[i].duplicate();
            tree.nodes.set(id, copy);
            assert(tree.ns() =~= before.update(id as int, saved@[i as int]@));
        }
        i = i + 1;
    }
    assert(vs.take(i as int) =~= vs);
}

/// Empties the nodes at `ids` that are in the arena.
fn empty_nodes(tree: &mut MindmapTree, ids: &Vec<NodeId>)
    ensures
        final(tree).ns() == emptied(old(tree).ns(), ids@),
        final(tree).cache() == old(tree).cache(),
        final(tree).same_settings(old(tree)),
{
    let mut i: usize = 0;
    while i < ids.len()
        invariant
            i <= ids.len(),
            tree.ns() == emptied(old(tree).ns(), ids@.take(i as int)),
            tree.cache() == old(tree).cache(),
            tree.same_settings(old(tree)),
        decreases ids.len() - i,
    {
        let ghost before = tree.ns();
        let id = ids[i];
        proof {
            assert(ids@.take(i + 1).drop_last() =~= ids@.take(i as int));
            assert(ids@.take(i + 1).last() == id);
        }
        if id < tree.nodes.len() {
            tree.nodes[id].children = Vec::new();
            tree.nodes[id].parent = None;
            tree.nodes[id].text = String::new();
            assert(tree.ns() =~= before.update(
                id as int,
                NodeView { children: Seq::empty(), parent: None, text: Seq::empty(), ..before[id as int] },
            ));
        }
        i = i + 1;
    }
    assert(ids@.take(i as int) =~= ids@);
}

fn max_id(ids: &Vec<NodeId>) -> (res: NodeId)
    ensures
        res == max_of(ids@),
{
    let mut m: NodeId = 0;
    let mut i: usize = 0;
    while i < ids.len()
        invariant
            i <= ids.len(),
            m == max_of(ids@.take(i as int)),
        decreases ids.len() - i,
    {
        proof {
            assert(ids@.take(i + 1).drop_last() =~= ids@.take(i as int));
        }
        if ids[i] > m {
            m = ids[i];
        }
        i = i + 1;
    }
    assert(ids@.take(i as int) =~= ids@);
    m
}

/// Appends empty placeholder nodes until slot `m` exists.
fn grow_to(tree: &mut MindmapTree, m: NodeId)
    requires
        m < usize::MAX,
    ensures
        final(tree).ns() == grown(old(tree).ns(), m),
        final(tree).cache() == old(tree).cache(),
        final(tree).same_settings(old(tree)),
{
    let ghost start = old(tree).ns();
    while tree.nodes.len() <= m
        invariant
            m < usize::MAX,
            start.len() <= tree.nodes.len(),
            start.len() <= m + 1 ==> tree.nodes.len() <= m + 1,
            m < start.len() ==> tree.nodes.len() == start.len(),
            tree.ns() == start + Seq::new(
                (tree.nodes.len() - start.len()) as nat,
                |i: int| fresh_node((start.len() + i) as NodeId, Seq::empty(), Seq::empty()),
            ),
            tree.cache() == old(tree).cache(),
            tree.same_settings(old(tree)),
        decreases m + 1 - tree.nodes.len(),
    {
        let ghost before = tree.ns();
        let pid = tree.nodes.len();
        tree.nodes.push(MindmapNode::new(pid, String::new(), String::new()));
        assert(tree.ns() =~= before.push(fresh_node(pid as NodeId, Seq::empty(), Seq::empty())));
        assert(tree.ns() =~= start + Seq::new(
            (tree.nodes.len() - start.len()) as nat,
            |i: int| fresh_node((start.len() + i) as NodeId, Seq::empty(), Seq::empty()),
        ));
    }
    proof {
        if m < start.len() {
            assert(tree.ns() =~= start + Seq::new(0, |i: int| fresh_node((start.len() + i) as NodeId, Seq::empty(), Seq::empty())));
            assert(tree.ns() =~= start);
        }
    }
}


/// The actions of a batch (empty for any other action).
pub open spec fn batch_items(a: Action) -> Seq<Action> {
    match a {
        Action::Batch(v) => v@,
        _ => Seq::empty(),
    }
}

proof fn lemma_batch_decreases(a: Action, i: int)
    requires
        0 <= i < batch_items(a).len(),
    ensures
        decreases_to!(a => batch_items(a)[i]),
{
    match a {
        Action::Batch(v) => {
            assert(decreases_to!(a => v));
            assert(decreases_to!(v => v@));
            assert(decreases_to!(v@ => v@[i]));
        },
        _ => {},
    }
}

fn reverse_add(tree: &mut MindmapTree, node_id: NodeId, parent_id: NodeId)
    requires
        node_id < old(tree).nodes.len(),
        parent_id < old(tree).nodes.len(),
    ensures
        final(tree).ns() == undo_ns(old(tree).ns(), Action::AddNode { node_id, parent_id }),
        final(tree).cache() == old(tree).cache(),
        final(tree).same_settings(old(tree)),
{
    let ghost ns = tree.ns();
    drop_child(tree, parent_id, node_id);
    let ghost b = tree.ns();
    assert(b.len() == ns.len());
    tree.nodes[node_id].parent = None;
    tree.nodes[node_id].text = String::new();
    assert(tree.ns() =~= b.update(node_id as int, NodeView { parent: None, text: Seq::empty(), ..b[node_id as int] }));
}

fn reverse_delete(tree: &mut MindmapTree, subtree: &Vec<MindmapNode>, parent_id: NodeId)
    requires
        subtree@.len() > 0 ==> parent_id < restored(old(tree).ns(), view_nodes(subtree@)).len(),
    ensures
        final(tree).ns() == (if subtree@.len() == 0 {
            old(tree).ns()
        } else {
            let r = restored(old(tree).ns(), view_nodes(subtree@));
            set_children(r, parent_id, r[parent_id as int].children.push(subtree@[0].id))
        }),
        final(tree).cache() == old(tree).cache(),
        final(tree).same_settings(old(tree)),
{
    if subtree.len() > 0 {
        let root_id = subtree[0].id;
        restore_nodes(tree, subtree);
        let ghost r = tree.ns();
        tree.nodes[parent_id].children.push(root_id);
        assert(tree.ns() =~= set_children(r, parent_id, r[parent_id as int].children.push(root_id)));
    }
}

fn reverse_move_node(
    tree: &mut MindmapTree,
    node_id: NodeId,
    old_parent: NodeId,
    old_child_index: usize,
    new_parent: NodeId,
    old_position: Option<Side>,
)
    requires
        undo_ok(old(tree).ns(), Action::MoveNode { node_id, old_parent, old_child_index, new_parent, old_position }),
    ensures
        final(tree).ns() == undo_ns(old(tree).ns(), Action::MoveNode { node_id, old_parent, old_child_index, new_parent, old_position }),
        final(tree).cache() == old(tree).cache(),
        final(tree).same_settings(old(tree)),
{
    let ghost ns = tree.ns();
    drop_child(tree, new_parent, node_id);
    let ghost a1 = tree.ns();
    assert(a1.len() == ns.len());
    assert(tree.nodes@[old_parent as int].children@ == a1[old_parent as int].children);
    tree.nodes[old_parent].children.insert(old_child_index, node_id);
    let ghost a2 = tree.ns();
    assert(a2 =~= set_children(a1, old_parent, a1[old_parent as int].children.insert(old_child_index as int, node_id)));
    tree.nodes[node_id].parent = Some(old_parent);
    tree.nodes[node_id].position = old_position;
    assert(tree.ns() =~= a2.update(node_id as int, NodeView { parent: Some(old_parent), position: old_position, ..a2[node_id as int] }));
}

fn reverse_paste(tree: &mut MindmapTree, entries: &Vec<PasteEntry>)
    requires
        undo_paste_ok(old(tree).ns(), entries@),
    ensures
        final(tree).ns() == undo_paste(old(tree).ns(), entries@),
        final(tree).cache() == old(tree).cache(),
        final(tree).same_settings(old(tree)),
{
    let ghost ns = tree.ns();
    let mut i: usize = 0;
    while i < entries.len()
        invariant
            i <= entries.len(),
            undo_paste_ok(ns, entries@),
            tree.ns() == undo_paste(ns, entries@.take(i as int)),
            tree.ns().len() == ns.len(),
            tree.cache() == old(tree).cache(),
            tree.same_settings(old(tree)),
        decreases entries.len() - i,
    {
        proof {
            assert(entries@.take(i + 1).drop_last() =~= entries@.take(i as int));
            lemma_undo_paste_ok_prefix(ns, entries@, i + 1);
            lemma_undo_paste_len(ns, entries@.take(i + 1));
        }
        let e = &entries[i];
        drop_child(tree, e.parent_id, e.new_root_id);
        empty_nodes(tree, &e.all_new_ids);
        i = i + 1;
    }
    assert(entries@.take(i as int) =~= entries@);
}

/// Reverts `action` on the tree.
#[verifier::rlimit(30)]
pub fn apply_reverse(tree: &mut MindmapTree, action: &Action)
    requires
        undo_ok(old(tree).ns(), *action),
    ensures
        final(tree).ns() == undo_ns(old(tree).ns(), *action),
        final(tree).cache() == old(tree).cache(),
        final(tree).same_settings(old(tree)),
    decreases action,
{
    let ghost ns = tree.ns();
    match action {
        Action::AddNode { node_id, parent_id } => {
            reverse_add(tree, *node_id, *parent_id);
        },
        Action::DeleteSubtree { subtree, parent_id, .. } => {
            reverse_delete(tree, subtree, *parent_id);
        },
        Action::EditText { node_id, old_text, .. } => {
            tree.nodes[*node_id].text = old_text.clone();
            assert(tree.ns() =~= ns.update(*node_id as int, NodeView { text: old_text@, ..ns[*node_id as int] }));
        },
        Action::ToggleFold { node_id } => {
            let f = tree.nodes[*node_id].folded;
            tree.nodes[*node_id].folded = !f;
            assert(tree.ns() =~= ns.update(*node_id as int, NodeView { folded: !ns[*node_id as int].folded, ..ns[*node_id as int] }));
        },
        Action::MoveSibling { parent_id, old_index, new_index, .. } => {
            swap_children(tree, *parent_id, *old_index, *new_index);
        },
        Action::MoveNode { node_id, old_parent, old_child_index, new_parent, old_position } => {
            reverse_move_node(tree, *node_id, *old_parent, *old_child_index, *new_parent, *old_position);
        },
        Action::PasteSubtrees { entries } => {
            reverse_paste(tree, entries);
        },
        Action::Batch(actions) => {
            let mut i: usize = actions.len();
            assert(actions@.take(i as int) =~= actions@);
            while i > 0
                invariant
                    i <= actions.len(),
                    actions@ == batch_items(*action),
                    undo_seq_ok(tree.ns(), actions@.take(i as int)),
                    undo_seq_ns(tree.ns(), actions@.take(i as int)) == undo_seq_ns(ns, actions@),
                    tree.cache() == old(tree).cache(),
                    tree.same_settings(old(tree)),
                decreases i,
            {
                proof {
                    assert(actions@.take(i as int).drop_last() =~= actions@.take(i - 1));
                    assert(actions@.take(i as int).last() == actions@[i - 1]);
                    lemma_batch_decreases(*action, i - 1);
                }
                apply_reverse(tree, &actions[i - 1]);
                i = i - 1;
            }
            assert(actions@.take(0) =~= Seq::<Action>::empty());
        },
        Action::SetBold { node_id, old_bold, .. } => {
            tree.nodes[*node_id].bold = *old_bold;
            assert(tree.ns() =~= ns.update(*node_id as int, NodeView { bold: *old_bold, ..ns[*node_id as int] }));
        },
        Action::SetLink { node_id, old_link, .. } => {
            tree.nodes[*node_id].link = clone_opt_string(old_link);
            assert(tree.ns() =~= ns.update(*node_id as int, NodeView { link: opt_str_view(*old_link), ..ns[*node_id as int] }));
        },
    }
}

/// A working copy of the tree with the same nodes.
fn scratch_copy(tree: &MindmapTree) -> (res: MindmapTree)
    ensures
        res.ns() == tree.ns(),
{
    let mut nodes: Vec<MindmapNode> = Vec::new();
    let mut i: usize = 0;
    while i < tree.nodes.len()
        invariant
            i <= tree.nodes.len(),
            nodes.len() == i,
            forall|j: int| 0 <= j < i ==> (#[trigger] nodes@[j])@ == tree.nodes@[j]@,
        decreases tree.nodes.len() - i,
    {
        nodes.push(tree.nodes[i].duplicate());
        i = i + 1;
    }
    let res = MindmapTree::new(nodes, tree.root);
    assert(res.ns() =~= tree.ns());
    res
}

/// Whether reverting `action` on `tree` stays inside the arena; a batch is
/// tried out on a working copy, its last action first.
fn check_undo(tree: &MindmapTree, action: &Action) -> (res: bool)
    ensures
        res == undo_ok(tree.ns(), *action),
    decreases action,
{
    let len = tree.nodes.len();
    match action {
        Action::AddNode { node_id, parent_id } => *node_id < len && *parent_id < len,
        Action::DeleteSubtree { subtree, parent_id, .. } => {
            proof {
                lemma_restored_len(tree.ns(), view_nodes(subtree@));
            }
            subtree.len() == 0 || *parent_id < len
        },
        Action::EditText { node_id, .. } => *node_id < len,
        Action::ToggleFold { node_id } => *node_id < len,
        Action::SetBold { node_id, .. } => *node_id < len,
        Action::SetLink { node_id, .. } => *node_id < len,
        Action::MoveSibling { parent_id, old_index, new_index, .. } => {
            *parent_id < len && *old_index < tree.nodes[*parent_id].children.len()
                && *new_index < tree.nodes[*parent_id].children.len()
        },
        Action::MoveNode { node_id, old_parent, old_child_index, new_parent, .. } => {
            if !(*node_id < len && *old_parent < len && *new_parent < len) {
                return false;
            }
            let room = if *old_parent == *new_parent {
                without_vec(&tree.nodes[*new_parent].children, *node_id).len()
            } else {
                tree.nodes[*old_parent].children.len()
            };
            *old_child_index <= room
        },
        Action::PasteSubtrees { entries } => {
            let ghost ns = tree.ns();
            assert(undo_ok(ns, *action) == undo_paste_ok(ns, entries@));
            let mut i: usize = 0;
            assert(entries@.take(0) =~= Seq::<PasteEntry>::empty());
            while i < entries.len()
                invariant
                    i <= entries.len(),
                    len == ns.len(),
                    ns == tree.ns(),
                    undo_ok(ns, *action) == undo_paste_ok(ns, entries@),
                    undo_paste_ok(ns, entries@.take(i as int)),
                decreases entries.len() - i,
            {
                assert(entries@.take(i + 1).drop_last() =~= entries@.take(i as int));
                assert(entries@.take(i + 1).last() == entries@[i as int]);
                if !(entries[i].parent_id < len) {
                    proof {
                        assert(!undo_paste_ok(ns, entries@.take(i + 1)));
                        if undo_paste_ok(ns, entries@) {
                            lemma_undo_paste_ok_prefix(ns, entries@, i + 1);
                        }
                        assert(!undo_ok(ns, *action));
                    }
                    return false;
                }
                i = i + 1;
            }
            assert(entries@.take(i as int) =~= entries@);
            true
        },
        Action::Batch(actions) => {
            let mut work = scratch_copy(tree);
            let mut i: usize = actions.len();
            assert(actions@.take(i as int) =~= actions@);
            while i > 0
                invariant
                    i <= actions.len(),
                    actions@ == batch_items(*action),
                    undo_ok(tree.ns(), *action) == undo_seq_ok(work.ns(), actions@.take(i as int)),
                decreases i,
            {
                proof {
                    assert(actions@.take(i as int).drop_last() =~= actions@.take(i - 1));
                    assert(actions@.take(i as int).last() == actions@[i - 1]);
                    lemma_batch_decreases(*action, i - 1);
                }
                if !check_undo(&work, &actions[i - 1]) {
                    return false;
                }
                apply_reverse(&mut work, &actions[i - 1]);
                i = i - 1;
            }
            assert(actions@.take(0) =~= Seq::<Action>::empty());
            true
        },
    }
}

/// Exchanges two entries of `p`'s child list.
fn swap_children(tree: &mut MindmapTree, p: NodeId, i: usize, j: usize)
    requires
        p < old(tree).nodes.len(),
        i < old(tree).ns()[p as int].children.len(),
        j < old(tree).ns()[p as int].children.len(),
    ensures
        final(tree).ns() == set_children(old(tree).ns(), p, swapped(old(tree).ns()[p as int].children, i as int, j as int)),
        final(tree).cache() == old(tree).cache(),
        final(tree).same_settings(old(tree)),
{
    let a = tree.nodes[p].children[i];
    let b = tree.nodes[p].children[j];
    tree.nodes[p].children.set(i, b);
    tree.nodes[p].children.set(j, a);
    assert(tree.ns() =~= set_children(old(tree).ns(), p, swapped(old(tree).ns()[p as int].children, i as int, j as int)));
}

proof fn lemma_undo_paste_len(ns: Seq<NodeView>, es: Seq<PasteEntry>)
    requires
        undo_paste_ok(ns, es),
    ensures
        undo_paste(ns, es).len() == ns.len(),
    decreases es.len(),
{
    if es.len() > 0 {
        lemma_undo_paste_len(ns, es.drop_last());
        let u = undo_paste(ns, es.drop_last());
        let e = es.last();
        let a = set_children(u, e.parent_id, without(u[e.parent_id as int].children, e.new_root_id));
        assert(a.len() == u.len());
        lemma_emptied_len(a, e.all_new_ids@);
    }
}

proof fn lemma_emptied_len(ns: Seq<NodeView>, ids: Seq<NodeId>)
    ensures
        emptied(ns, ids).len() == ns.len(),
    decreases ids.len(),
{
    if ids.len() > 0 {
        lemma_emptied_len(ns, ids.drop_last());
    }
}

proof fn lemma_undo_paste_ok_prefix(ns: Seq<NodeView>, es: Seq<PasteEntry>, k: int)
    requires
        undo_paste_ok(ns, es),
        0 <= k <= es.len(),
    ensures
        undo_paste_ok(ns, es.take(k)),
    decreases es.len() - k,
{
    if k < es.len() {
        assert(es.drop_last().take(k) =~= es.take(k));
        lemma_undo_paste_ok_prefix(ns, es.drop_last(), k);
    } else {
        assert(es.take(k) =~= es);
    }
}


proof fn lemma_redo_seq_ok_prefix(ns: Seq<NodeView>, root: NodeId, s: Seq<Action>, k: int)
    requires
        redo_seq_ok(ns, root, s),
        0 <= k <= s.len(),
    ensures
        redo_seq_ok(ns, root, s.take(k)),
    decreases s.len() - k,
{
    if k < s.len() {
        assert(s.drop_last().take(k) =~= s.take(k));
        lemma_redo_seq_ok_prefix(ns, root, s.drop_last(), k);
    } else {
        assert(s.take(k) =~= s);
    }
}

proof fn lemma_redo_paste_ok_prefix(ns: Seq<NodeView>, es: Seq<PasteEntry>, k: int)
    requires
        redo_paste_ok(ns, es),
        0 <= k <= es.len(),
    ensures
        redo_paste_ok(ns, es.take(k)),
    decreases es.len() - k,
{
    if k < es.len() {
        assert(es.drop_last().take(k) =~= es.take(k));
        lemma_redo_paste_ok_prefix(ns, es.drop_last(), k);
    } else {
        assert(es.take(k) =~= es);
    }
}

proof fn lemma_restored_len(ns: Seq<NodeView>, saved: Seq<NodeView>)
    ensures
        restored(ns, saved).len() == ns.len(),
    decreases saved.len(),
{
    if saved.len() > 0 {
        lemma_restored_len(ns, saved.drop_last());
    }
}

/// Counts the children of `q` on the right and on the left.
fn count_sides(tree: &MindmapTree, q: NodeId) -> (res: (usize, usize))
    requires
        q < tree.nodes.len(),
        forall|k: int| 0 <= k < tree.ns()[q as int].children.len() ==> #[trigger] tree.ns()[q as int].children[k] < tree.nodes.len(),
    ensures
        res.0 == count_side(tree.ns(), tree.ns()[q as int].children, Side::Right),
        res.1 == count_side(tree.ns(), tree.ns()[q as int].children, Side::Left),
{
    let ghost ns = tree.ns();
    let children = &tree.nodes[q].children;
    let mut right: usize = 0;
    let mut left: usize = 0;
    let mut i: usize = 0;
    assert forall|k: int| 0 <= k < children@.len() implies #[trigger] children@[k] < tree.nodes.len() by {
        assert(children@[k] == ns[q as int].children[k]);
    }
    while i < children.len()
        invariant
            ns == tree.ns(),
            q < tree.nodes.len(),
            children@ == ns[q as int].children,
            forall|k: int| 0 <= k < children@.len() ==> #[trigger] children@[k] < tree.nodes.len(),
            i <= children.len(),
            right as nat == count_side(ns, children@.take(i as int), Side::Right),
            left as nat == count_side(ns, children@.take(i as int), Side::Left),
            right <= i,
            left <= i,
        decreases children.len() - i,
    {
        let c = children[i];
        assert(children@.take(i + 1).drop_last() =~= children@.take(i as int));
        let pos = tree.nodes[c].position;
        assert(pos == ns[c as int].position);
        if pos == Some(Side::Right) {
            right = right + 1;
        } else if pos == Some(Side::Left) {
            left = left + 1;
        }
        i = i + 1;
    }
    assert(children@.take(i as int) =~= children@);
    (right, left)
}

fn forward_add(tree: &mut MindmapTree, node_id: NodeId, parent_id: NodeId)
    requires
        node_id < old(tree).nodes.len(),
        parent_id < old(tree).nodes.len(),
    ensures
        final(tree).ns() == redo_ns(old(tree).ns(), old(tree).root, Action::AddNode { node_id, parent_id }),
        final(tree).cache() == old(tree).cache(),
        final(tree).same_settings(old(tree)),
{
    let ghost ns = tree.ns();
    tree.nodes[parent_id].children.push(node_id);
    let ghost b = tree.ns();
    assert(b =~= set_children(ns, parent_id, ns[parent_id as int].children.push(node_id)));
    tree.nodes[node_id].parent = Some(parent_id);
    assert(tree.ns() =~= b.update(node_id as int, NodeView { parent: Some(parent_id), ..b[node_id as int] }));
}

#[verifier::rlimit(30)]
fn forward_move_node(tree: &mut MindmapTree, node_id: NodeId, old_parent: NodeId, new_parent: NodeId)
    requires
        redo_ok(old(tree).ns(), old(tree).root, Action::MoveNode { node_id, old_parent, old_child_index: 0, new_parent, old_position: None }),
    ensures
        final(tree).ns() == redo_ns(old(tree).ns(), old(tree).root, Action::MoveNode { node_id, old_parent, old_child_index: 0, new_parent, old_position: None }),
        final(tree).cache() == old(tree).cache(),
        final(tree).same_settings(old(tree)),
{
    let ghost ns = tree.ns();
    let ghost root = tree.root;
    drop_child(tree, old_parent, node_id);
    let ghost a1 = tree.ns();
    assert(a1.len() == ns.len());
    tree.nodes[new_parent].children.push(node_id);
    let ghost a2 = tree.ns();
    assert(a2 =~= set_children(a1, new_parent, a1[new_parent as int].children.push(node_id)));
    tree.nodes[node_id].parent = Some(new_parent);
    let ghost a3 = tree.ns();
    assert(a3 =~= a2.update(node_id as int, NodeView { parent: Some(new_parent), ..a2[node_id as int] }));
    let pos = if new_parent == tree.root {
        proof {
            assert forall|k: int| 0 <= k < a3[new_parent as int].children.len() implies #[trigger] a3[new_parent as int].children[k] < a3.len() by {
                let cs = a3[new_parent as int].children;
                let orig = ns[new_parent as int].children;
                assert(a3.len() == ns.len());
                if k == cs.len() - 1 {
                    assert(cs[k] == node_id);
                } else if new_parent == old_parent {
                    let w = without(orig, node_id);
                    assert(cs[k] == w[k]);
                    assert(w.contains(w[k]));
                    orig.lemma_filter_contains_rev(not_id(node_id), w[k]);
                    assert(orig.contains(w[k]));
                    let j = choose|j: int| 0 <= j < orig.len() && orig[j] == w[k];
                    assert(orig[j] < ns.len());
                } else {
                    assert(cs[k] == orig[k]);
                    assert(orig[k] < ns.len());
                }
            }
        }
        let (right, left) = count_sides(tree, new_parent);
        if right <= left { Some(Side::Right) } else { Some(Side::Left) }
    } else {
        None
    };
    assert(pos == side_after_move(a3, root, new_parent));
    tree.nodes[node_id].position = pos;
    let ghost a4 = tree.ns();
    assert(a4 =~= a3.update(node_id as int, NodeView { position: pos, ..a3[node_id as int] }));
    tree.nodes[new_parent].folded = false;
    assert(tree.ns() =~= a4.update(new_parent as int, NodeView { folded: false, ..a4[new_parent as int] }));
}

fn forward_paste(tree: &mut MindmapTree, entries: &Vec<PasteEntry>)
    requires
        redo_paste_ok(old(tree).ns(), entries@),
    ensures
        final(tree).ns() == redo_paste(old(tree).ns(), entries@),
        final(tree).cache() == old(tree).cache(),
        final(tree).same_settings(old(tree)),
{
    let ghost ns = tree.ns();
    let mut i: usize = 0;
    while i < entries.len()
        invariant
            i <= entries.len(),
            redo_paste_ok(ns, entries@),
            tree.ns() == redo_paste(ns, entries@.take(i as int)),
            tree.cache() == old(tree).cache(),
            tree.same_settings(old(tree)),
        decreases entries.len() - i,
    {
        proof {
            assert(entries@.take(i + 1).drop_last() =~= entries@.take(i as int));
            lemma_redo_paste_ok_prefix(ns, entries@, i + 1);
        }
        let e = &entries[i];
        let m = max_id(&e.all_new_ids);
        grow_to(tree, m);
        restore_nodes(tree, &e.saved_nodes);
        let ghost r = tree.ns();
        proof {
            lemma_restored_len(grown(redo_paste(ns, entries@.take(i as int)), m), view_nodes(e.saved_nodes@));
        }
        tree.nodes[e.parent_id].children.push(e.new_root_id);
        assert(tree.ns() =~= set_children(r, e.parent_id, r[e.parent_id as int].children.push(e.new_root_id)));
        i = i + 1;
    }
    assert(entries@.take(i as int) =~= entries@);
}

/// Replays `action` on the tree.
#[verifier::rlimit(30)]
pub fn apply_forward(tree: &mut MindmapTree, action: &Action)
    requires
        redo_ok(old(tree).ns(), old(tree).root, *action),
    ensures
        final(tree).ns() == redo_ns(old(tree).ns(), old(tree).root, *action),
        final(tree).cache() == if redo_drops_cache(old(tree).root, *action) { None } else { old(tree).cache() },
        final(tree).same_settings(old(tree)),
    decreases action,
{
    let ghost ns = tree.ns();
    match action {
        Action::AddNode { node_id, parent_id } => {
            forward_add(tree, *node_id, *parent_id);
        },
        Action::DeleteSubtree { subtree, .. } => {
            if subtree.len() > 0 {
                let _ = tree.delete_subtree(subtree[0].id);
            }
        },
        Action::EditText { node_id, new_text, .. } => {
            tree.nodes[*node_id].text = new_text.clone();
            assert(tree.ns() =~= ns.update(*node_id as int, NodeView { text: new_text@, ..ns[*node_id as int] }));
        },
        Action::ToggleFold { node_id } => {
            let f = tree.nodes[*node_id].folded;
            tree.nodes[*node_id].folded = !f;
            assert(tree.ns() =~= ns.update(*node_id as int, NodeView { folded: !ns[*node_id as int].folded, ..ns[*node_id as int] }));
        },
        Action::MoveSibling { parent_id, old_index, new_index, .. } => {
            swap_children(tree, *parent_id, *old_index, *new_index);
        },
        Action::MoveNode { node_id, old_parent, new_parent, .. } => {
            forward_move_node(tree, *node_id, *old_parent, *new_parent);
        },
        Action::PasteSubtrees { entries } => {
            forward_paste(tree, entries);
        },
        Action::Batch(actions) => {
            let ghost root = tree.root;
            let mut i: usize = 0;
            assert(actions@.take(0) =~= Seq::<Action>::empty());
            while i < actions.len()
                invariant
                    i <= actions.len(),
                    actions@ == batch_items(*action),
                    root == tree.root,
                    redo_seq_ok(ns, root, actions@),
                    tree.ns() == redo_seq_ns(ns, root, actions@.take(i as int)),
                    tree.cache() == if redo_seq_drops_cache(root, actions@.take(i as int)) { None } else { old(tree).cache() },
                    tree.same_settings(old(tree)),
                decreases actions.len() - i,
            {
                proof {
                    assert(actions@.take(i + 1).drop_last() =~= actions@.take(i as int));
                    assert(actions@.take(i + 1).last() == actions@[i as int]);
                    lemma_redo_seq_ok_prefix(ns, root, actions@, i + 1);
                    lemma_batch_decreases(*action, i as int);
                }
                apply_forward(tree, &actions[i]);
                i = i + 1;
            }
            assert(actions@.take(i as int) =~= actions@);
        },
        Action::SetBold { node_id, new_bold, .. } => {
            tree.nodes[*node_id].bold = *new_bold;
            assert(tree.ns() =~= ns.update(*node_id as int, NodeView { bold: *new_bold, ..ns[*node_id as int] }));
        },
        Action::SetLink { node_id, new_link, .. } => {
            tree.nodes[*node_id].link = clone_opt_string(new_link);
            assert(tree.ns() =~= ns.update(*node_id as int, NodeView { link: opt_str_view(*new_link), ..ns[*node_id as int] }));
        },
    }
}


// ---------------------------------------------------------------------------
// The two stacks.

/// Undo and redo stacks, and whether anything changed since the last save.
pub struct History {
    undo_stack: Vec<Action>,
    redo_stack: Vec<Action>,
    dirty: bool,
}

impl History {
    /// The actions that can be undone, the most recent last.
    pub closed spec fn undo_actions(&self) -> Seq<Action> {
        self.undo_stack@
    }

    /// The actions that can be redone, the next one last.
    pub closed spec fn redo_actions(&self) -> Seq<Action> {
        self.redo_stack@
    }

    pub closed spec fn dirty_flag(&self) -> bool {
        self.dirty
    }

    pub fn new() -> (res: Self)
        ensures
            res.undo_actions().len() == 0,
            res.redo_actions().len() == 0,
            !res.dirty_flag(),
    {
        History { undo_stack: Vec::new(), redo_stack: Vec::new(), dirty: false }
    }

    /// Records a new action: it becomes undoable and nothing can be redone.
    pub fn push(&mut self, action: Action)
        ensures
            final(self).undo_actions() == old(self).undo_actions().push(action),
            final(self).redo_actions().len() == 0,
            final(self).dirty_flag(),
    {
        self.undo_stack.push(action);
        self.redo_stack = Vec::new();
        self.dirty = true;
    }

    /// Reverts the most recent action and moves it to the redo stack. Returns
    /// `false`, changing nothing, when there is nothing to undo.
    pub fn undo(&mut self, tree: &mut MindmapTree) -> (res: bool)
        requires
            old(self).undo_actions().len() > 0 ==> undo_ok(old(tree).ns(), old(self).undo_actions().last()),
        ensures
            res == (old(self).undo_actions().len() > 0),
            !res ==> {
                &&& final(self).undo_actions() == old(self).undo_actions()
                &&& final(self).redo_actions() == old(self).redo_actions()
                &&& final(self).dirty_flag() == old(self).dirty_flag()
                &&& *final(tree) == *old(tree)
            },
            res ==> {
                let a = old(self).undo_actions().last();
                &&& final(self).undo_actions() == old(self).undo_actions().drop_last()
                &&& final(self).redo_actions() == old(self).redo_actions().push(a)
                &&& final(self).dirty_flag()
                &&& final(tree).ns() == undo_ns(old(tree).ns(), a)
                &&& final(tree).cache() == old(tree).cache()
                &&& final(tree).same_settings(old(tree))
            },
    {
        match self.undo_stack.pop() {
            Some(action) => {
                apply_reverse(tree, &action);
                self.redo_stack.push(action);
                self.dirty = true;
                true
            },
            None => false,
        }
    }

    /// Replays the most recently undone action and moves it back to the undo
    /// stack. Returns `false`, changing nothing, when there is nothing to redo.
    pub fn redo(&mut self, tree: &mut MindmapTree) -> (res: bool)
        requires
            old(self).redo_actions().len() > 0 ==> redo_ok(old(tree).ns(), old(tree).root, old(self).redo_actions().last()),
        ensures
            res == (old(self).redo_actions().len() > 0),
            !res ==> {
                &&& final(self).undo_actions() == old(self).undo_actions()
                &&& final(self).redo_actions() == old(self).redo_actions()
                &&& final(self).dirty_flag() == old(self).dirty_flag()
                &&& *final(tree) == *old(tree)
            },
            res ==> {
                let a = old(self).redo_actions().last();
                &&& final(self).redo_actions() == old(self).redo_actions().drop_last()
                &&& final(self).undo_actions() == old(self).undo_actions().push(a)
                &&& final(self).dirty_flag()
                &&& final(tree).ns() == redo_ns(old(tree).ns(), old(tree).root, a)
                &&& final(tree).cache() == if redo_drops_cache(old(tree).root, a) { None } else { old(tree).cache() }
                &&& final(tree).same_settings(old(tree))
            },
    {
        match self.redo_stack.pop() {
            Some(action) => {
                apply_forward(tree, &action);
                self.undo_stack.push(action);
                self.dirty = true;
                true
            },
            None => false,
        }
    }

    pub fn can_undo(&self) -> (res: bool)
        ensures
            res == (self.undo_actions().len() > 0),
    {
        !self.undo_stack.is_empty()
    }

    /// Whether the most recent action can be reverted on `tree` (true when
    /// there is none): what `undo` asks of its caller.
    pub fn undo_fits(&self, tree: &MindmapTree) -> (res: bool)
        ensures
            res == (self.undo_actions().len() > 0 ==> undo_ok(tree.ns(), self.undo_actions().last())),
    {
        let n = self.undo_stack.len();
        if n == 0 {
            true
        } else {
            check_undo(tree, &self.undo_stack[n - 1])
        }
    }

    pub fn can_redo(&self) -> (res: bool)
        ensures
            res == (self.redo_actions().len() > 0),
    {
        !self.redo_stack.is_empty()
    }

    pub fn is_dirty(&self) -> (res: bool)
        ensures
            res == self.dirty_flag(),
    {
        self.dirty
    }

    /// Marks the current state as saved.
    pub fn mark_clean(&mut self)
        ensures
            !final(self).dirty_flag(),
            final(self).undo_actions() == old(self).undo_actions(),
            final(self).redo_actions() == old(self).redo_actions(),
    {
        self.dirty = false;
    }
}

impl Default for History {
    fn default() -> (res: Self)
        ensures
            res.undo_actions().len() == 0,
            res.redo_actions().len() == 0,
            !res.dirty_flag(),
    {
        Self::new()
    }
}


// ---------------------------------------------------------------------------
// Laws.

/// For the attribute edits (text, fold, sibling order, bold, link): the arena
/// holds the state from before the action.
pub open spec fn holds_before(ns: Seq<NodeView>, a: Action) -> bool {
    match a {
        Action::EditText { node_id, old_text, .. } => node_id < ns.len() && ns[node_id as int].text == old_text@,
        Action::ToggleFold { node_id } => node_id < ns.len(),
        Action::MoveSibling { parent_id, old_index, new_index, .. } => {
            &&& parent_id < ns.len()
            &&& old_index < ns[parent_id as int].children.len()
            &&& new_index < ns[parent_id as int].children.len()
        },
        Action::SetBold { node_id, old_bold, .. } => node_id < ns.len() && ns[node_id as int].bold == old_bold,
        Action::SetLink { node_id, old_link, .. } => node_id < ns.len() && ns[node_id as int].link == opt_str_view(old_link),
        _ => false,
    }
}

/// For the attribute edits: the arena holds the state from after the action.
pub open spec fn holds_after(ns: Seq<NodeView>, a: Action) -> bool {
    match a {
        Action::EditText { node_id, new_text, .. } => node_id < ns.len() && ns[node_id as int].text == new_text@,
        Action::ToggleFold { node_id } => node_id < ns.len(),
        Action::MoveSibling { parent_id, old_index, new_index, .. } => {
            &&& parent_id < ns.len()
            &&& old_index < ns[parent_id as int].children.len()
            &&& new_index < ns[parent_id as int].children.len()
        },
        Action::SetBold { node_id, new_bold, .. } => node_id < ns.len() && ns[node_id as int].bold == new_bold,
        Action::SetLink { node_id, new_link, .. } => node_id < ns.len() && ns[node_id as int].link == opt_str_view(new_link),
        _ => false,
    }
}

proof fn lemma_swap_twice(cs: Seq<NodeId>, i: int, j: int)
    requires
        0 <= i < cs.len(),
        0 <= j < cs.len(),
    ensures
        swapped(swapped(cs, i, j), i, j) == cs,
{
    assert(swapped(swapped(cs, i, j), i, j) =~= cs);
}

/// Undoing an attribute edit right after doing it gives back the arena.
pub proof fn lemma_undo_after_edit(ns: Seq<NodeView>, root: NodeId, a: Action)
    requires
        holds_before(ns, a),
    ensures
        redo_ok(ns, root, a),
        undo_ok(redo_ns(ns, root, a), a),
        undo_ns(redo_ns(ns, root, a), a) == ns,
{
    let r = redo_ns(ns, root, a);
    match a {
        Action::MoveSibling { parent_id, old_index, new_index, .. } => {
            lemma_swap_twice(ns[parent_id as int].children, old_index as int, new_index as int);
            assert(undo_ns(r, a) =~= ns);
        },
        Action::EditText { node_id, .. } => {
            assert(undo_ns(r, a) =~= ns);
        },
        Action::ToggleFold { node_id } => {
            assert(undo_ns(r, a) =~= ns);
        },
        Action::SetBold { node_id, .. } => {
            assert(undo_ns(r, a) =~= ns);
        },
        Action::SetLink { node_id, .. } => {
            assert(undo_ns(r, a) =~= ns);
        },
        _ => {},
    }
}

/// Redoing an attribute edit right after undoing it gives back the arena.
pub proof fn lemma_redo_after_undo_edit(ns: Seq<NodeView>, root: NodeId, a: Action)
    requires
        holds_after(ns, a),
    ensures
        undo_ok(ns, a),
        redo_ok(undo_ns(ns, a), root, a),
        redo_ns(undo_ns(ns, a), root, a) == ns,
{
    let u = undo_ns(ns, a);
    match a {
        Action::MoveSibling { parent_id, old_index, new_index, .. } => {
            lemma_swap_twice(ns[parent_id as int].children, old_index as int, new_index as int);
            assert(redo_ns(u, root, a) =~= ns);
        },
        Action::EditText { node_id, .. } => {
            assert(redo_ns(u, root, a) =~= ns);
        },
        Action::ToggleFold { node_id } => {
            assert(redo_ns(u, root, a) =~= ns);
        },
        Action::SetBold { node_id, .. } => {
            assert(redo_ns(u, root, a) =~= ns);
        },
        Action::SetLink { node_id, .. } => {
            assert(redo_ns(u, root, a) =~= ns);
        },
        _ => {},
    }
}

/// After an undo, a redo puts the action back on the undo stack and leaves the
/// redo stack as it was before the undo.
pub proof fn lemma_undo_redo_stacks(h0: History, h1: History, h2: History)
    requires
        h0.undo_actions().len() > 0,
        h1.undo_actions() == h0.undo_actions().drop_last(),
        h1.redo_actions() == h0.redo_actions().push(h0.undo_actions().last()),
        h2.redo_actions() == h1.redo_actions().drop_last(),
        h2.undo_actions() == h1.undo_actions().push(h1.redo_actions().last()),
    ensures
        h2.undo_actions() == h0.undo_actions(),
        h2.redo_actions() == h0.redo_actions(),
{
    assert(h2.undo_actions() =~= h0.undo_actions());
    assert(h2.redo_actions() =~= h0.redo_actions());
}


proof fn lemma_without_absent(cs: Seq<NodeId>, x: NodeId)
    requires
        !cs.contains(x),
    ensures
        without(cs, x) == cs,
    decreases cs.len(),
{
    reveal(Seq::filter);
    if cs.len() > 0 {
        assert(!cs.drop_last().contains(x)) by {
            if cs.drop_last().contains(x) {
                let k = choose|k: int| 0 <= k < cs.drop_last().len() && cs.drop_last()[k] == x;
                assert(cs[k] == x);
            }
        }
        lemma_without_absent(cs.drop_last(), x);
        assert(cs.last() != x) by {
            assert(cs[cs.len() - 1] == cs.last());
        }
        assert(cs.drop_last().push(cs.last()) =~= cs);
    }
}

proof fn lemma_without_push_self(cs: Seq<NodeId>, x: NodeId)
    ensures
        without(cs.push(x), x) == without(cs, x),
{
    reveal(Seq::filter);
    assert(cs.push(x).drop_last() =~= cs);
}

proof fn lemma_remove_drops(cs: Seq<NodeId>, i: int)
    requires
        0 <= i < cs.len(),
        cs.no_duplicates(),
    ensures
        !cs.remove(i).contains(cs[i]),
{
    if cs.remove(i).contains(cs[i]) {
        let k = choose|k: int| 0 <= k < cs.remove(i).len() && cs.remove(i)[k] == cs[i];
        if k < i {
            assert(cs[k] == cs[i]);
        } else {
            assert(cs[k + 1] == cs[i]);
        }
    }
}

/// Undoing the addition of a child leaves the arena as it was before, plus the
/// new slot, detached and emptied; this needs the parent to have been unfolded
/// already, since adding unfolds it and undoing does not fold it back.
pub proof fn lemma_undo_add_child(ns: Seq<NodeView>, root: NodeId, p: NodeId, fid: Seq<char>, text: Seq<char>)
    requires
        forest_wf(ns, root),
        p < ns.len(),
        ns.len() < usize::MAX,
        !ns[p as int].folded,
    ensures
        ({
            let ns2 = added_child(ns, root, p, fid, text);
            let a = Action::AddNode { node_id: ns.len() as NodeId, parent_id: p };
            &&& undo_ok(ns2, a)
            &&& undo_ns(ns2, a).len() == ns.len() + 1
            &&& undo_ns(ns2, a).take(ns.len() as int) == ns
            &&& undo_ns(ns2, a)[ns.len() as int] == NodeView { parent: None, text: Seq::empty(), ..ns2[ns.len() as int] }
        }),
{
    let ns2 = added_child(ns, root, p, fid, text);
    let id = ns.len() as NodeId;
    let cs = ns[p as int].children;
    assert(children_ok(ns, p as int));
    assert(!cs.contains(id)) by {
        if cs.contains(id) {
            let k = choose|k: int| 0 <= k < cs.len() && cs[k] == id;
            assert(cs[k] < ns.len());
        }
    }
    assert(ns2[p as int].children == cs.push(id));
    lemma_without_push_self(cs, id);
    lemma_without_absent(cs, id);
    let a = Action::AddNode { node_id: id, parent_id: p };
    assert(undo_ns(ns2, a).take(ns.len() as int) =~= ns);
}

/// Redoing the addition of a child with empty text right after undoing it gives
/// back the arena with the child. (Undo empties the node's text and redo does
/// not restore it, so a child added with text comes back without it.)
pub proof fn lemma_redo_add_child(ns: Seq<NodeView>, root: NodeId, p: NodeId, fid: Seq<char>)
    requires
        forest_wf(ns, root),
        p < ns.len(),
        ns.len() < usize::MAX,
    ensures
        ({
            let ns2 = added_child(ns, root, p, fid, Seq::empty());
            let a = Action::AddNode { node_id: ns.len() as NodeId, parent_id: p };
            &&& redo_ok(undo_ns(ns2, a), root, a)
            &&& redo_ns(undo_ns(ns2, a), root, a) == ns2
        }),
{
    let ns2 = added_child(ns, root, p, fid, Seq::empty());
    let id = ns.len() as NodeId;
    let cs = ns[p as int].children;
    assert(children_ok(ns, p as int));
    assert(!cs.contains(id)) by {
        if cs.contains(id) {
            let k = choose|k: int| 0 <= k < cs.len() && cs[k] == id;
            assert(cs[k] < ns.len());
        }
    }
    lemma_without_push_self(cs, id);
    lemma_without_absent(cs, id);
    let a = Action::AddNode { node_id: id, parent_id: p };
    assert(redo_ns(undo_ns(ns2, a), root, a) =~= ns2);
}

} // verus!
