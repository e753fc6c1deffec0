use mindmap::editing::{EditInput, EditResult, EditingState};
use mindmap::history::{Action, History};
use mindmap::node::{NodeId, NodeState};
use mindmap::tree::MindmapTree;

fn sample_tree() -> MindmapTree {
    let mut tree = MindmapTree::new_empty("Root");
    let a = tree.add_child(tree.root, "A");
    tree.add_child(tree.root, "B");
    tree.add_child(a, "A1");
    tree.add_child(a, "A2");
    tree
}

fn find(tree: &MindmapTree, text: &str) -> NodeId {
    tree.nodes.iter().find(|n| n.text == text).unwrap().id
}

fn keys(enter: bool, escape: bool, lost_focus: bool) -> EditInput {
    EditInput { escape, enter, shift_enter: false, tab: false, lost_focus }
}

#[test]
fn undo_and_redo_edit_text() {
    let mut tree = sample_tree();
    let mut history = History::new();
    let a = find(&tree, "A");
    let mut editing = EditingState::new();
    editing.start(a, "A".to_string());
    editing.text_buffer = "  Alpha ".to_string();
    let r = editing.finish(&mut tree, &mut history, keys(false, false, true));
    assert_eq!(r, EditResult::Finished);
    assert_eq!(tree.nodes[a].text, "Alpha");
    assert!(history.can_undo());
    assert!(history.is_dirty());
    assert!(history.undo(&mut tree));
    assert_eq!(tree.nodes[a].text, "A");
    assert!(history.can_redo());
    assert!(history.redo(&mut tree));
    assert_eq!(tree.nodes[a].text, "Alpha");
    assert!(!history.can_redo());
    history.mark_clean();
    assert!(!history.is_dirty());
}

#[test]
fn undo_on_empty_history_does_nothing() {
    let mut tree = sample_tree();
    let mut history = History::default();
    assert!(!history.undo(&mut tree));
    assert!(!history.redo(&mut tree));
    assert!(!history.is_dirty());
}

#[test]
fn undo_delete_restores_subtree_at_end_of_parent() {
    let mut tree = sample_tree();
    let root = tree.root;
    let a = find(&tree, "A");
    let b = find(&tree, "B");
    let a1 = find(&tree, "A1");
    let saved = tree.delete_subtree(a).unwrap();
    let mut history = History::new();
    history.push(Action::DeleteSubtree { subtree: saved, parent_id: root, child_index: 0 });
    assert!(tree.nodes[a1].text.is_empty());
    history.undo(&mut tree);
    assert_eq!(tree.nodes[a].text, "A");
    assert_eq!(tree.nodes[a1].text, "A1");
    assert_eq!(tree.nodes[a1].parent, Some(a));
    assert_eq!(tree.nodes[root].children, vec![b, a]);
    history.redo(&mut tree);
    assert!(tree.nodes[a].text.is_empty());
    assert_eq!(tree.nodes[root].children, vec![b]);
}

#[test]
fn undo_reparent_restores_position() {
    let mut tree = sample_tree();
    let a = find(&tree, "A");
    let b = find(&tree, "B");
    let a1 = find(&tree, "A1");
    let a2 = find(&tree, "A2");
    let (old_parent, old_index, old_position) = tree.reparent_node(a1, b).unwrap();
    let mut history = History::new();
    history.push(Action::MoveNode { node_id: a1, old_parent, old_child_index: old_index, new_parent: b, old_position });
    history.undo(&mut tree);
    assert_eq!(tree.nodes[a].children, vec![a1, a2]);
    assert_eq!(tree.nodes[a1].parent, Some(a));
    assert!(tree.nodes[b].children.is_empty());
    history.redo(&mut tree);
    assert_eq!(tree.nodes[b].children, vec![a1]);
    assert_eq!(tree.nodes[a].children, vec![a2]);
}

#[test]
fn undo_add_child_detaches_it() {
    let mut tree = sample_tree();
    let b = find(&tree, "B");
    let n = tree.add_child(b, "");
    let mut history = History::new();
    history.push(Action::AddNode { node_id: n, parent_id: b });
    history.undo(&mut tree);
    assert!(tree.nodes[b].children.is_empty());
    assert_eq!(tree.nodes[n].parent, None);
    history.redo(&mut tree);
    assert_eq!(tree.nodes[b].children, vec![n]);
    assert_eq!(tree.nodes[n].parent, Some(b));
}

#[test]
fn toggle_fold_and_move_sibling_are_involutions() {
    let mut tree = sample_tree();
    let a = find(&tree, "A");
    let a1 = find(&tree, "A1");
    let a2 = find(&tree, "A2");
    let mut history = History::new();
    tree.toggle_fold(a);
    history.push(Action::ToggleFold { node_id: a });
    let (p, i, j) = tree.move_sibling_down(a1).unwrap();
    history.push(Action::MoveSibling { node_id: a1, parent_id: p, old_index: i, new_index: j });
    history.undo(&mut tree);
    assert_eq!(tree.nodes[a].children, vec![a1, a2]);
    history.undo(&mut tree);
    assert!(!tree.nodes[a].folded);
}

#[test]
fn batch_undoes_in_reverse_order() {
    let mut tree = sample_tree();
    let a = find(&tree, "A");
    tree.nodes[a].bold = true;
    tree.nodes[a].link = Some("x".to_string());
    let mut history = History::new();
    history.push(Action::Batch(vec![
        Action::SetBold { node_id: a, old_bold: false, new_bold: true },
        Action::SetLink { node_id: a, old_link: None, new_link: Some("x".to_string()) },
    ]));
    history.undo(&mut tree);
    assert!(!tree.nodes[a].bold);
    assert_eq!(tree.nodes[a].link, None);
    history.redo(&mut tree);
    assert!(tree.nodes[a].bold);
    assert_eq!(tree.nodes[a].link, Some("x".to_string()));
}

#[test]
fn paste_undo_and_redo() {
    let mut tree = sample_tree();
    let a = find(&tree, "A");
    let b = find(&tree, "B");
    let bp = tree.clone_subtree(a);
    let (new_root, ids) = tree.paste_subtree(&bp, b);
    let saved: Vec<_> = ids.iter().map(|&i| tree.nodes[i].clone()).collect();
    let mut history = History::new();
    history.push(Action::PasteSubtrees {
        entries: vec![mindmap::history::PasteEntry { new_root_id: new_root, parent_id: b, all_new_ids: ids.clone(), saved_nodes: saved }],
    });
    history.undo(&mut tree);
    assert!(tree.nodes[b].children.is_empty());
    assert!(tree.nodes[new_root].text.is_empty());
    history.redo(&mut tree);
    assert_eq!(tree.nodes[b].children, vec![new_root]);
    assert_eq!(tree.nodes[new_root].text, "A");
}

#[test]
fn push_clears_redo() {
    let mut tree = sample_tree();
    let a = find(&tree, "A");
    let mut history = History::new();
    tree.toggle_fold(a);
    history.push(Action::ToggleFold { node_id: a });
    history.undo(&mut tree);
    assert!(history.can_redo());
    history.push(Action::ToggleFold { node_id: a });
    assert!(!history.can_redo());
}

#[test]
fn editing_outcomes() {
    let mut tree = sample_tree();
    let mut history = History::new();
    let a = find(&tree, "A");
    let mut editing = EditingState::default();
    assert!(!editing.is_active());
    // Still typing: the node shows the buffer.
    editing.start(a, "A".to_string());
    assert!(editing.is_active());
    editing.text_buffer = "Ab".to_string();
    assert_eq!(editing.finish(&mut tree, &mut history, keys(false, false, false)), EditResult::Continue);
    assert_eq!(tree.nodes[a].text, "Ab");
    // Escape with unchanged text restores the original.
    editing.text_buffer = " A ".to_string();
    assert_eq!(editing.finish(&mut tree, &mut history, keys(false, true, false)), EditResult::Finished);
    assert_eq!(tree.nodes[a].text, "A");
    assert!(!history.can_undo());
    // Enter confirms and asks for a sibling below.
    editing.start(a, "A".to_string());
    editing.text_buffer = "New".to_string();
    assert_eq!(editing.finish(&mut tree, &mut history, keys(true, false, false)), EditResult::CreateSibling(a));
    assert_eq!(tree.nodes[a].state, NodeState::Default);
    assert!(history.can_undo());
    // Shift+Enter asks for a sibling; whitespace only asks for deletion.
    editing.start(a, "New".to_string());
    editing.text_buffer = "   ".to_string();
    let input = EditInput { escape: false, enter: false, shift_enter: true, tab: false, lost_focus: false };
    assert_eq!(editing.finish(&mut tree, &mut history, input), EditResult::DeleteEmpty(a));
    editing.start(a, "New".to_string());
    editing.start_replace(a, "New".to_string(), "x".to_string());
    assert_eq!(editing.text_buffer, "x");
    assert_eq!(editing.finish(&mut tree, &mut history, input), EditResult::CreateSibling(a));
    assert_eq!(tree.nodes[a].text, "x");
    // Not editing: nothing happens.
    assert_eq!(editing.finish(&mut tree, &mut history, input), EditResult::Continue);
}

#[test]
fn tab_confirms_trimmed_text_and_asks_for_child() {
    let mut tree = sample_tree();
    let mut history = History::new();
    let a = find(&tree, "A");
    let mut editing = EditingState::new();
    editing.start(a, "A".to_string());
    // A frame of typing syncs the untrimmed buffer into the node.
    editing.text_buffer = "A ".to_string();
    assert_eq!(editing.finish(&mut tree, &mut history, keys(false, false, false)), EditResult::Continue);
    assert_eq!(tree.nodes[a].text, "A ");
    let tab = EditInput { escape: false, enter: false, shift_enter: false, tab: true, lost_focus: false };
    assert_eq!(editing.finish(&mut tree, &mut history, tab), EditResult::CreateChild(a));
    // The confirmed text is the trimmed one; it equals the original, so nothing is recorded.
    assert_eq!(tree.nodes[a].text, "A");
    assert!(!history.can_undo());
}

#[test]
fn undo_fits_tells_stale_entries_apart() {
    let tree = sample_tree();
    let a = find(&tree, "A");
    let far = tree.nodes.len() + 5;
    let mut history = History::new();
    assert!(history.undo_fits(&tree));
    history.push(Action::ToggleFold { node_id: a });
    assert!(history.undo_fits(&tree));
    history.push(Action::ToggleFold { node_id: far });
    assert!(!history.undo_fits(&tree));
    history.push(Action::Batch(vec![
        Action::SetBold { node_id: a, old_bold: false, new_bold: true },
        Action::EditText { node_id: far, old_text: "x".to_string(), new_text: "y".to_string() },
    ]));
    assert!(!history.undo_fits(&tree));
    history.push(Action::Batch(vec![
        Action::AddNode { node_id: a, parent_id: tree.root },
        Action::MoveSibling { node_id: a, parent_id: tree.root, old_index: 0, new_index: 1 },
    ]));
    assert!(history.undo_fits(&tree));
}
