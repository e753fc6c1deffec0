use mindmap::clipboard::Clipboard;
use mindmap::commands::{
    add_child_and_edit, add_sibling_and_edit, click_node, copy_selection, cut_selection, delete_node, drop_on,
    fold_all, move_node_sibling, paste_clipboard, remove_link, replace_all_matches, replace_current, select_parent,
    select_root, select_sibling, set_link, start_replace_edit, step_into, toggle_bold, toggle_fold_node, unfold_all,
    update_hover_states, InputResult,
};
use mindmap::editing::EditingState;
use mindmap::history::{Action, History};
use mindmap::node::{NodeId, NodeState};
use mindmap::search::SearchState;
use mindmap::selection::Selection;
use mindmap::tree::MindmapTree;

fn sample_tree() -> MindmapTree {
    let mut tree = MindmapTree::new_empty("Root");
    let a = tree.add_child(tree.root, "A");
    tree.add_child(tree.root, "B");
    tree.add_child(a, "A1");
    tree.add_child(a, "A2");
    tree
}

fn find(tree: &MindmapTree, text: &str) -> NodeId {
    tree.nodes.iter().find(|n| n.text == text).unwrap().id
}

fn only(sel: &Selection) -> Option<NodeId> {
    if sel.selected.len() == 1 {
        sel.selected.iter().next().copied()
    } else {
        None
    }
}

#[test]
fn tab_adds_child_and_starts_editing() {
    let mut tree = sample_tree();
    let mut history = History::new();
    let mut sel = Selection::new();
    let mut editing = EditingState::new();
    let b = find(&tree, "B");
    let n = add_child_and_edit(&mut tree, &mut history, &mut sel, &mut editing, b);
    assert_eq!(tree.nodes[n].parent, Some(b));
    assert_eq!(tree.nodes[n].text, "");
    assert_eq!(tree.nodes[n].state, NodeState::Editing);
    assert_eq!(editing.active_node, Some(n));
    assert_eq!(only(&sel), Some(n));
    assert!(history.undo(&mut tree));
    assert!(tree.nodes[b].children.is_empty());
}

#[test]
fn shift_enter_adds_sibling_before() {
    let mut tree = sample_tree();
    let mut history = History::new();
    let mut sel = Selection::new();
    let mut editing = EditingState::new();
    let a = find(&tree, "A");
    let a2 = find(&tree, "A2");
    let n = add_sibling_and_edit(&mut tree, &mut history, &mut sel, &mut editing, a2, true);
    let a1 = find(&tree, "A1");
    assert_eq!(tree.nodes[a].children, vec![a1, n, a2]);
    let m = add_sibling_and_edit(&mut tree, &mut history, &mut sel, &mut editing, a2, false);
    assert_eq!(tree.nodes[a].children, vec![a1, n, a2, m]);
}

#[test]
fn delete_selects_parent_and_keeps_root() {
    let mut tree = sample_tree();
    let mut history = History::new();
    let mut sel = Selection::new();
    let a = find(&tree, "A");
    let a1 = find(&tree, "A1");
    let res = delete_node(&mut tree, &mut history, &mut sel, a1);
    assert_eq!(res, InputResult { needs_relayout: true, ensure_visible: Some(a) });
    assert_eq!(only(&sel), Some(a));
    assert_eq!(tree.nodes[a].children.len(), 1);
    let root = tree.root;
    let res = delete_node(&mut tree, &mut history, &mut sel, root);
    assert_eq!(res, InputResult { needs_relayout: false, ensure_visible: None });
    // Undo re-attaches the restored subtree as the parent's last child.
    assert!(history.undo(&mut tree));
    assert_eq!(tree.nodes[a].children, vec![find(&tree, "A2"), a1]);
    assert_eq!(tree.nodes[a1].parent, Some(a));
}

#[test]
fn copy_then_paste_duplicates_subtree() {
    let mut tree = sample_tree();
    let mut history = History::new();
    let mut sel = Selection::new();
    let mut clip = Clipboard::new();
    let a = find(&tree, "A");
    let b = find(&tree, "B");
    sel.select_single(a);
    copy_selection(&tree, &sel, &mut clip);
    assert_eq!(clip.blueprints.len(), 1);
    assert_eq!(clip.blueprints[0].nodes.len(), 3);
    let before = tree.nodes.len();
    let res = paste_clipboard(&mut tree, &mut history, &mut sel, &clip, b);
    assert_eq!(res, InputResult { needs_relayout: true, ensure_visible: Some(before) });
    assert_eq!(tree.nodes.len(), before + 3);
    assert_eq!(tree.nodes[b].children, vec![before]);
    assert_eq!(tree.nodes[before].text, "A");
    assert_eq!(tree.nodes[before].children, vec![before + 1, before + 2]);
    assert_eq!(tree.nodes[before + 1].parent, Some(before));
    assert_eq!(only(&sel), Some(before));
    assert!(history.undo(&mut tree));
    assert!(tree.nodes[b].children.is_empty());
}

#[test]
fn paste_with_empty_clipboard_does_nothing() {
    let mut tree = sample_tree();
    let mut history = History::new();
    let mut sel = Selection::new();
    let clip = Clipboard::new();
    let b = find(&tree, "B");
    let res = paste_clipboard(&mut tree, &mut history, &mut sel, &clip, b);
    assert_eq!(res, InputResult { needs_relayout: false, ensure_visible: None });
    assert!(!history.can_undo());
}

#[test]
fn cut_removes_and_can_be_undone() {
    let mut tree = sample_tree();
    let mut history = History::new();
    let mut sel = Selection::new();
    let mut clip = Clipboard::new();
    let a = find(&tree, "A");
    let a1 = find(&tree, "A1");
    sel.select_single(a1);
    let res = cut_selection(&mut tree, &mut history, &mut sel, &mut clip);
    assert_eq!(res, InputResult { needs_relayout: true, ensure_visible: Some(a) });
    assert_eq!(clip.blueprints.len(), 1);
    assert_eq!(tree.nodes[a].children, vec![find(&tree, "A2")]);
    assert!(history.undo(&mut tree));
    assert_eq!(tree.nodes[a].children, vec![find(&tree, "A2"), a1]);
}

#[test]
fn cut_of_root_does_nothing() {
    let mut tree = sample_tree();
    let mut history = History::new();
    let mut sel = Selection::new();
    let mut clip = Clipboard::new();
    sel.select_single(tree.root);
    let res = cut_selection(&mut tree, &mut history, &mut sel, &mut clip);
    assert_eq!(res, InputResult { needs_relayout: false, ensure_visible: None });
    assert!(clip.is_empty());
}

#[test]
fn arrow_navigation() {
    let mut tree = sample_tree();
    let mut sel = Selection::new();
    let a = find(&tree, "A");
    let b = find(&tree, "B");
    let a1 = find(&tree, "A1");
    assert_eq!(select_parent(&tree, &mut sel, a1), InputResult { needs_relayout: false, ensure_visible: Some(a) });
    assert_eq!(only(&sel), Some(a));
    let root = tree.root;
    assert_eq!(select_parent(&tree, &mut sel, root), InputResult { needs_relayout: false, ensure_visible: None });
    assert_eq!(only(&sel), Some(a));
    assert_eq!(select_sibling(&tree, &mut sel, a, true).ensure_visible, Some(b));
    assert_eq!(select_sibling(&tree, &mut sel, b, false).ensure_visible, Some(a));
    assert_eq!(select_sibling(&tree, &mut sel, a, false).ensure_visible, None);
    // Right on a folded node unfolds it first, then steps to the first child.
    tree.toggle_fold(a);
    let res = step_into(&mut tree, &mut sel, a);
    assert_eq!(res, InputResult { needs_relayout: true, ensure_visible: Some(a) });
    assert!(!tree.nodes[a].folded);
    let res = step_into(&mut tree, &mut sel, a);
    assert_eq!(res.ensure_visible, Some(a1));
    assert_eq!(only(&sel), Some(a1));
    assert_eq!(step_into(&mut tree, &mut sel, a1), InputResult { needs_relayout: false, ensure_visible: None });
    assert_eq!(select_root(&tree, &mut sel).ensure_visible, Some(root));
    assert_eq!(only(&sel), Some(root));
}

#[test]
fn click_folds_and_ctrl_click_toggles_selection() {
    let mut tree = sample_tree();
    let mut sel = Selection::new();
    let a = find(&tree, "A");
    let b = find(&tree, "B");
    let res = click_node(&mut tree, &mut sel, a, false);
    assert_eq!(res, InputResult { needs_relayout: true, ensure_visible: None });
    assert!(tree.nodes[a].folded);
    click_node(&mut tree, &mut sel, b, true);
    assert!(sel.is_selected(a) && sel.is_selected(b));
    click_node(&mut tree, &mut sel, b, true);
    assert!(!sel.is_selected(b));
    let res = click_node(&mut tree, &mut sel, b, false);
    assert_eq!(res, InputResult { needs_relayout: false, ensure_visible: None });
    assert_eq!(only(&sel), Some(b));
}

#[test]
fn hover_states_skip_the_edited_node() {
    let mut tree = sample_tree();
    let mut editing = EditingState::new();
    let a = find(&tree, "A");
    let b = find(&tree, "B");
    start_replace_edit(&mut tree, &mut editing, b, "x".to_string());
    assert_eq!(editing.text_buffer, "x");
    assert_eq!(editing.original_text, "B");
    update_hover_states(&mut tree, Some(a));
    assert_eq!(tree.nodes[a].state, NodeState::Hovered);
    assert_eq!(tree.nodes[b].state, NodeState::Editing);
    assert_eq!(tree.nodes[tree.root].state, NodeState::Default);
    update_hover_states(&mut tree, None);
    assert_eq!(tree.nodes[a].state, NodeState::Default);
}

#[test]
fn fold_all_spares_root_and_leaves() {
    let mut tree = sample_tree();
    let a = find(&tree, "A");
    let a1 = find(&tree, "A1");
    fold_all(&mut tree);
    assert!(tree.nodes[a].folded);
    assert!(!tree.nodes[tree.root].folded);
    assert!(!tree.nodes[a1].folded);
    unfold_all(&mut tree);
    assert!(tree.nodes.iter().all(|n| !n.folded));
}

#[test]
fn fold_and_move_are_recorded() {
    let mut tree = sample_tree();
    let mut history = History::new();
    let a = find(&tree, "A");
    let a1 = find(&tree, "A1");
    let a2 = find(&tree, "A2");
    toggle_fold_node(&mut tree, &mut history, a);
    assert!(tree.nodes[a].folded);
    let res = move_node_sibling(&mut tree, &mut history, a2, true);
    assert_eq!(res, InputResult { needs_relayout: true, ensure_visible: Some(a2) });
    assert_eq!(tree.nodes[a].children, vec![a2, a1]);
    let res = move_node_sibling(&mut tree, &mut history, a2, true);
    assert_eq!(res, InputResult { needs_relayout: false, ensure_visible: None });
    assert!(history.undo(&mut tree));
    assert_eq!(tree.nodes[a].children, vec![a1, a2]);
    assert!(history.undo(&mut tree));
    assert!(!tree.nodes[a].folded);
}

#[test]
fn drop_reparents_unless_onto_own_subtree() {
    let mut tree = sample_tree();
    let mut history = History::new();
    let a = find(&tree, "A");
    let b = find(&tree, "B");
    let a1 = find(&tree, "A1");
    let res = drop_on(&mut tree, &mut history, a, a1);
    assert_eq!(res, InputResult { needs_relayout: false, ensure_visible: None });
    let res = drop_on(&mut tree, &mut history, a1, b);
    assert_eq!(res, InputResult { needs_relayout: true, ensure_visible: Some(a1) });
    assert_eq!(tree.nodes[a1].parent, Some(b));
    assert_eq!(tree.nodes[b].children, vec![a1]);
    assert!(history.undo(&mut tree));
    assert_eq!(tree.nodes[a1].parent, Some(a));
    assert_eq!(tree.nodes[a].children[0], a1);
}

#[test]
fn bold_and_links_are_recorded() {
    let mut tree = sample_tree();
    let mut history = History::new();
    let a = find(&tree, "A");
    toggle_bold(&mut tree, &mut history, a);
    assert!(tree.nodes[a].bold);
    set_link(&mut tree, &mut history, a, "  https://example.org  ");
    assert_eq!(tree.nodes[a].link.as_deref(), Some("https://example.org"));
    set_link(&mut tree, &mut history, a, "   ");
    assert_eq!(tree.nodes[a].link, None);
    assert!(history.undo(&mut tree));
    assert_eq!(tree.nodes[a].link.as_deref(), Some("https://example.org"));
    remove_link(&mut tree, &mut history, a);
    assert_eq!(tree.nodes[a].link, None);
    assert!(history.undo(&mut tree));
    assert_eq!(tree.nodes[a].link.as_deref(), Some("https://example.org"));
    assert!(history.undo(&mut tree));
    assert!(history.undo(&mut tree));
    assert!(!tree.nodes[a].bold);
}

#[test]
fn replace_all_edits_every_match_as_one_step() {
    let mut tree = MindmapTree::new_empty("cat and cat");
    let root = tree.root;
    let d = tree.add_child(root, "dog");
    let c = tree.add_child(root, "Cat");
    let mut history = History::new();
    let mut search = SearchState::new();
    search.open();
    search.query = "cat".to_string();
    search.replace_text = "bird".to_string();
    search.update_matches(&tree);
    assert_eq!(search.matches, vec![root, c]);
    assert!(replace_all_matches(&mut tree, &mut history, &mut search));
    assert_eq!(tree.nodes[root].text, "bird and bird");
    // The replacement is case-sensitive, so "Cat" stays.
    assert_eq!(tree.nodes[c].text, "Cat");
    assert_eq!(tree.nodes[d].text, "dog");
    assert_eq!(search.matches, vec![c]);
    assert!(history.undo(&mut tree));
    assert_eq!(tree.nodes[root].text, "cat and cat");
}

#[test]
fn replace_current_moves_to_next_match() {
    let mut tree = MindmapTree::new_empty("root");
    let root = tree.root;
    let x = tree.add_child(root, "aa");
    let y = tree.add_child(root, "ba");
    let mut history = History::new();
    let mut search = SearchState::new();
    search.open();
    search.query = "a".to_string();
    search.replace_text = "o".to_string();
    search.update_matches(&tree);
    assert_eq!(search.matches, vec![x, y]);
    assert!(replace_current(&mut tree, &mut history, &mut search));
    assert_eq!(tree.nodes[x].text, "oo");
    assert_eq!(search.matches, vec![y]);
    assert_eq!(search.current_index, 0);
    assert!(replace_current(&mut tree, &mut history, &mut search));
    assert_eq!(tree.nodes[y].text, "bo");
    assert!(search.matches.is_empty());
    assert!(!replace_current(&mut tree, &mut history, &mut search));
}

#[test]
fn move_up_then_down_restores_order() {
    let mut tree = sample_tree();
    let mut history = History::new();
    let a = find(&tree, "A");
    let a2 = find(&tree, "A2");
    let before = tree.nodes[a].children.clone();
    move_node_sibling(&mut tree, &mut history, a2, true);
    assert_ne!(tree.nodes[a].children, before);
    move_node_sibling(&mut tree, &mut history, a2, false);
    assert_eq!(tree.nodes[a].children, before);
}

#[test]
fn toggle_fold_twice_restores() {
    let mut tree = sample_tree();
    let mut history = History::new();
    let a = find(&tree, "A");
    let b = find(&tree, "B");
    toggle_fold_node(&mut tree, &mut history, a);
    toggle_fold_node(&mut tree, &mut history, a);
    assert!(!tree.nodes[a].folded);
    // A leaf cannot be folded.
    toggle_fold_node(&mut tree, &mut history, b);
    assert!(!tree.nodes[b].folded);
}

#[test]
fn undo_paste_unhooks_pasted_subtree() {
    let mut tree = sample_tree();
    let mut history = History::new();
    let mut sel = Selection::new();
    let mut clip = Clipboard::new();
    let a1 = find(&tree, "A1");
    let b = find(&tree, "B");
    sel.select_single(a1);
    copy_selection(&tree, &sel, &mut clip);
    let n = tree.nodes.len();
    paste_clipboard(&mut tree, &mut history, &mut sel, &clip, b);
    paste_clipboard(&mut tree, &mut history, &mut sel, &clip, b);
    assert_eq!(tree.nodes[b].children, vec![n, n + 1]);
    assert!(history.undo(&mut tree));
    assert_eq!(tree.nodes[b].children, vec![n]);
    assert!(tree.nodes[n + 1].text.is_empty());
    assert!(history.undo(&mut tree));
    assert!(tree.nodes[b].children.is_empty());
    assert!(history.redo(&mut tree));
    assert_eq!(tree.nodes[b].children, vec![n]);
    assert_eq!(tree.nodes[n].text, "A1");
}
