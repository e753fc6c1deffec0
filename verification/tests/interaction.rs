use mindmap::menu::{global_action, MenuAction, ShortcutContext, ShortcutInput, ShortcutKey};
use mindmap::search::SearchState;
use mindmap::selection::Selection;
use mindmap::tree::MindmapTree;

fn tree() -> MindmapTree {
    let mut t = MindmapTree::new_empty("Root");
    let a = t.add_child(t.root, "Apple");
    t.add_child(a, "pineAPPLE");
    t.add_child(t.root, "Banana");
    t
}

#[test]
fn search_is_case_insensitive_and_in_preorder() {
    let t = tree();
    let mut s = SearchState::default();
    s.open();
    assert!(s.is_active());
    s.query = "APPLE".to_string();
    s.update_matches(&t);
    assert_eq!(s.matches, vec![1, 2]);
    assert_eq!(s.current_match(), Some(1));
    s.next();
    assert_eq!(s.current_match(), Some(2));
    s.next();
    assert_eq!(s.current_match(), Some(1));
    s.prev();
    assert_eq!(s.current_match(), Some(2));
    s.jump_to_node(1);
    assert_eq!(s.current_index, 0);
    s.jump_to_node(3);
    assert_eq!(s.current_index, 0);
}

#[test]
fn search_rescans_only_on_change() {
    let mut t = tree();
    let mut s = SearchState::new();
    s.query = "an".to_string();
    s.update_matches(&t);
    assert_eq!(s.matches, vec![3]);
    t.nodes[0].text = "Ant".to_string();
    s.update_matches(&t);
    assert_eq!(s.matches, vec![3]);
    s.update_matches_force(&t);
    assert_eq!(s.matches, vec![0, 3]);
    s.query = String::new();
    s.update_matches(&t);
    assert!(s.matches.is_empty());
    assert_eq!(s.current_match(), None);
}

#[test]
fn search_close_and_replace_toggle() {
    let t = tree();
    let mut s = SearchState::new();
    s.open();
    s.query = "a".to_string();
    s.update_matches(&t);
    s.toggle_replace();
    assert!(s.replace_active);
    s.close();
    assert!(!s.active);
    assert!(s.query.is_empty());
    assert!(s.matches.is_empty());
    assert!(!s.replace_active);
}

#[test]
fn selection_operations() {
    let mut sel = Selection::default();
    assert_eq!(sel.primary(), None);
    sel.select_single(3);
    assert!(sel.is_selected(3));
    assert_eq!(sel.primary(), Some(3));
    sel.toggle(5);
    assert!(sel.is_selected(5));
    sel.toggle(5);
    assert!(!sel.is_selected(5));
    assert!(sel.primary() == Some(3));
    sel.clear();
    assert!(!sel.is_selected(3));
    assert_eq!(sel.primary(), None);
}

fn key(k: ShortcutKey, ctrl: bool, shift: bool, alt: bool) -> ShortcutInput {
    ShortcutInput::Key { key: k, ctrl, shift, alt }
}

fn nothing_open() -> ShortcutContext {
    ShortcutContext {
        editing: false,
        search_open: false,
        help_open: false,
        menu_open: false,
        style_panel_open: false,
        notes_panel_open: false,
    }
}

#[test]
fn global_shortcut_table() {
    let c = nothing_open();
    assert_eq!(global_action(&vec![key(ShortcutKey::N, true, false, false)], c), MenuAction::NewMap);
    assert_eq!(global_action(&vec![key(ShortcutKey::N, true, true, false)], c), MenuAction::ToggleNotes);
    assert_eq!(global_action(&vec![key(ShortcutKey::S, true, true, false)], c), MenuAction::SaveAs);
    assert_eq!(global_action(&vec![key(ShortcutKey::S, true, false, false)], c), MenuAction::Save);
    assert_eq!(global_action(&vec![key(ShortcutKey::F, true, false, false)], c), MenuAction::OpenSearch);
    assert_eq!(global_action(&vec![key(ShortcutKey::F, false, false, false)], c), MenuAction::FitToScreen);
    assert_eq!(global_action(&vec![key(ShortcutKey::F, true, true, false)], c), MenuAction::NoAction);
    assert_eq!(global_action(&vec![key(ShortcutKey::Home, false, false, false)], c), MenuAction::FitToScreen);
    assert_eq!(global_action(&vec![ShortcutInput::QuestionMark], c), MenuAction::ToggleHelp);
    assert_eq!(global_action(&vec![key(ShortcutKey::Minus, true, true, false)], c), MenuAction::FoldAll);
    assert_eq!(global_action(&vec![key(ShortcutKey::Escape, false, false, false)], c), MenuAction::NoAction);
    let editing = ShortcutContext { editing: true, ..c };
    assert_eq!(global_action(&vec![key(ShortcutKey::F, false, false, false)], editing), MenuAction::NoAction);
    assert_eq!(global_action(&vec![key(ShortcutKey::F1, false, false, false)], editing), MenuAction::NoAction);
    assert_eq!(global_action(&vec![ShortcutInput::QuestionMark], editing), MenuAction::NoAction);
    let searching = ShortcutContext { search_open: true, help_open: true, ..c };
    assert_eq!(global_action(&vec![key(ShortcutKey::Escape, false, false, false)], searching), MenuAction::CloseSearch);
    let helping = ShortcutContext { help_open: true, notes_panel_open: true, ..c };
    assert_eq!(global_action(&vec![key(ShortcutKey::Escape, false, false, false)], helping), MenuAction::ToggleHelp);
    let panel = ShortcutContext { style_panel_open: true, ..c };
    assert_eq!(global_action(&vec![key(ShortcutKey::Escape, false, false, false)], panel), MenuAction::CloseMenu);
    let evs = vec![ShortcutInput::Other, key(ShortcutKey::Other, true, false, false), key(ShortcutKey::Q, true, false, false), key(ShortcutKey::O, true, false, false)];
    assert_eq!(global_action(&evs, c), MenuAction::Quit);
}
