use mindmap::menu::{build_context_items, ContextAction};
use mindmap::recent::add_recent;
use mindmap::tree::{collect_nodes_with_notes, MindmapTree};

fn actions(tree: &MindmapTree, on_node: bool, primary: Option<usize>, multi: bool, clip_empty: bool) -> Vec<Option<(String, ContextAction, bool)>> {
    build_context_items(on_node, primary, multi, clip_empty, tree)
        .into_iter()
        .map(|o| o.map(|m| (m.label, m.action, m.enabled)))
        .collect()
}

#[test]
fn notes_are_listed_in_preorder() {
    let mut tree = MindmapTree::new_empty("Root");
    let a = tree.add_child(tree.root, "A");
    let b = tree.add_child(tree.root, "B");
    let a1 = tree.add_child(a, "A1");
    tree.nodes[b].notes = "about b".to_string();
    tree.nodes[a1].notes = "about a1".to_string();
    assert_eq!(collect_nodes_with_notes(&tree), vec![a1, b]);
    tree.nodes[a1].notes.clear();
    assert_eq!(collect_nodes_with_notes(&tree), vec![b]);
}

#[test]
fn node_depth_follows_parents() {
    let mut tree = MindmapTree::new_empty("Root");
    let a = tree.add_child(tree.root, "A");
    let a1 = tree.add_child(a, "A1");
    assert_eq!(tree.nodes[tree.root].depth(&tree.nodes), 0);
    assert_eq!(tree.nodes[a].depth(&tree.nodes), 1);
    assert_eq!(tree.nodes[a1].depth(&tree.nodes), 2);
}

#[test]
fn recent_files_move_to_front_and_are_capped() {
    let mut list: Vec<String> = Vec::new();
    for i in 0..10 {
        add_recent(&mut list, &format!("/maps/{i}.mm"));
    }
    assert_eq!(list.len(), 8);
    assert_eq!(list[0], "/maps/9.mm");
    assert_eq!(list[7], "/maps/2.mm");
    add_recent(&mut list, "/maps/5.mm");
    assert_eq!(list.len(), 8);
    assert_eq!(list[0], "/maps/5.mm");
    assert_eq!(list.iter().filter(|p| p.as_str() == "/maps/5.mm").count(), 1);
    assert_eq!(list[1], "/maps/9.mm");
}

#[test]
fn canvas_menu_offers_paste_only_with_content_and_target() {
    let tree = MindmapTree::new_empty("Root");
    assert!(actions(&tree, false, Some(0), false, true).is_empty());
    assert!(actions(&tree, false, None, false, false).is_empty());
    let items = actions(&tree, false, Some(0), false, false);
    assert_eq!(items, vec![Some(("Paste".to_string(), ContextAction::Paste, true))]);
}

#[test]
fn node_menu_disables_what_does_not_apply() {
    let mut tree = MindmapTree::new_empty("Root");
    let a = tree.add_child(tree.root, "A");
    tree.add_child(a, "A1");
    tree.nodes[a].link = Some("https://example.org".to_string());
    let on_root = actions(&tree, true, Some(tree.root), false, true);
    let find = |items: &Vec<Option<(String, ContextAction, bool)>>, act: ContextAction| {
        items.iter().flatten().find(|(_, a, _)| *a == act).cloned()
    };
    assert_eq!(find(&on_root, ContextAction::AddSibling).unwrap().2, false);
    assert_eq!(find(&on_root, ContextAction::Delete).unwrap().2, false);
    assert_eq!(find(&on_root, ContextAction::Paste).unwrap().2, false);
    assert_eq!(find(&on_root, ContextAction::EditLink).unwrap().0, "Add Link...");
    let on_a = actions(&tree, true, Some(a), false, false);
    assert_eq!(find(&on_a, ContextAction::Delete).unwrap().2, true);
    assert_eq!(find(&on_a, ContextAction::ToggleFold).unwrap(), ("Fold".to_string(), ContextAction::ToggleFold, true));
    assert!(find(&on_a, ContextAction::RemoveLink).is_some());
    assert_eq!(on_a.len(), 21);
    let multi = actions(&tree, true, Some(a), true, false);
    assert_eq!(find(&multi, ContextAction::Edit).unwrap().2, false);
    assert!(find(&multi, ContextAction::EditLink).is_none());
}
