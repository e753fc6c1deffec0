use mindmap::export::{export_markdown, export_opml, svg_escape, xml_escape};
use mindmap::tree::MindmapTree;

#[test]
fn heading_depths() {
    let mut tree = MindmapTree::new_empty("Root");
    let d1 = tree.add_child(tree.root, "D1");
    let d2 = tree.add_child(d1, "D2");
    let d3 = tree.add_child(d2, "D3");
    let d4 = tree.add_child(d3, "D4");
    let d5 = tree.add_child(d4, "D5");
    tree.add_child(d5, "D6");
    let md = export_markdown(&tree);
    assert!(md.contains("# Root\n"));
    assert!(md.contains("## D1\n"));
    assert!(md.contains("### D2\n"));
    assert!(md.contains("#### D3\n"));
    assert!(md.contains("##### D4\n"));
    assert!(md.contains("###### D5\n"));
    assert!(md.contains("- D6\n")); // depth 6+ uses bullets
}

#[test]
fn notes_as_blockquotes() {
    let mut tree = MindmapTree::new_empty("Root");
    let root = tree.root;
    tree.nodes[root].notes = "A note\nSecond line".to_string();
    let md = export_markdown(&tree);
    assert!(md.contains("> A note\n"));
    assert!(md.contains("> Second line\n"));
}

#[test]
fn valid_opml_structure() {
    let mut tree = MindmapTree::new_empty("My Map");
    tree.add_child(tree.root, "Child");
    let opml = export_opml(&tree);
    assert!(opml.contains("<?xml version=\"1.0\""));
    assert!(opml.contains("<opml version=\"2.0\">"));
    assert!(opml.contains("<title>My Map</title>"));
    assert!(opml.contains("<body>"));
    assert!(opml.contains("</body>"));
    assert!(opml.contains("</opml>"));
    assert!(opml.contains("text=\"Child\""));
}

#[test]
fn notes_as_attribute() {
    let mut tree = MindmapTree::new_empty("Root");
    let c = tree.add_child(tree.root, "WithNote");
    tree.nodes[c].notes = "A note".to_string();
    let opml = export_opml(&tree);
    assert!(opml.contains("_note=\"A note\""));
}

#[test]
fn xml_escaping_in_output() {
    let tree = MindmapTree::new_empty("A & B < C");
    let opml = export_opml(&tree);
    assert!(opml.contains("A &amp; B &lt; C"));
}

// ---- further cases ----

#[test]
fn markdown_exact_output() {
    let mut tree = MindmapTree::new_empty("Root");
    let a = tree.add_child(tree.root, "A");
    tree.add_child(a, "A1");
    tree.add_child(tree.root, "B");
    tree.nodes[a].notes = "n1\r\nn2\n".to_string();
    let md = export_markdown(&tree);
    assert_eq!(md, "# Root\n## A\n> n1\n> n2\n\n### A1\n## B\n");
}

#[test]
fn markdown_skips_deleted_subtrees_but_keeps_empty_root() {
    let mut tree = MindmapTree::new_empty("");
    let a = tree.add_child(tree.root, "A");
    tree.add_child(a, "A1");
    tree.add_child(tree.root, "B");
    tree.delete_subtree(a);
    let md = export_markdown(&tree);
    assert_eq!(md, "# \n## B\n");
}

#[test]
fn deep_nodes_become_indented_bullets() {
    let mut tree = MindmapTree::new_empty("R");
    let mut id = tree.root;
    for i in 1..9 {
        id = tree.add_child(id, &format!("N{}", i));
    }
    let md = export_markdown(&tree);
    assert!(md.contains("\n- N6\n  - N7\n    - N8\n"));
}

#[test]
fn opml_exact_output() {
    let mut tree = MindmapTree::new_empty("Top");
    let a = tree.add_child(tree.root, "A \"q\"");
    tree.add_child(a, "Leaf");
    tree.nodes[a].notes = "it's".to_string();
    let opml = export_opml(&tree);
    let expected = [
        "<?xml version=\"1.0\" encoding=\"UTF-8\"?>\n",
        "<opml version=\"2.0\">\n",
        "  <head><title>Top</title></head>\n",
        "  <body>\n",
        "    <outline text=\"Top\">\n",
        "      <outline text=\"A &quot;q&quot;\" _note=\"it&apos;s\">\n",
        "        <outline text=\"Leaf\"/>\n",
        "      </outline>\n",
        "    </outline>\n",
        "  </body>\n",
        "</opml>\n",
    ]
    .concat();
    assert_eq!(opml, expected);
}

#[test]
fn opml_keeps_close_tag_when_all_children_are_blank() {
    let mut tree = MindmapTree::new_empty("R");
    tree.add_child(tree.root, "");
    let opml = export_opml(&tree);
    assert!(opml.contains("    <outline text=\"R\">\n    </outline>\n"));
    let a = tree.nodes[tree.root].children[0];
    tree.delete_subtree(a);
    assert!(export_opml(&tree).contains("    <outline text=\"R\"/>\n"));
}

#[test]
fn xml_escape_all_entities() {
    assert_eq!(xml_escape("<a href='x'>&\"</a>"), "&lt;a href=&apos;x&apos;&gt;&amp;&quot;&lt;/a&gt;");
    assert_eq!(xml_escape("plain"), "plain");
}

#[test]
fn svg_escape_leaves_apostrophe() {
    assert_eq!(svg_escape(r#"it's <a&b> "q""#), r#"it's &lt;a&amp;b&gt; &quot;q&quot;"#);
}
