use mindmap::freemind_read::{parse_hex_color, parse_mm_events, parse_mm_xml, MmError, XmlAttr, XmlEvent};
use mindmap::freemind_write::serialize_tree;
use mindmap::node::{Rgb, Side};
use mindmap::tree::MindmapTree;

#[test]
fn parse_minimal_mm() {
    let xml = r#"<map version="1.0.1">
            <node TEXT="Root" ID="ID_1">
                <node TEXT="Child1" ID="ID_2" POSITION="right"/>
                <node TEXT="Child2" ID="ID_3" POSITION="left"/>
            </node>
        </map>"#;
    let tree = parse_mm_xml(xml).unwrap();
    assert_eq!(tree.nodes[tree.root].text, "Root");
    assert_eq!(tree.nodes[tree.root].children.len(), 2);
    let c1 = tree.nodes[tree.root].children[0];
    let c2 = tree.nodes[tree.root].children[1];
    assert_eq!(tree.nodes[c1].text, "Child1");
    assert_eq!(tree.nodes[c1].position, Some(Side::Right));
    assert_eq!(tree.nodes[c2].text, "Child2");
    assert_eq!(tree.nodes[c2].position, Some(Side::Left));
}

#[test]
fn parse_attributes() {
    let xml = r##"<map version="1.0.1">
            <node TEXT="Root" ID="ID_1" COLOR="#ff0000" BACKGROUND_COLOR="#00ff00"
                  FOLDED="true" CREATED="1000" MODIFIED="2000" LINK="https://example.com">
                <font BOLD="true" NAME="Arial" SIZE="18"/>
            </node>
        </map>"##;
    let tree = parse_mm_xml(xml).unwrap();
    let root = &tree.nodes[tree.root];
    assert_eq!(root.color, Some(Rgb { r: 255, g: 0, b: 0 }));
    assert_eq!(root.background_color, Some(Rgb { r: 0, g: 255, b: 0 }));
    assert!(root.folded);
    assert_eq!(root.created, Some(1000));
    assert_eq!(root.modified, Some(2000));
    assert_eq!(root.link, Some("https://example.com".to_string()));
    assert!(root.bold);
    assert_eq!(root.font_size, Some("18".to_string()));
    assert_eq!(root.font_name, Some("Arial".to_string()));
}

#[test]
fn parse_notes() {
    let xml = r#"<map version="1.0.1">
            <node TEXT="Root" ID="ID_1">
                <richcontent TYPE="NOTE"><html><head></head><body>
                    <p>Line one</p>
                    <p>Line two</p>
                </body></html></richcontent>
            </node>
        </map>"#;
    let tree = parse_mm_xml(xml).unwrap();
    assert_eq!(tree.nodes[tree.root].notes, "Line one\nLine two");
}

#[test]
fn parse_xml_entities_in_text() {
    let xml = r#"<map version="1.0.1">
            <node TEXT="A &amp; B &lt; C &gt; D" ID="ID_1"/>
        </map>"#;
    let tree = parse_mm_xml(xml).unwrap();
    assert_eq!(tree.nodes[tree.root].text, "A & B < C > D");
}

#[test]
fn round_trip_preserves_structure() {
    let xml = r#"<map version="1.0.1">
            <node TEXT="Root" ID="ID_1">
                <node TEXT="Child1" ID="ID_2" POSITION="right"/>
                <node TEXT="Child2" ID="ID_3" POSITION="left">
                    <node TEXT="Grandchild" ID="ID_4"/>
                </node>
            </node>
        </map>"#;
    let tree1 = parse_mm_xml(xml).unwrap();
    let serialized = serialize_tree(&tree1);
    let tree2 = parse_mm_xml(&serialized).unwrap();
    // Same structure
    assert_eq!(tree2.nodes[tree2.root].text, "Root");
    assert_eq!(tree2.nodes[tree2.root].children.len(), 2);
    let c1 = tree2.nodes[tree2.root].children[0];
    let c2 = tree2.nodes[tree2.root].children[1];
    assert_eq!(tree2.nodes[c1].text, "Child1");
    assert_eq!(tree2.nodes[c2].text, "Child2");
    assert_eq!(tree2.nodes[c2].children.len(), 1);
    let gc = tree2.nodes[c2].children[0];
    assert_eq!(tree2.nodes[gc].text, "Grandchild");
}

#[test]
fn round_trip_preserves_xml_escaping() {
    let xml = r#"<map version="1.0.1">
            <node TEXT="A &amp; B &lt; C &gt; D &quot;E&quot;" ID="ID_1"/>
        </map>"#;
    let tree1 = parse_mm_xml(xml).unwrap();
    assert_eq!(tree1.nodes[tree1.root].text, "A & B < C > D \"E\"");
    let serialized = serialize_tree(&tree1);
    let tree2 = parse_mm_xml(&serialized).unwrap();
    assert_eq!(tree2.nodes[tree2.root].text, "A & B < C > D \"E\"");
}

#[test]
fn round_trip_preserves_attributes() {
    let xml = r#"<map version="1.0.1">
            <node TEXT="Root" ID="ID_1" FOLDED="true" LINK="https://example.com">
                <font BOLD="true" SIZE="18"/>
                <richcontent TYPE="NOTE"><html><head></head><body>
                    <p>A note</p>
                </body></html></richcontent>
                <node TEXT="Child" ID="ID_2" POSITION="right"/>
            </node>
        </map>"#;
    let tree1 = parse_mm_xml(xml).unwrap();
    let serialized = serialize_tree(&tree1);
    let tree2 = parse_mm_xml(&serialized).unwrap();
    let root = &tree2.nodes[tree2.root];
    assert!(root.folded);
    assert!(root.bold);
    assert_eq!(root.font_size, Some("18".to_string()));
    assert_eq!(root.link, Some("https://example.com".to_string()));
    assert_eq!(root.notes, "A note");
}

// ---- further cases ----

#[test]
fn missing_root_is_an_error() {
    match parse_mm_xml("<map version=\"1.0.1\"></map>") {
        Err(MmError::NoRoot) => {}
        other => panic!("unexpected {:?}", other.map(|t| t.nodes.len())),
    }
    assert_eq!(MmError::NoRoot.describe(), "No root <node> found in FreeMind XML");
}

#[test]
fn malformed_xml_is_an_error() {
    match parse_mm_xml("<map><node TEXT=\"a\"></map>") {
        Err(MmError::Xml { message, .. }) => assert!(!message.is_empty()),
        other => panic!("unexpected {:?}", other.map(|t| t.nodes.len())),
    }
    let e = MmError::Xml { position: 7, message: "bad".to_string() };
    assert_eq!(e.describe(), "XML parse error at position 7: bad");
}

#[test]
fn missing_id_gets_index_based_id_and_tree_is_well_linked() {
    let xml = r#"<map><node TEXT="R"><node TEXT="A"/><node><node TEXT="C"/></node></node></map>"#;
    let tree = parse_mm_xml(xml).unwrap();
    assert_eq!(tree.nodes.len(), 4);
    assert_eq!(tree.nodes[0].freemind_id, "ID_0");
    assert_eq!(tree.nodes[2].freemind_id, "ID_2");
    assert_eq!(tree.nodes[2].text, "");
    assert_eq!(tree.nodes[3].parent, Some(2));
    assert_eq!(tree.nodes[0].children, vec![1, 2]);
    assert_eq!(tree.next_freemind_id, 4);
}

#[test]
fn events_are_interpreted_directly() {
    let attr = |k: &str, v: &str| Some(XmlAttr { key: k.as_bytes().to_vec(), value: Some(v.to_string()) });
    let events = vec![
        XmlEvent::Start { name: b"node".to_vec(), attrs: vec![attr("TEXT", "Root"), attr("ID", "ID_9")] },
        XmlEvent::Empty { name: b"node".to_vec(), attrs: vec![attr("TEXT", "Kid"), None, attr("COLOR", "##A0b1C2")] },
        XmlEvent::End { name: b"node".to_vec() },
        XmlEvent::Eof,
        XmlEvent::Start { name: b"node".to_vec(), attrs: vec![] },
    ];
    let tree = parse_mm_events(&events).unwrap();
    assert_eq!(tree.nodes.len(), 2);
    assert_eq!(tree.nodes[1].color, Some(Rgb { r: 0xa0, g: 0xb1, b: 0xc2 }));
    assert_eq!(tree.next_freemind_id, 10);
    let bad = vec![XmlEvent::Error { position: 3, message: "x".to_string() }];
    assert!(matches!(parse_mm_events(&bad), Err(MmError::Xml { position: 3, .. })));
}

#[test]
fn hex_colors() {
    assert_eq!(parse_hex_color("#ff0000"), Some(Rgb { r: 255, g: 0, b: 0 }));
    assert_eq!(parse_hex_color("00FF7f"), Some(Rgb { r: 0, g: 255, b: 127 }));
    assert_eq!(parse_hex_color("#+f+f+f"), Some(Rgb { r: 15, g: 15, b: 15 }));
    assert_eq!(parse_hex_color("#ff00"), None);
    assert_eq!(parse_hex_color("#gg0000"), None);
    assert_eq!(parse_hex_color("#-f0000"), None);
    assert_eq!(parse_hex_color("#éééééé"), None);
}

#[test]
fn serialize_exact_output() {
    let mut tree = MindmapTree::new_empty("R");
    let c = tree.add_child(tree.root, "C<");
    tree.nodes[c].color = Some(Rgb { r: 1, g: 171, b: 255 });
    tree.nodes[c].created = Some(42);
    tree.nodes[c].notes = "x&y".to_string();
    let out = serialize_tree(&tree);
    let expected = [
        "<map version=\"1.0.1\">\n",
        "<!-- To view this file, download free mind mapping software FreeMind from http://freemind.sourceforge.net -->\n",
        "<node ID=\"ID_0\" TEXT=\"R\">\n",
        "  <node COLOR=\"#01abff\" CREATED=\"42\" ID=\"ID_1\" POSITION=\"right\" TEXT=\"C&lt;\">\n",
        "    <richcontent TYPE=\"NOTE\"><html><head></head><body>\n",
        "      <p>x&amp;y</p>\n",
        "    </body></html></richcontent>\n",
        "  </node>\n",
        "</node>\n",
        "</map>\n",
    ]
    .concat();
    assert_eq!(out, expected);
}

#[test]
fn serialize_skips_deleted_nodes() {
    let mut tree = MindmapTree::new_empty("R");
    let a = tree.add_child(tree.root, "A");
    tree.add_child(tree.root, "B");
    tree.delete_subtree(a);
    let out = serialize_tree(&tree);
    assert!(!out.contains("ID_1"));
    assert!(out.contains("TEXT=\"B\""));
}

#[test]
fn font_size_that_is_not_a_number_is_dropped() {
    let xml = r#"<map version="1.0.1">
            <node TEXT="A" ID="ID_1">
                <font SIZE="big"/>
                <node TEXT="B" ID="ID_2"><font SIZE="12.5"/></node>
                <node TEXT="C" ID="ID_3"><font SIZE="14" BOLD="true" SIZE="x"/></node>
            </node>
        </map>"#;
    let tree = parse_mm_xml(xml).unwrap();
    let root = &tree.nodes[tree.root];
    assert_eq!(root.font_size, None);
    assert_eq!(tree.nodes[root.children[0]].font_size, Some("12.5".to_string()));
    assert_eq!(tree.nodes[root.children[1]].font_size, None);
    assert!(tree.nodes[root.children[1]].bold);
}

#[test]
fn note_type_lookup_stops_at_a_broken_attribute() {
    let broken_first = r#"<map version="1.0.1">
            <node TEXT="A" ID="ID_1">
                <richcontent junk TYPE="NOTE"><html><body><p>hidden</p></body></html></richcontent>
            </node>
        </map>"#;
    let tree = parse_mm_xml(broken_first).unwrap();
    assert_eq!(tree.nodes[tree.root].notes, "");

    let broken_after = r#"<map version="1.0.1">
            <node TEXT="A" ID="ID_1">
                <richcontent TYPE="NOTE" junk><html><body><p>kept</p></body></html></richcontent>
            </node>
        </map>"#;
    let tree = parse_mm_xml(broken_after).unwrap();
    assert_eq!(tree.nodes[tree.root].notes, "kept");
}

#[test]
fn round_trip_keeps_note_lines_trimmed_without_blank_ones() {
    let xml = r##"<map version="1.0.1">
            <node TEXT="Root" ID="ID_1">
                <node TEXT="Child" ID="ID_2" POSITION="left" COLOR="#102030"/>
            </node>
        </map>"##;
    let mut tree1 = parse_mm_xml(xml).unwrap();
    let root = tree1.root;
    tree1.nodes[root].notes = "  first  \n\n\tsecond".to_string();
    tree1.nodes[root].font_size = Some("big".to_string());
    let serialized = serialize_tree(&tree1);
    let tree2 = parse_mm_xml(&serialized).unwrap();
    let r2 = &tree2.nodes[tree2.root];
    assert_eq!(r2.notes, "first\nsecond");
    assert_eq!(r2.font_size, None);
    let c = tree2.nodes[r2.children[0]].clone();
    assert_eq!(c.text, "Child");
    assert_eq!(c.freemind_id, "ID_2");
    assert_eq!(c.position, Some(Side::Left));
    assert_eq!(c.color, Some(Rgb { r: 0x10, g: 0x20, b: 0x30 }));
    assert_eq!(c.parent, Some(tree2.root));
}
