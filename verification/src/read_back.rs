//! What reading gives back of a written map: the XML events that the tags of a
//! written FreeMind document spell out, and the law that the builder turns them
//! into a copy of the tree, numbered in document order.
use vstd::prelude::*;
use crate::freemind_read::{
    ascii_is, built, closed_note, doc_events, ends_reading, events_view, first_attr, font_attrs,
    hex_color, hex_pair, hex_val, initial_build, is_ascii_seq, is_stop, joined, lemma_first_stop,
    no_node_attrs, node_attr_step, node_attrs, node_from_attrs, parse_outcome_ok, step_spec,
    strip_hashes, top_of, with_node, BuildState, MmError, NodeAttrs, XmlEvent, XmlEventView,
};
use crate::freemind_write::{color_hex, freemind_doc, has_font, hex2, hex_digit, side_name};
use crate::node::{NodeId, NodeState, NodeView, Rgb};
use crate::text::{decimal, float_text, lemma_decimal_digits, lines, parse_u64_spec, trim};
use crate::tree::MindmapTree;

verus! {

// ---------------------------------------------------------------------------
// The events of a written document.

/// The bytes of an ASCII name.
pub open spec fn name_bytes(s: Seq<char>) -> Seq<u8> {
    Seq::new(s.len(), |i: int| (s[i] as u32) as u8)
}

/// An attribute whose value was read.
pub open spec fn read_attr(key: Seq<char>, value: Seq<char>) -> Option<(Seq<u8>, Option<Seq<char>>)> {
    Some((name_bytes(key), Some(value)))
}

/// The attribute `key` when there is a value to write, else nothing.
pub open spec fn attr_if(key: Seq<char>, value: Option<Seq<char>>) -> Seq<Option<(Seq<u8>, Option<Seq<char>>)>> {
    match value {
        Some(v) => seq![read_attr(key, v)],
        None => Seq::empty(),
    }
}

pub open spec fn color_text(c: Option<Rgb>) -> Option<Seq<char>> {
    match c {
        Some(c) => Some(color_hex(c)),
        None => None,
    }
}

pub open spec fn time_text(t: Option<u64>) -> Option<Seq<char>> {
    match t {
        Some(t) => Some(decimal(t as nat)),
        None => None,
    }
}

/// The attributes of a node's tag in the order they are written, each with
/// its value as the reader gives it back (entities resolved).
pub open spec fn node_tag_attrs(v: NodeView) -> Seq<Option<(Seq<u8>, Option<Seq<char>>)>> {
    attr_if("BACKGROUND_COLOR"@, color_text(v.background_color))
        + attr_if("COLOR"@, color_text(v.color))
        + attr_if("CREATED"@, time_text(v.created))
        + attr_if("FOLDED"@, if v.folded { Some("true"@) } else { None })
        + seq![read_attr("ID"@, v.freemind_id)]
        + attr_if("LINK"@, v.link)
        + attr_if("MODIFIED"@, time_text(v.modified))
        + attr_if("POSITION"@, match v.position { Some(s) => Some(side_name(s)), None => None })
        + seq![read_attr("TEXT"@, v.text)]
}

/// The attributes of a node's `<font>` tag.
pub open spec fn font_tag_attrs(v: NodeView) -> Seq<Option<(Seq<u8>, Option<Seq<char>>)>> {
    attr_if("BOLD"@, if v.bold { Some("true"@) } else { None })
        + attr_if("NAME"@, v.font_name)
        + attr_if("SIZE"@, v.font_size)
}

pub open spec fn start_tag(name: Seq<char>, attrs: Seq<Option<(Seq<u8>, Option<Seq<char>>)>>) -> XmlEventView {
    XmlEventView::Start { name: name_bytes(name), attrs }
}

pub open spec fn empty_tag(name: Seq<char>, attrs: Seq<Option<(Seq<u8>, Option<Seq<char>>)>>) -> XmlEventView {
    XmlEventView::Empty { name: name_bytes(name), attrs }
}

pub open spec fn end_tag(name: Seq<char>) -> XmlEventView {
    XmlEventView::End { name: name_bytes(name) }
}

/// The whitespace that XML trims: space, tab, carriage return, line feed.
pub open spec fn is_xml_ws(c: char) -> bool {
    c == ' ' || c == '\t' || c == '\r' || c == '\n'
}

pub open spec fn xml_trim_start(s: Seq<char>) -> Seq<char>
    decreases s.len(),
{
    if s.len() > 0 && is_xml_ws(s[0]) {
        xml_trim_start(s.drop_first())
    } else {
        s
    }
}

pub open spec fn xml_trim_end(s: Seq<char>) -> Seq<char>
    decreases s.len(),
{
    if s.len() > 0 && is_xml_ws(s.last()) {
        xml_trim_end(s.drop_last())
    } else {
        s
    }
}

/// Text as a reader that trims text gives it: without leading and trailing
/// XML whitespace.
pub open spec fn xml_trim(s: Seq<char>) -> Seq<char> {
    xml_trim_end(xml_trim_start(s))
}

/// One note paragraph: its text is an event only when something is left of
/// it after trimming.
pub open spec fn paragraph_events(l: Seq<char>) -> Seq<XmlEventView> {
    seq![start_tag("p"@, Seq::empty())]
        + (if xml_trim(l).len() > 0 { seq![XmlEventView::Text { text: Some(xml_trim(l)) }] } else { Seq::empty() })
        + seq![end_tag("p"@)]
}

pub open spec fn paragraphs_events(ls: Seq<Seq<char>>) -> Seq<XmlEventView>
    decreases ls.len(),
{
    if ls.len() == 0 {
        Seq::empty()
    } else {
        paragraphs_events(ls.drop_last()) + paragraph_events(ls.last())
    }
}

/// The rich-content note of a node, one paragraph per line.
pub open spec fn note_events(v: NodeView) -> Seq<XmlEventView> {
    if v.notes.len() > 0 {
        seq![
            start_tag("richcontent"@, seq![read_attr("TYPE"@, "NOTE"@)]),
            start_tag("html"@, Seq::empty()),
            start_tag("head"@, Seq::empty()),
            end_tag("head"@),
            start_tag("body"@, Seq::empty()),
        ]
            + paragraphs_events(lines(v.notes))
            + seq![end_tag("body"@), end_tag("html"@), end_tag("richcontent"@)]
    } else {
        Seq::empty()
    }
}

pub open spec fn font_events(v: NodeView) -> Seq<XmlEventView> {
    if has_font(v) {
        seq![empty_tag("font"@, font_tag_attrs(v))]
    } else {
        Seq::empty()
    }
}

/// The events of the element that the writer gives the subtree under `id`
/// (whitespace between tags gives none).
pub open spec fn node_events(ns: Seq<NodeView>, root: NodeId, id: NodeId, fuel: nat) -> Seq<XmlEventView>
    decreases fuel, 0nat, 0nat,
{
    let v = ns[id as int];
    if fuel == 0 || (v.text.len() == 0 && v.parent is None && id != root) {
        Seq::empty()
    } else if v.children.len() == 0 && !has_font(v) && v.notes.len() == 0 {
        seq![empty_tag("node"@, node_tag_attrs(v))]
    } else {
        seq![start_tag("node"@, node_tag_attrs(v))] + font_events(v) + note_events(v)
            + list_events(ns, root, v.children, (fuel - 1) as nat)
            + seq![end_tag("node"@)]
    }
}

pub open spec fn list_events(ns: Seq<NodeView>, root: NodeId, cs: Seq<NodeId>, fuel: nat) -> Seq<XmlEventView>
    decreases fuel, 1nat, cs.len(),
{
    if cs.len() == 0 {
        Seq::empty()
    } else {
        list_events(ns, root, cs.drop_last(), fuel) + node_events(ns, root, cs.last(), fuel)
    }
}

/// The events that the tags of the written FreeMind document of `t` spell out
/// for a reader that trims text, in order, up to the end of input: entities
/// resolved, whitespace between tags giving no event. Ids, font names and font
/// sizes are written as they are, so this holds where they are plain text
/// (`plain_attrs`).
pub open spec fn written_events(t: &MindmapTree) -> Seq<XmlEventView> {
    seq![start_tag("map"@, seq![read_attr("version"@, "1.0.1"@)]), XmlEventView::Other]
        + node_events(t.ns(), t.root, t.root, t.ns().len())
        + seq![end_tag("map"@), XmlEventView::Eof]
}

/// No `&` and no `"` in `s`: the writer puts ids, font names and font sizes
/// into attributes as they are, so only such text reads back unchanged.
pub open spec fn plain_text(s: Seq<char>) -> bool {
    forall|i: int| 0 <= i < s.len() ==> s[i] != '&' && s[i] != '"'
}

pub open spec fn plain_opt(s: Option<Seq<char>>) -> bool {
    match s {
        Some(x) => plain_text(x),
        None => true,
    }
}

/// Every node's id, font name and font size is plain text.
pub open spec fn plain_attrs(ns: Seq<NodeView>) -> bool {
    forall|i: int| 0 <= i < ns.len() ==> {
        &&& plain_text(#[trigger] ns[i].freemind_id)
        &&& plain_opt(ns[i].font_name)
        &&& plain_opt(ns[i].font_size)
    }
}

// ---------------------------------------------------------------------------
// The tree that reading gives back.

/// The note paragraphs that reading keeps of the written lines: each trimmed,
/// the blank ones dropped.
pub open spec fn kept_paragraphs(ls: Seq<Seq<char>>) -> Seq<Seq<char>>
    decreases ls.len(),
{
    if ls.len() == 0 {
        Seq::empty()
    } else {
        let t = trim(xml_trim(ls.last()));
        if t.len() > 0 {
            kept_paragraphs(ls.drop_last()).push(t)
        } else {
            kept_paragraphs(ls.drop_last())
        }
    }
}

/// A font size as read back: kept where it is a number.
pub open spec fn size_back(s: Option<Seq<char>>) -> Option<Seq<char>> {
    match s {
        Some(x) => if float_text(x) { Some(x) } else { None },
        None => None,
    }
}

/// Node `v` as read back at index `id`: the same texts, side, folding, colors,
/// times, link and font, a numeric font size, the note's kept paragraphs joined
/// by line breaks, and the given links.
pub open spec fn read_back_node(v: NodeView, id: NodeId, parent: Option<NodeId>, children: Seq<NodeId>) -> NodeView {
    NodeView {
        id,
        parent,
        children,
        font_size: size_back(v.font_size),
        notes: joined(kept_paragraphs(lines(v.notes))),
        state: NodeState::Default,
        ..v
    }
}

/// The copy of the subtree under `id`, numbered from `base` in document order:
/// its root first, then the copies of its children's subtrees one after another.
pub open spec fn copy_tree(ns: Seq<NodeView>, root: NodeId, id: NodeId, parent: Option<NodeId>, base: nat, fuel: nat) -> Seq<NodeView>
    decreases fuel, 0nat, 0nat,
{
    let v = ns[id as int];
    if fuel == 0 || (v.text.len() == 0 && v.parent is None && id != root) {
        Seq::empty()
    } else {
        let f = (fuel - 1) as nat;
        seq![read_back_node(v, base as NodeId, parent, list_roots(ns, root, v.children, base as NodeId, base + 1, f))]
            + copy_list(ns, root, v.children, base as NodeId, base + 1, f)
    }
}

/// The copies of the subtrees under `cs`, one after another from `base`.
pub open spec fn copy_list(ns: Seq<NodeView>, root: NodeId, cs: Seq<NodeId>, parent: NodeId, base: nat, fuel: nat) -> Seq<NodeView>
    decreases fuel, 1nat, cs.len(),
{
    if cs.len() == 0 {
        Seq::empty()
    } else {
        let front = copy_list(ns, root, cs.drop_last(), parent, base, fuel);
        front + copy_tree(ns, root, cs.last(), Some(parent), base + front.len(), fuel)
    }
}

/// Where the copies of the subtrees under `cs` start.
pub open spec fn list_roots(ns: Seq<NodeView>, root: NodeId, cs: Seq<NodeId>, parent: NodeId, base: nat, fuel: nat) -> Seq<NodeId>
    decreases fuel, 1nat, cs.len(),
{
    if cs.len() == 0 {
        Seq::empty()
    } else {
        let front = copy_list(ns, root, cs.drop_last(), parent, base, fuel);
        let last = copy_tree(ns, root, cs.last(), Some(parent), base + front.len(), fuel);
        list_roots(ns, root, cs.drop_last(), parent, base, fuel)
            + (if last.len() > 0 { seq![(base + front.len()) as NodeId] } else { Seq::empty() })
    }
}

/// The tree that reading the written document of `t` gives back: a copy of
/// it, numbered in document order.
pub open spec fn read_back_copy(t: &MindmapTree) -> Seq<NodeView> {
    copy_tree(t.ns(), t.root, t.root, None, 0, t.ns().len())
}


// ---------------------------------------------------------------------------
// What the builder makes of the attributes.

proof fn lemma_name_bytes(a: Seq<char>)
    requires
        is_ascii_seq(a),
    ensures
        ascii_is(name_bytes(a), a),
{
    assert forall|i: int| 0 <= i < name_bytes(a).len() implies name_bytes(a)[i] as u32 == a[i] as u32 by {
        let x = a[i] as u32;
        assert(x < 128);
        assert(name_bytes(a)[i] == x as u8);
        assert((x as u8) as u32 == x);
    }
}

/// The tag names the writer uses, told apart as the builder tells them apart.
proof fn lemma_tag_names()
    ensures
        ascii_is(name_bytes("node"@), "node"@),
        ascii_is(name_bytes("font"@), "font"@),
        ascii_is(name_bytes("richcontent"@), "richcontent"@),
        ascii_is(name_bytes("body"@), "body"@),
        ascii_is(name_bytes("p"@), "p"@),
        !ascii_is(name_bytes("map"@), "node"@),
        !ascii_is(name_bytes("map"@), "font"@),
        !ascii_is(name_bytes("map"@), "richcontent"@),
        !ascii_is(name_bytes("richcontent"@), "node"@),
        !ascii_is(name_bytes("richcontent"@), "font"@),
        !ascii_is(name_bytes("font"@), "node"@),
        !ascii_is(name_bytes("html"@), "body"@),
        !ascii_is(name_bytes("html"@), "p"@),
        !ascii_is(name_bytes("html"@), "richcontent"@),
        !ascii_is(name_bytes("head"@), "body"@),
        !ascii_is(name_bytes("head"@), "p"@),
        !ascii_is(name_bytes("head"@), "richcontent"@),
        !ascii_is(name_bytes("body"@), "p"@),
        !ascii_is(name_bytes("body"@), "richcontent"@),
        !ascii_is(name_bytes("p"@), "body"@),
        !ascii_is(name_bytes("richcontent"@), "p"@),
        !ascii_is(name_bytes("richcontent"@), "body"@),
{
    reveal_strlit("node");
    reveal_strlit("font");
    reveal_strlit("richcontent");
    reveal_strlit("body");
    reveal_strlit("p");
    reveal_strlit("map");
    reveal_strlit("html");
    reveal_strlit("head");
    lemma_name_bytes("node"@);
    lemma_name_bytes("font"@);
    lemma_name_bytes("richcontent"@);
    lemma_name_bytes("body"@);
    lemma_name_bytes("p"@);
    assert(name_bytes("font"@)[0] as u32 != "node"@[0] as u32);
    assert(name_bytes("html"@)[0] as u32 != "body"@[0] as u32);
    assert(name_bytes("head"@)[0] as u32 != "body"@[0] as u32);
}

/// The attribute names of a node's tag, told apart as the builder tells them apart.
proof fn lemma_node_keys()
    ensures
        ascii_is(name_bytes("TEXT"@), "TEXT"@),
        ascii_is(name_bytes("ID"@), "ID"@),
        ascii_is(name_bytes("COLOR"@), "COLOR"@),
        ascii_is(name_bytes("BACKGROUND_COLOR"@), "BACKGROUND_COLOR"@),
        ascii_is(name_bytes("POSITION"@), "POSITION"@),
        ascii_is(name_bytes("FOLDED"@), "FOLDED"@),
        ascii_is(name_bytes("CREATED"@), "CREATED"@),
        ascii_is(name_bytes("MODIFIED"@), "MODIFIED"@),
        ascii_is(name_bytes("LINK"@), "LINK"@),
        !ascii_is(name_bytes("TEXT"@), "ID"@),
        !ascii_is(name_bytes("TEXT"@), "COLOR"@),
        !ascii_is(name_bytes("TEXT"@), "BACKGROUND_COLOR"@),
        !ascii_is(name_bytes("TEXT"@), "POSITION"@),
        !ascii_is(name_bytes("TEXT"@), "FOLDED"@),
        !ascii_is(name_bytes("TEXT"@), "CREATED"@),
        !ascii_is(name_bytes("TEXT"@), "MODIFIED"@),
        !ascii_is(name_bytes("TEXT"@), "LINK"@),
        !ascii_is(name_bytes("ID"@), "TEXT"@),
        !ascii_is(name_bytes("ID"@), "COLOR"@),
        !ascii_is(name_bytes("ID"@), "BACKGROUND_COLOR"@),
        !ascii_is(name_bytes("ID"@), "POSITION"@),
        !ascii_is(name_bytes("ID"@), "FOLDED"@),
        !ascii_is(name_bytes("ID"@), "CREATED"@),
        !ascii_is(name_bytes("ID"@), "MODIFIED"@),
        !ascii_is(name_bytes("ID"@), "LINK"@),
        !ascii_is(name_bytes("COLOR"@), "TEXT"@),
        !ascii_is(name_bytes("COLOR"@), "ID"@),
        !ascii_is(name_bytes("COLOR"@), "BACKGROUND_COLOR"@),
        !ascii_is(name_bytes("COLOR"@), "POSITION"@),
        !ascii_is(name_bytes("COLOR"@), "FOLDED"@),
        !ascii_is(name_bytes("COLOR"@), "CREATED"@),
        !ascii_is(name_bytes("COLOR"@), "MODIFIED"@),
        !ascii_is(name_bytes("COLOR"@), "LINK"@),
        !ascii_is(name_bytes("BACKGROUND_COLOR"@), "TEXT"@),
        !ascii_is(name_bytes("BACKGROUND_COLOR"@), "ID"@),
        !ascii_is(name_bytes("BACKGROUND_COLOR"@), "COLOR"@),
        !ascii_is(name_bytes("BACKGROUND_COLOR"@), "POSITION"@),
        !ascii_is(name_bytes("BACKGROUND_COLOR"@), "FOLDED"@),
        !ascii_is(name_bytes("BACKGROUND_COLOR"@), "CREATED"@),
        !ascii_is(name_bytes("BACKGROUND_COLOR"@), "MODIFIED"@),
        !ascii_is(name_bytes("BACKGROUND_COLOR"@), "LINK"@),
        !ascii_is(name_bytes("POSITION"@), "TEXT"@),
        !ascii_is(name_bytes("POSITION"@), "ID"@),
        !ascii_is(name_bytes("POSITION"@), "COLOR"@),
        !ascii_is(name_bytes("POSITION"@), "BACKGROUND_COLOR"@),
        !ascii_is(name_bytes("POSITION"@), "FOLDED"@),
        !ascii_is(name_bytes("POSITION"@), "CREATED"@),
        !ascii_is(name_bytes("POSITION"@), "MODIFIED"@),
        !ascii_is(name_bytes("POSITION"@), "LINK"@),
        !ascii_is(name_bytes("FOLDED"@), "TEXT"@),
        !ascii_is(name_bytes("FOLDED"@), "ID"@),
        !ascii_is(name_bytes("FOLDED"@), "COLOR"@),
        !ascii_is(name_bytes("FOLDED"@), "BACKGROUND_COLOR"@),
        !ascii_is(name_bytes("FOLDED"@), "POSITION"@),
        !ascii_is(name_bytes("FOLDED"@), "CREATED"@),
        !ascii_is(name_bytes("FOLDED"@), "MODIFIED"@),
        !ascii_is(name_bytes("FOLDED"@), "LINK"@),
        !ascii_is(name_bytes("CREATED"@), "TEXT"@),
        !ascii_is(name_bytes("CREATED"@), "ID"@),
        !ascii_is(name_bytes("CREATED"@), "COLOR"@),
        !ascii_is(name_bytes("CREATED"@), "BACKGROUND_COLOR"@),
        !ascii_is(name_bytes("CREATED"@), "POSITION"@),
        !ascii_is(name_bytes("CREATED"@), "FOLDED"@),
        !ascii_is(name_bytes("CREATED"@), "MODIFIED"@),
        !ascii_is(name_bytes("CREATED"@), "LINK"@),
        !ascii_is(name_bytes("MODIFIED"@), "TEXT"@),
        !ascii_is(name_bytes("MODIFIED"@), "ID"@),
        !ascii_is(name_bytes("MODIFIED"@), "COLOR"@),
        !ascii_is(name_bytes("MODIFIED"@), "BACKGROUND_COLOR"@),
        !ascii_is(name_bytes("MODIFIED"@), "POSITION"@),
        !ascii_is(name_bytes("MODIFIED"@), "FOLDED"@),
        !ascii_is(name_bytes("MODIFIED"@), "CREATED"@),
        !ascii_is(name_bytes("MODIFIED"@), "LINK"@),
        !ascii_is(name_bytes("LINK"@), "TEXT"@),
        !ascii_is(name_bytes("LINK"@), "ID"@),
        !ascii_is(name_bytes("LINK"@), "COLOR"@),
        !ascii_is(name_bytes("LINK"@), "BACKGROUND_COLOR"@),
        !ascii_is(name_bytes("LINK"@), "POSITION"@),
        !ascii_is(name_bytes("LINK"@), "FOLDED"@),
        !ascii_is(name_bytes("LINK"@), "CREATED"@),
        !ascii_is(name_bytes("LINK"@), "MODIFIED"@),
{
    reveal_strlit("TEXT");
    reveal_strlit("ID");
    reveal_strlit("COLOR");
    reveal_strlit("BACKGROUND_COLOR");
    reveal_strlit("POSITION");
    reveal_strlit("FOLDED");
    reveal_strlit("CREATED");
    reveal_strlit("MODIFIED");
    reveal_strlit("LINK");
    lemma_name_bytes("TEXT"@);
    lemma_name_bytes("ID"@);
    lemma_name_bytes("COLOR"@);
    lemma_name_bytes("BACKGROUND_COLOR"@);
    lemma_name_bytes("POSITION"@);
    lemma_name_bytes("FOLDED"@);
    lemma_name_bytes("CREATED"@);
    lemma_name_bytes("MODIFIED"@);
    lemma_name_bytes("LINK"@);
    assert(name_bytes("TEXT"@)[0] as u32 != "LINK"@[0] as u32);
    assert(name_bytes("POSITION"@)[0] as u32 != "MODIFIED"@[0] as u32);
    assert(name_bytes("MODIFIED"@)[0] as u32 != "POSITION"@[0] as u32);
    assert(name_bytes("LINK"@)[0] as u32 != "TEXT"@[0] as u32);
}

/// The attribute names of a `<font>` tag, told apart.
proof fn lemma_font_keys()
    ensures
        ascii_is(name_bytes("BOLD"@), "BOLD"@),
        ascii_is(name_bytes("SIZE"@), "SIZE"@),
        ascii_is(name_bytes("NAME"@), "NAME"@),
        !ascii_is(name_bytes("BOLD"@), "SIZE"@),
        !ascii_is(name_bytes("BOLD"@), "NAME"@),
        !ascii_is(name_bytes("SIZE"@), "BOLD"@),
        !ascii_is(name_bytes("SIZE"@), "NAME"@),
        !ascii_is(name_bytes("NAME"@), "BOLD"@),
        !ascii_is(name_bytes("NAME"@), "SIZE"@),
{
    reveal_strlit("BOLD");
    reveal_strlit("SIZE");
    reveal_strlit("NAME");
    lemma_name_bytes("BOLD"@);
    lemma_name_bytes("SIZE"@);
    lemma_name_bytes("NAME"@);
    assert(name_bytes("BOLD"@)[0] as u32 != "SIZE"@[0] as u32);
    assert(name_bytes("BOLD"@)[0] as u32 != "NAME"@[0] as u32);
    assert(name_bytes("SIZE"@)[0] as u32 != "BOLD"@[0] as u32);
    assert(name_bytes("SIZE"@)[0] as u32 != "NAME"@[0] as u32);
    assert(name_bytes("NAME"@)[0] as u32 != "BOLD"@[0] as u32);
    assert(name_bytes("NAME"@)[0] as u32 != "SIZE"@[0] as u32);
}


proof fn lemma_attrs_extend(p: Seq<Option<(Seq<u8>, Option<Seq<char>>)>>, k: Seq<char>, val: Option<Seq<char>>)
    ensures
        node_attrs(p + attr_if(k, val)) == match val {
            Some(x) => node_attr_step(node_attrs(p), read_attr(k, x)),
            None => node_attrs(p),
        },
{
    match val {
        Some(x) => {
            assert((p + attr_if(k, val)).drop_last() =~= p);
        },
        None => {
            assert(p + attr_if(k, val) =~= p);
        },
    }
}

/// The builder reads back each attribute of a written node tag.
#[verifier::rlimit(50)]
proof fn lemma_node_tag(v: NodeView)
    ensures
        node_attrs(node_tag_attrs(v)) == (NodeAttrs {
            text: Some(v.text),
            id: Some(v.freemind_id),
            color: v.color,
            background_color: v.background_color,
            position: v.position,
            folded: v.folded,
            created: v.created,
            modified: v.modified,
            link: v.link,
        }),
{
    lemma_node_keys();
    reveal_strlit("left");
    reveal_strlit("right");
    reveal_strlit("true");
    if let Some(c) = v.color {
        lemma_hex_color(c);
    }
    if let Some(c) = v.background_color {
        lemma_hex_color(c);
    }
    if let Some(t) = v.created {
        lemma_parse_decimal(t);
    }
    if let Some(t) = v.modified {
        lemma_parse_decimal(t);
    }
    let e = Seq::<Option<(Seq<u8>, Option<Seq<char>>)>>::empty();
    let s1 = attr_if("BACKGROUND_COLOR"@, color_text(v.background_color));
    let s2 = s1 + attr_if("COLOR"@, color_text(v.color));
    let s3 = s2 + attr_if("CREATED"@, time_text(v.created));
    let s4 = s3 + attr_if("FOLDED"@, if v.folded { Some("true"@) } else { None });
    let s5 = s4 + attr_if("ID"@, Some(v.freemind_id));
    let s6 = s5 + attr_if("LINK"@, v.link);
    let s7 = s6 + attr_if("MODIFIED"@, time_text(v.modified));
    let s8 = s7 + attr_if("POSITION"@, match v.position { Some(x) => Some(side_name(x)), None => None });
    let s9 = s8 + attr_if("TEXT"@, Some(v.text));
    assert(e + s1 =~= s1);
    assert(node_attrs(e) == no_node_attrs());
    let n0 = no_node_attrs();
    let n1 = NodeAttrs { background_color: v.background_color, ..n0 };
    let n2 = NodeAttrs { color: v.color, ..n1 };
    let n3 = NodeAttrs { created: v.created, ..n2 };
    let n4 = NodeAttrs { folded: v.folded, ..n3 };
    let n5 = NodeAttrs { id: Some(v.freemind_id), ..n4 };
    let n6 = NodeAttrs { link: v.link, ..n5 };
    let n7 = NodeAttrs { modified: v.modified, ..n6 };
    let n8 = NodeAttrs { position: v.position, ..n7 };
    let n9 = NodeAttrs { text: Some(v.text), ..n8 };
    assert(node_attrs(s1) == n1) by {
        lemma_attrs_extend(e, "BACKGROUND_COLOR"@, color_text(v.background_color));
    }
    assert(node_attrs(s2) == n2) by {
        lemma_attrs_extend(s1, "COLOR"@, color_text(v.color));
    }
    assert(node_attrs(s3) == n3) by {
        lemma_attrs_extend(s2, "CREATED"@, time_text(v.created));
    }
    assert(node_attrs(s4) == n4) by {
        lemma_attrs_extend(s3, "FOLDED"@, if v.folded { Some("true"@) } else { None });
    }
    assert(node_attrs(s5) == n5) by {
        lemma_attrs_extend(s4, "ID"@, Some(v.freemind_id));
    }
    assert(node_attrs(s6) == n6) by {
        lemma_attrs_extend(s5, "LINK"@, v.link);
    }
    assert(node_attrs(s7) == n7) by {
        lemma_attrs_extend(s6, "MODIFIED"@, time_text(v.modified));
    }
    assert(node_attrs(s8) == n8) by {
        lemma_attrs_extend(s7, "POSITION"@, match v.position { Some(x) => Some(side_name(x)), None => None });
    }
    assert(node_attrs(s9) == n9) by {
        lemma_attrs_extend(s8, "TEXT"@, Some(v.text));
    }
    assert(s9 =~= node_tag_attrs(v));
}


/// The builder reads back the font of a written node.
#[verifier::rlimit(30)]
proof fn lemma_font_tag(h: NodeView, v: NodeView)
    requires
        !h.bold,
        h.font_name is None,
        h.font_size is None,
    ensures
        font_attrs(h, font_tag_attrs(v)) == (NodeView {
            bold: v.bold,
            font_name: v.font_name,
            font_size: size_back(v.font_size),
            ..h
        }),
{
    lemma_font_keys();
    reveal_strlit("true");
    let e = Seq::<Option<(Seq<u8>, Option<Seq<char>>)>>::empty();
    let s1 = attr_if("BOLD"@, if v.bold { Some("true"@) } else { None });
    let s2 = s1 + attr_if("NAME"@, v.font_name);
    let s3 = s2 + attr_if("SIZE"@, v.font_size);
    let h1 = NodeView { bold: v.bold, ..h };
    let h2 = NodeView { font_name: v.font_name, ..h1 };
    let h3 = NodeView { font_size: size_back(v.font_size), ..h2 };
    assert(font_attrs(h, e) == h);
    assert(font_attrs(h, s1) == h1) by {
        if v.bold {
            assert(s1.drop_last() =~= e);
        } else {
            assert(s1 =~= e);
        }
    }
    assert(font_attrs(h, s2) == h2) by {
        if v.font_name is Some {
            assert(s2.drop_last() =~= s1);
        } else {
            assert(s2 =~= s1);
        }
    }
    assert(font_attrs(h, s3) == h3) by {
        if v.font_size is Some {
            assert(s3.drop_last() =~= s2);
        } else {
            assert(s3 =~= s2);
        }
    }
    assert(s3 =~= font_tag_attrs(v));
}

proof fn lemma_note_type()
    ensures
        first_attr(seq![read_attr("TYPE"@, "NOTE"@)], "TYPE"@) == Some("NOTE"@),
{
    reveal_strlit("TYPE");
    lemma_name_bytes("TYPE"@);
    let a = seq![read_attr("TYPE"@, "NOTE"@)];
    assert(a[0] == read_attr("TYPE"@, "NOTE"@));
}

proof fn lemma_hex_digit(d: nat)
    requires
        d < 16,
    ensures
        hex_val(hex_digit(d)) == Some(d as u8),
        hex_digit(d) != '+',
        hex_digit(d) != '#',
        (hex_digit(d) as u32) < 128,
{
}

proof fn lemma_hex_color(c: Rgb)
    ensures
        hex_color(color_hex(c)) == Some(c),
{
    let s = color_hex(c);
    let t = s.drop_first();
    lemma_hex_digit((c.r / 16) as nat);
    lemma_hex_digit((c.r % 16) as nat);
    lemma_hex_digit((c.g / 16) as nat);
    lemma_hex_digit((c.g % 16) as nat);
    lemma_hex_digit((c.b / 16) as nat);
    lemma_hex_digit((c.b % 16) as nat);
    assert(t =~= hex2(c.r) + hex2(c.g) + hex2(c.b));
    assert(strip_hashes(t) == t);
    assert(strip_hashes(s) == t);
    assert(is_ascii_seq(t));
    assert(hex_pair(t[0], t[1]) == Some(c.r));
    assert(hex_pair(t[2], t[3]) == Some(c.g));
    assert(hex_pair(t[4], t[5]) == Some(c.b));
}

proof fn lemma_parse_decimal(t: u64)
    ensures
        parse_u64_spec(decimal(t as nat)) == Some(t),
{
    lemma_decimal_digits(t as nat);
}


// ---------------------------------------------------------------------------
// The builder on the written events.

/// The builder after the events, started from `b`.
spec fn run(b: BuildState, evs: Seq<XmlEventView>) -> BuildState
    decreases evs.len(),
{
    if evs.len() == 0 {
        b
    } else {
        step_spec(run(b, evs.drop_last()), evs.last())
    }
}

proof fn lemma_run_append(b: BuildState, s1: Seq<XmlEventView>, s2: Seq<XmlEventView>)
    ensures
        run(b, s1 + s2) == run(run(b, s1), s2),
    decreases s2.len(),
{
    if s2.len() == 0 {
        assert(s1 + s2 =~= s1);
    } else {
        lemma_run_append(b, s1, s2.drop_last());
        assert((s1 + s2).drop_last() =~= s1 + s2.drop_last());
        assert((s1 + s2).last() == s2.last());
    }
}

proof fn lemma_run_one(b: BuildState, e: XmlEventView)
    ensures
        run(b, seq![e]) == step_spec(b, e),
{
    assert(seq![e].drop_last() =~= Seq::<XmlEventView>::empty());
    assert(run(b, Seq::<XmlEventView>::empty()) == b);
    assert(seq![e].last() == e);
}

/// Running `e` and then the rest.
proof fn lemma_run_cons(b: BuildState, e: XmlEventView, rest: Seq<XmlEventView>)
    ensures
        run(b, seq![e] + rest) == run(step_spec(b, e), rest),
{
    lemma_run_append(b, seq![e], rest);
    lemma_run_one(b, e);
}

proof fn lemma_built_run(evs: Seq<XmlEventView>)
    ensures
        built(evs) == run(initial_build(), evs),
    decreases evs.len(),
{
    if evs.len() > 0 {
        lemma_built_run(evs.drop_last());
    }
}

/// No note is being read.
spec fn clean(b: BuildState) -> bool {
    &&& !b.in_note
    &&& !b.in_body
    &&& !b.in_p
    &&& b.paragraphs == Seq::<Seq<char>>::empty()
    &&& b.note_target is None
}

/// The open nodes are in the arena.
spec fn anc_ok(b: BuildState) -> bool {
    forall|k: int| 0 <= k < b.ancestors.len() ==> (#[trigger] b.ancestors[k]) < b.nodes.len()
}

/// `ns` with `c` added to the children of `p`, if any.
spec fn attach(ns: Seq<NodeView>, p: Option<NodeId>, c: NodeId) -> Seq<NodeView> {
    match p {
        Some(q) => ns.update(q as int, NodeView { children: ns[q as int].children.push(c), ..ns[q as int] }),
        None => ns,
    }
}

proof fn lemma_paragraphs_run(b: BuildState, ls: Seq<Seq<char>>)
    requires
        b.in_note,
        b.in_body,
        !b.in_p,
    ensures
        run(b, paragraphs_events(ls)) == (BuildState { paragraphs: b.paragraphs + kept_paragraphs(ls), ..b }),
    decreases ls.len(),
{
    if ls.len() == 0 {
        assert(b.paragraphs + kept_paragraphs(ls) =~= b.paragraphs);
        assert(paragraphs_events(ls) =~= Seq::<XmlEventView>::empty());
    } else {
        lemma_tag_names();
        let front = ls.drop_last();
        let l = ls.last();
        lemma_paragraphs_run(b, front);
        lemma_run_append(b, paragraphs_events(front), paragraph_events(l));
        let b1 = run(b, paragraphs_events(front));
        let ps = b.paragraphs + kept_paragraphs(front);
        assert(b1 == BuildState { paragraphs: ps, ..b });
        let bp = BuildState { in_p: true, ..b1 };
        assert(step_spec(b1, start_tag("p"@, Seq::empty())) == bp);
        let t = xml_trim(l);
        let tt = trim(t);
        if t.len() > 0 {
            let te = XmlEventView::Text { text: Some(t) };
            assert(paragraph_events(l) =~= seq![start_tag("p"@, Seq::empty())] + (seq![te] + seq![end_tag("p"@)]));
            lemma_run_cons(b1, start_tag("p"@, Seq::empty()), seq![te] + seq![end_tag("p"@)]);
            lemma_run_cons(bp, te, seq![end_tag("p"@)]);
            lemma_run_one(step_spec(bp, te), end_tag("p"@));
            if tt.len() > 0 {
                assert(ps.push(tt) =~= b.paragraphs + kept_paragraphs(ls));
            } else {
                assert(ps =~= b.paragraphs + kept_paragraphs(ls));
            }
        } else {
            assert(paragraph_events(l) =~= seq![start_tag("p"@, Seq::empty())] + seq![end_tag("p"@)]);
            lemma_run_cons(b1, start_tag("p"@, Seq::empty()), seq![end_tag("p"@)]);
            lemma_run_one(bp, end_tag("p"@));
            assert(trim(t) =~= t);
            assert(ps =~= b.paragraphs + kept_paragraphs(ls));
        }
    }
}


proof fn lemma_note_run(b: BuildState, v: NodeView)
    requires
        clean(b),
        b.ancestors.len() > 0,
        b.ancestors.last() < b.nodes.len(),
    ensures
        run(b, note_events(v)) == if v.notes.len() > 0 {
            BuildState {
                nodes: b.nodes.update(
                    b.ancestors.last() as int,
                    NodeView { notes: joined(kept_paragraphs(lines(v.notes))), ..b.nodes[b.ancestors.last() as int] },
                ),
                ..b
            }
        } else {
            b
        },
{
    if v.notes.len() > 0 {
        lemma_tag_names();
        lemma_note_type();
        let q = b.ancestors.last();
        assert(top_of(b) == Some(q));
        let rc = start_tag("richcontent"@, seq![read_attr("TYPE"@, "NOTE"@)]);
        let e2 = start_tag("html"@, Seq::empty());
        let e3 = start_tag("head"@, Seq::empty());
        let e4 = end_tag("head"@);
        let e5 = start_tag("body"@, Seq::empty());
        let f1 = end_tag("body"@);
        let f2 = end_tag("html"@);
        let f3 = end_tag("richcontent"@);
        let ps = paragraphs_events(lines(v.notes));
        let tail = seq![f1, f2, f3];
        assert(note_events(v) =~= seq![rc] + (seq![e2] + (seq![e3] + (seq![e4] + (seq![e5] + (ps + tail))))));
        let b1 = BuildState {
            in_note: true,
            in_body: false,
            in_p: false,
            paragraphs: Seq::empty(),
            note_target: Some(q),
            ..b
        };
        assert(step_spec(b, rc) == b1);
        lemma_run_cons(b, rc, seq![e2] + (seq![e3] + (seq![e4] + (seq![e5] + (ps + tail)))));
        assert(step_spec(b1, e2) == b1);
        lemma_run_cons(b1, e2, seq![e3] + (seq![e4] + (seq![e5] + (ps + tail))));
        assert(step_spec(b1, e3) == b1);
        lemma_run_cons(b1, e3, seq![e4] + (seq![e5] + (ps + tail)));
        assert(step_spec(b1, e4) == b1);
        lemma_run_cons(b1, e4, seq![e5] + (ps + tail));
        let b5 = BuildState { in_body: true, ..b1 };
        assert(step_spec(b1, e5) == b5);
        lemma_run_cons(b1, e5, ps + tail);
        lemma_run_append(b5, ps, tail);
        lemma_paragraphs_run(b5, lines(v.notes));
        let b6 = BuildState { paragraphs: b5.paragraphs + kept_paragraphs(lines(v.notes)), ..b5 };
        assert(b5.paragraphs + kept_paragraphs(lines(v.notes)) =~= kept_paragraphs(lines(v.notes)));
        let b7 = BuildState { in_body: false, ..b6 };
        assert(step_spec(b6, f1) == b7);
        lemma_run_cons(b6, f1, seq![f2, f3]);
        assert(seq![f2, f3] =~= seq![f2] + seq![f3]);
        assert(step_spec(b7, f2) == b7);
        lemma_run_cons(b7, f2, seq![f3]);
        lemma_run_one(b7, f3);
        assert(seq![f1, f2, f3] =~= seq![f1] + seq![f2, f3]);
        assert(step_spec(b7, f3) == closed_note(b7));
        assert(closed_note(b7).paragraphs =~= b.paragraphs);
    }
}


/// The builder after the subtree under `id`: the parent gets the copy's root
/// as its last child, and the copy follows the nodes read so far.
spec fn after_node(b: BuildState, ns: Seq<NodeView>, root: NodeId, id: NodeId, fuel: nat) -> BuildState {
    let n = b.nodes.len();
    let c = copy_tree(ns, root, id, top_of(b), n, fuel);
    if c.len() == 0 {
        b
    } else {
        BuildState {
            nodes: attach(b.nodes, top_of(b), n as NodeId) + c,
            root: if b.root is None { Some(n as NodeId) } else { b.root },
            ..b
        }
    }
}

/// The builder after the subtrees under `cs`, read inside the innermost open node.
spec fn after_list(b: BuildState, ns: Seq<NodeView>, root: NodeId, cs: Seq<NodeId>, fuel: nat) -> BuildState {
    let q = b.ancestors.last();
    let m = b.nodes.len();
    BuildState {
        nodes: b.nodes.update(
            q as int,
            NodeView { children: b.nodes[q as int].children + list_roots(ns, root, cs, q, m, fuel), ..b.nodes[q as int] },
        ) + copy_list(ns, root, cs, q, m, fuel),
        ..b
    }
}

/// A node's own tag, font and note read: its copy, without children yet, is added.
#[verifier::rlimit(60)]
proof fn lemma_node_open(b: BuildState, v: NodeView)
    requires
        clean(b),
        anc_ok(b),
        b.nodes.len() + 1 < usize::MAX,
    ensures
        ({
            let n = b.nodes.len();
            let added = BuildState {
                nodes: attach(b.nodes, top_of(b), n as NodeId).push(read_back_node(v, n as NodeId, top_of(b), Seq::empty())),
                root: if b.root is None { Some(n as NodeId) } else { b.root },
                ..b
            };
            &&& (v.children.len() == 0 && !has_font(v) && v.notes.len() == 0)
                ==> run(b, seq![empty_tag("node"@, node_tag_attrs(v))]) == added
            &&& run(b, seq![start_tag("node"@, node_tag_attrs(v))] + (font_events(v) + note_events(v)))
                == BuildState { ancestors: b.ancestors.push(n as NodeId), ..added }
        }),
{
    lemma_tag_names();
    lemma_node_tag(v);
    let n = b.nodes.len();
    let p = top_of(b);
    let nid = n as NodeId;
    let attrs = node_tag_attrs(v);
    let h = node_from_attrs(attrs, nid, p);
    let c = with_node(b, attrs);
    assert(c.nodes =~= attach(b.nodes, p, nid).push(h)) by {
        if let Some(q) = p {
            assert(b.ancestors[b.ancestors.len() - 1] == q);
        }
    }
    assert(lines(Seq::<char>::empty()) =~= Seq::<Seq<char>>::empty());
    assert(kept_paragraphs(Seq::<Seq<char>>::empty()) =~= Seq::<Seq<char>>::empty());
    assert(joined(Seq::<Seq<char>>::empty()) =~= Seq::<char>::empty());
    let rb = read_back_node(v, nid, p, Seq::empty());
    if v.children.len() == 0 && !has_font(v) && v.notes.len() == 0 {
        let ev = empty_tag("node"@, attrs);
        lemma_run_one(b, ev);
        assert(step_spec(b, ev) == c);
        assert(v.notes =~= Seq::<char>::empty());
        assert(rb == h);
    }
    let s_ev = start_tag("node"@, attrs);
    let fe = font_events(v);
    let ne = note_events(v);
    let r1 = BuildState { ancestors: c.ancestors.push(nid), ..c };
    assert(step_spec(b, s_ev) == r1);
    lemma_run_cons(b, s_ev, fe + ne);
    lemma_run_append(r1, fe, ne);
    let h2 = NodeView { bold: v.bold, font_name: v.font_name, font_size: size_back(v.font_size), ..h };
    let r2 = BuildState { nodes: r1.nodes.update(n as int, h2), ..r1 };
    assert(top_of(r1) == Some(nid));
    assert(r1.nodes[n as int] == h);
    if has_font(v) {
        lemma_run_one(r1, empty_tag("font"@, font_tag_attrs(v)));
        lemma_font_tag(h, v);
        assert(run(r1, fe) == r2);
    } else {
        assert(h2 == h);
        assert(r1.nodes.update(n as int, h2) =~= r1.nodes);
        assert(fe =~= Seq::<XmlEventView>::empty());
        assert(run(r1, fe) == r2);
    }
    assert(anc_ok(r2));
    lemma_note_run(r2, v);
    let h3 = NodeView { notes: joined(kept_paragraphs(lines(v.notes))), ..h2 };
    assert(run(r2, ne) == BuildState { nodes: r1.nodes.update(n as int, h3), ..r1 }) by {
        if v.notes.len() > 0 {
            assert(r2.nodes.update(n as int, h3) =~= r1.nodes.update(n as int, h3));
        } else {
            assert(v.notes =~= Seq::<char>::empty());
            assert(h3 == h2);
        }
    }
    assert(h3 == rb);
    assert(r1.nodes.update(n as int, h3) =~= attach(b.nodes, p, nid).push(rb));
}

#[verifier::rlimit(60)]
proof fn lemma_node_run(b: BuildState, ns: Seq<NodeView>, root: NodeId, id: NodeId, fuel: nat)
    requires
        clean(b),
        anc_ok(b),
        b.nodes.len() + node_events(ns, root, id, fuel).len() < usize::MAX,
    ensures
        copy_tree(ns, root, id, top_of(b), b.nodes.len(), fuel).len() <= node_events(ns, root, id, fuel).len(),
        run(b, node_events(ns, root, id, fuel)) == after_node(b, ns, root, id, fuel),
    decreases fuel, 0nat, 0nat,
{
    let v = ns[id as int];
    let n = b.nodes.len();
    let p = top_of(b);
    let nid = n as NodeId;
    let cp = copy_tree(ns, root, id, p, n, fuel);
    if fuel == 0 || (v.text.len() == 0 && v.parent is None && id != root) {
        assert(node_events(ns, root, id, fuel) =~= Seq::<XmlEventView>::empty());
        assert(cp =~= Seq::<NodeView>::empty());
    } else {
        let f = (fuel - 1) as nat;
        let roots = list_roots(ns, root, v.children, nid, n + 1, f);
        let cl = copy_list(ns, root, v.children, nid, n + 1, f);
        let rb = read_back_node(v, nid, p, Seq::empty());
        assert(cp == seq![read_back_node(v, nid, p, roots)] + cl);
        lemma_node_open(b, v);
        if v.children.len() == 0 && !has_font(v) && v.notes.len() == 0 {
            assert(node_events(ns, root, id, fuel) == seq![empty_tag("node"@, node_tag_attrs(v))]);
            assert(roots =~= Seq::<NodeId>::empty());
            assert(cl =~= Seq::<NodeView>::empty());
            assert(attach(b.nodes, p, nid).push(rb) =~= attach(b.nodes, p, nid) + cp);
        } else {
            let opening = seq![start_tag("node"@, node_tag_attrs(v))] + (font_events(v) + note_events(v));
            let le = list_events(ns, root, v.children, f);
            let ee = end_tag("node"@);
            assert(node_events(ns, root, id, fuel) =~= opening + (le + seq![ee]));
            lemma_run_append(b, opening, le + seq![ee]);
            let r3 = run(b, opening);
            assert(r3.nodes == attach(b.nodes, p, nid).push(rb));
            assert(anc_ok(r3));
            lemma_run_append(r3, le, seq![ee]);
            lemma_list_run(r3, ns, root, v.children, f);
            let r4 = after_list(r3, ns, root, v.children, f);
            lemma_run_one(r4, ee);
            lemma_tag_names();
            assert(step_spec(r4, ee) == BuildState { ancestors: r4.ancestors.drop_last(), ..r4 });
            assert(r4.ancestors.drop_last() =~= b.ancestors);
            assert(r3.nodes[n as int] == rb);
            assert(read_back_node(v, nid, p, roots) == NodeView { children: rb.children + roots, ..rb });
            assert(r4.nodes =~= attach(b.nodes, p, nid) + cp);
        }
    }
}

#[verifier::rlimit(40)]
proof fn lemma_list_run(b: BuildState, ns: Seq<NodeView>, root: NodeId, cs: Seq<NodeId>, fuel: nat)
    requires
        clean(b),
        anc_ok(b),
        b.ancestors.len() > 0,
        b.root is Some,
        b.nodes.len() + list_events(ns, root, cs, fuel).len() < usize::MAX,
    ensures
        copy_list(ns, root, cs, b.ancestors.last(), b.nodes.len(), fuel).len() <= list_events(ns, root, cs, fuel).len(),
        run(b, list_events(ns, root, cs, fuel)) == after_list(b, ns, root, cs, fuel),
    decreases fuel, 1nat, cs.len(),
{
    let q = b.ancestors.last();
    let m = b.nodes.len();
    assert(q < m) by {
        assert(b.ancestors[b.ancestors.len() - 1] == q);
    }
    let kids = b.nodes[q as int].children;
    if cs.len() == 0 {
        assert(kids + list_roots(ns, root, cs, q, m, fuel) =~= kids);
        assert(b.nodes.update(q as int, NodeView { children: kids, ..b.nodes[q as int] }) =~= b.nodes);
        assert(copy_list(ns, root, cs, q, m, fuel) =~= Seq::<NodeView>::empty());
        assert(b.nodes + Seq::<NodeView>::empty() =~= b.nodes);
        assert(list_events(ns, root, cs, fuel) =~= Seq::<XmlEventView>::empty());
    } else {
        let front = cs.drop_last();
        let last = cs.last();
        lemma_list_run(b, ns, root, front, fuel);
        lemma_run_append(b, list_events(ns, root, front, fuel), node_events(ns, root, last, fuel));
        let r = after_list(b, ns, root, front, fuel);
        let fc = copy_list(ns, root, front, q, m, fuel);
        let fr = list_roots(ns, root, front, q, m, fuel);
        let base = m + fc.len();
        assert(r.nodes.len() == base);
        assert(r.ancestors == b.ancestors);
        assert(anc_ok(r));
        assert(top_of(r) == Some(q));
        lemma_node_run(r, ns, root, last, fuel);
        let lc = copy_tree(ns, root, last, Some(q), base, fuel);
        let w = NodeView { children: kids + fr, ..b.nodes[q as int] };
        assert(r.nodes == b.nodes.update(q as int, w) + fc);
        assert(copy_list(ns, root, cs, q, m, fuel) == fc + lc);
        if lc.len() > 0 {
            assert(list_roots(ns, root, cs, q, m, fuel) == fr + seq![base as NodeId]);
            assert(r.nodes[q as int] == w);
            assert((kids + fr).push(base as NodeId) =~= kids + fr + seq![base as NodeId]);
            assert(attach(r.nodes, Some(q), base as NodeId) =~= b.nodes.update(q as int, NodeView { children: kids + fr + seq![base as NodeId], ..b.nodes[q as int] }) + fc);
            assert(kids + fr + seq![base as NodeId] =~= kids + (fr + seq![base as NodeId]));
            assert(attach(r.nodes, Some(q), base as NodeId) + lc =~= b.nodes.update(q as int, NodeView { children: kids + list_roots(ns, root, cs, q, m, fuel), ..b.nodes[q as int] }) + (fc + lc));
        } else {
            assert(list_roots(ns, root, cs, q, m, fuel) =~= fr);
            assert(fc + lc =~= fc);
        }
    }
}


// ---------------------------------------------------------------------------
// The law.

/// No end of input and no error among the events.
spec fn no_stop(s: Seq<XmlEventView>) -> bool {
    forall|i: int| 0 <= i < s.len() ==> !ends_reading(#[trigger] s[i])
}

proof fn lemma_no_stop_add(a: Seq<XmlEventView>, b: Seq<XmlEventView>)
    requires
        no_stop(a),
        no_stop(b),
    ensures
        no_stop(a + b),
{
    assert forall|i: int| 0 <= i < (a + b).len() implies !ends_reading(#[trigger] (a + b)[i]) by {
        if i >= a.len() {
            assert((a + b)[i] == b[i - a.len()]);
        }
    }
}

proof fn lemma_paragraphs_no_stop(ls: Seq<Seq<char>>)
    ensures
        no_stop(paragraphs_events(ls)),
    decreases ls.len(),
{
    if ls.len() > 0 {
        lemma_paragraphs_no_stop(ls.drop_last());
        let l = ls.last();
        let mid = if xml_trim(l).len() > 0 { seq![XmlEventView::Text { text: Some(xml_trim(l)) }] } else { Seq::empty() };
        lemma_no_stop_add(seq![start_tag("p"@, Seq::empty())], mid);
        lemma_no_stop_add(seq![start_tag("p"@, Seq::empty())] + mid, seq![end_tag("p"@)]);
        lemma_no_stop_add(paragraphs_events(ls.drop_last()), paragraph_events(l));
    }
}

proof fn lemma_node_no_stop(ns: Seq<NodeView>, root: NodeId, id: NodeId, fuel: nat)
    ensures
        no_stop(node_events(ns, root, id, fuel)),
    decreases fuel, 0nat, 0nat,
{
    let v = ns[id as int];
    if !(fuel == 0 || (v.text.len() == 0 && v.parent is None && id != root))
        && !(v.children.len() == 0 && !has_font(v) && v.notes.len() == 0) {
        let f = (fuel - 1) as nat;
        lemma_list_no_stop(ns, root, v.children, f);
        lemma_paragraphs_no_stop(lines(v.notes));
        let ne = note_events(v);
        if v.notes.len() > 0 {
            let head = seq![
                start_tag("richcontent"@, seq![read_attr("TYPE"@, "NOTE"@)]),
                start_tag("html"@, Seq::empty()),
                start_tag("head"@, Seq::empty()),
                end_tag("head"@),
                start_tag("body"@, Seq::empty()),
            ];
            let tail = seq![end_tag("body"@), end_tag("html"@), end_tag("richcontent"@)];
            lemma_no_stop_add(head, paragraphs_events(lines(v.notes)));
            lemma_no_stop_add(head + paragraphs_events(lines(v.notes)), tail);
        }
        let s_ev = seq![start_tag("node"@, node_tag_attrs(v))];
        lemma_no_stop_add(s_ev, font_events(v));
        lemma_no_stop_add(s_ev + font_events(v), ne);
        lemma_no_stop_add(s_ev + font_events(v) + ne, list_events(ns, root, v.children, f));
        lemma_no_stop_add(s_ev + font_events(v) + ne + list_events(ns, root, v.children, f), seq![end_tag("node"@)]);
    }
}

proof fn lemma_list_no_stop(ns: Seq<NodeView>, root: NodeId, cs: Seq<NodeId>, fuel: nat)
    ensures
        no_stop(list_events(ns, root, cs, fuel)),
    decreases fuel, 1nat, cs.len(),
{
    if cs.len() > 0 {
        lemma_list_no_stop(ns, root, cs.drop_last(), fuel);
        lemma_node_no_stop(ns, root, cs.last(), fuel);
        lemma_no_stop_add(list_events(ns, root, cs.drop_last(), fuel), node_events(ns, root, cs.last(), fuel));
    }
}

/// Reading back a written map gives a copy of it. Where reading the document
/// that the writer made of `t` produces the events that its tags spell out,
/// the builder makes a tree whose nodes are those of `t` in document order,
/// each with the same text, id, side, folding, colors, times, link, boldness
/// and font name, its font size where that is a number, its note's lines
/// trimmed with the blank ones dropped, and its parent and children renumbered
/// alike. Ids, font names and font sizes are written as they are, so the law
/// is stated for trees where they hold no `&` and no `"`.
pub proof fn lemma_read_back(t: MindmapTree, evs: Seq<XmlEvent>, res: Result<MindmapTree, MmError>)
    requires
        t.wf(),
        plain_attrs(t.ns()),
        evs.len() < usize::MAX,
        events_view(evs) == written_events(&t),
        parse_outcome_ok(evs, res),
    ensures
        res matches Ok(t2) && t2.ns() == read_back_copy(&t),
{
    let ns = t.ns();
    let w = written_events(&t);
    let ne = node_events(ns, t.root, t.root, ns.len());
    let m = start_tag("map"@, seq![read_attr("version"@, "1.0.1"@)]);
    let me = end_tag("map"@);
    assert(w == seq![m, XmlEventView::Other] + ne + seq![me, XmlEventView::Eof]);
    let k = w.len() - 1;
    lemma_node_no_stop(ns, t.root, t.root, ns.len());
    assert forall|j: int| 0 <= j < k implies !is_stop(#[trigger] evs[j]) by {
        assert(events_view(evs)[j] == evs[j]@);
        if 2 <= j < 2 + ne.len() {
            assert(w[j] == ne[j - 2]);
        }
    }
    assert(events_view(evs)[k] == evs[k]@);
    assert(evs[k] is Eof);
    lemma_first_stop(evs, k);
    let front = seq![m] + (seq![XmlEventView::Other] + (ne + seq![me]));
    assert(events_view(evs).take(k) =~= front);
    lemma_built_run(front);
    lemma_tag_names();
    let b0 = initial_build();
    assert(step_spec(b0, m) == b0);
    lemma_run_cons(b0, m, seq![XmlEventView::Other] + (ne + seq![me]));
    lemma_run_cons(b0, XmlEventView::Other, ne + seq![me]);
    lemma_run_append(b0, ne, seq![me]);
    assert(clean(b0));
    assert(anc_ok(b0));
    lemma_node_run(b0, ns, t.root, t.root, ns.len());
    let b1 = after_node(b0, ns, t.root, t.root, ns.len());
    let cp = read_back_copy(&t);
    assert(cp.len() > 0);
    assert(b1.nodes =~= cp);
    lemma_run_one(b1, me);
    assert(step_spec(b1, me) == b1);
}


/// Writing a map and reading the text back gives the copy of the law above,
/// where the reader's events on the written document are those its tags spell
/// out: this joins what `serialize_tree` and `parse_mm_xml` state of their results.
pub proof fn lemma_write_then_read(t: MindmapTree, len: nat, res: Result<MindmapTree, MmError>)
    requires
        t.wf(),
        plain_attrs(t.ns()),
        doc_events(freemind_doc(&t), len) == written_events(&t),
        written_events(&t).len() < usize::MAX,
        exists|evs: Seq<XmlEvent>| events_view(evs) == doc_events(freemind_doc(&t), len) && #[trigger] parse_outcome_ok(evs, res),
    ensures
        res matches Ok(t2) && t2.ns() == read_back_copy(&t),
{
    let evs = choose|evs: Seq<XmlEvent>| events_view(evs) == doc_events(freemind_doc(&t), len) && #[trigger] parse_outcome_ok(evs, res);
    assert(evs.len() == events_view(evs).len());
    lemma_read_back(t, evs, res);
}

} // verus!
