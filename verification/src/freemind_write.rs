//! Writing a tree as a FreeMind `.mm` document.
use vstd::prelude::*;
use crate::export::{pad, push_escaped, xml_escaped};
use crate::node::{MindmapNode, NodeId, NodeView, Rgb, Side};
use crate::text::{decimal, lines, lines_of, push_char, push_decimal, push_repeat, push_str};
use crate::tree::MindmapTree;
use crate::walk::{children_ok, ranked};

verus! {

pub open spec fn hex_digit(d: nat) -> char {
    if d < 10 {
        ((d + 48) as u8) as char
    } else {
        ((d + 87) as u8) as char
    }
}

/// Two lower-case hexadecimal digits.
pub open spec fn hex2(b: u8) -> Seq<char> {
    seq![hex_digit((b / 16) as nat), hex_digit((b % 16) as nat)]
}

/// `#rrggbb` in lower-case hexadecimal.
pub open spec fn color_hex(c: Rgb) -> Seq<char> {
    seq!['#'] + hex2(c.r) + hex2(c.g) + hex2(c.b)
}

fn hex_char(d: u8) -> (c: char)
    requires
        d < 16,
    ensures
        c == hex_digit(d as nat),
{
    if d < 10 {
        (d + 48) as char
    } else {
        (d + 87) as char
    }
}

fn push_color(out: &mut String, c: Rgb)
    ensures
        final(out)@ == old(out)@ + color_hex(c),
{
    push_char(out, '#');
    push_char(out, hex_char(c.r / 16));
    push_char(out, hex_char(c.r % 16));
    push_char(out, hex_char(c.g / 16));
    push_char(out, hex_char(c.g % 16));
    push_char(out, hex_char(c.b / 16));
    push_char(out, hex_char(c.b % 16));
    assert(out@ =~= old(out)@ + color_hex(c));
}

pub open spec fn opt_attr(name: Seq<char>, value: Option<Seq<char>>) -> Seq<char> {
    match value {
        Some(v) => name + v + "\""@,
        None => Seq::empty(),
    }
}

pub open spec fn side_name(s: Side) -> Seq<char> {
    match s {
        Side::Left => "left"@,
        Side::Right => "right"@,
    }
}

/// The first attributes of a node: colors, creation time, folding.
pub open spec fn head_attrs(v: NodeView) -> Seq<char> {
    opt_attr(" BACKGROUND_COLOR=\""@, match v.background_color { Some(c) => Some(color_hex(c)), None => None })
        + opt_attr(" COLOR=\""@, match v.color { Some(c) => Some(color_hex(c)), None => None })
        + opt_attr(" CREATED=\""@, match v.created { Some(t) => Some(decimal(t as nat)), None => None })
        + (if v.folded { " FOLDED=\"true\""@ } else { Seq::empty() })
}

/// The attributes after the id: link, modification time, side.
pub open spec fn tail_attrs(v: NodeView) -> Seq<char> {
    opt_attr(" LINK=\""@, match v.link { Some(l) => Some(xml_escaped(l)), None => None })
        + opt_attr(" MODIFIED=\""@, match v.modified { Some(t) => Some(decimal(t as nat)), None => None })
        + opt_attr(" POSITION=\""@, match v.position { Some(s) => Some(side_name(s)), None => None })
}

/// The opening of a node's `<node` element with its attributes, in the order
/// FreeMind writes them.
#[verifier::opaque]
pub open spec fn node_head(v: NodeView, indent: nat) -> Seq<char> {
    pad(indent) + "<node"@ + head_attrs(v)
        + " ID=\""@ + v.freemind_id + "\""@
        + tail_attrs(v)
        + " TEXT=\""@ + xml_escaped(v.text) + "\""@
}

pub open spec fn has_font(v: NodeView) -> bool {
    v.bold || v.font_size is Some || v.font_name is Some
}

/// The `<font>` element of a node with font attributes.
#[verifier::opaque]
pub open spec fn font_elem(v: NodeView, indent: nat) -> Seq<char> {
    if has_font(v) {
        pad(indent) + "  <font"@
            + (if v.bold { " BOLD=\"true\""@ } else { Seq::empty() })
            + opt_attr(" NAME=\""@, v.font_name)
            + opt_attr(" SIZE=\""@, v.font_size)
            + "/>\n"@
    } else {
        Seq::empty()
    }
}

/// Each line as an escaped HTML paragraph.
pub open spec fn paragraphs(ls: Seq<Seq<char>>, indent: nat) -> Seq<char>
    decreases ls.len(),
{
    if ls.len() == 0 {
        Seq::empty()
    } else {
        paragraphs(ls.drop_last(), indent) + pad(indent) + "    <p>"@ + xml_escaped(ls.last()) + "</p>\n"@
    }
}

/// The notes of a node as a FreeMind rich-content note.
#[verifier::opaque]
pub open spec fn notes_elem(v: NodeView, indent: nat) -> Seq<char> {
    if v.notes.len() > 0 {
        pad(indent) + "  <richcontent TYPE=\"NOTE\"><html><head></head><body>\n"@
            + paragraphs(lines(v.notes), indent)
            + pad(indent) + "  </body></html></richcontent>\n"@
    } else {
        Seq::empty()
    }
}

/// The FreeMind element of the subtree under `id`; a deleted node (empty text,
/// no parent, not the root) is left out.
pub open spec fn fm_node(ns: Seq<NodeView>, root: NodeId, id: NodeId, indent: nat, fuel: nat) -> Seq<char>
    decreases fuel, 0nat, 0nat,
{
    let v = ns[id as int];
    if fuel == 0 || (v.text.len() == 0 && v.parent is None && id != root) {
        Seq::empty()
    } else if v.children.len() == 0 && !has_font(v) && v.notes.len() == 0 {
        node_head(v, indent) + "/>\n"@
    } else {
        node_head(v, indent) + ">\n"@ + font_elem(v, indent) + notes_elem(v, indent)
            + fm_list(ns, root, v.children, indent + 1, (fuel - 1) as nat)
            + pad(indent) + "</node>\n"@
    }
}

pub open spec fn fm_list(ns: Seq<NodeView>, root: NodeId, cs: Seq<NodeId>, indent: nat, fuel: nat) -> Seq<char>
    decreases fuel, 1nat, cs.len(),
{
    if cs.len() == 0 {
        Seq::empty()
    } else {
        fm_list(ns, root, cs.drop_last(), indent, fuel) + fm_node(ns, root, cs.last(), indent, fuel)
    }
}

/// The FreeMind document of a tree.
pub open spec fn freemind_doc(t: &MindmapTree) -> Seq<char> {
    "<map version=\"1.0.1\">\n"@
        + "<!-- To view this file, download free mind mapping software FreeMind from http://freemind.sourceforge.net -->\n"@
        + fm_node(t.ns(), t.root, t.root, 0, t.ns().len())
        + "</map>\n"@
}

fn push_opt_str(out: &mut String, name: &str, value: &Option<String>)
    ensures
        final(out)@ == old(out)@ + opt_attr(name@, crate::node::opt_str_view(*value)),
{
    match value {
        Some(v) => {
            push_str(out, name);
            push_str(out, v.as_str());
            push_str(out, "\"");
            assert(out@ =~= old(out)@ + (name@ + v@ + "\""@));
        },
        None => {
            assert(out@ =~= old(out)@ + Seq::<char>::empty());
        },
    }
}

fn push_opt_num(out: &mut String, name: &str, value: Option<u64>)
    ensures
        final(out)@ == old(out)@ + opt_attr(name@, match value { Some(t) => Some(decimal(t as nat)), None => None }),
{
    match value {
        Some(t) => {
            push_str(out, name);
            push_decimal(out, t);
            push_str(out, "\"");
            assert(out@ =~= old(out)@ + (name@ + decimal(t as nat) + "\""@));
        },
        None => {
            assert(out@ =~= old(out)@ + Seq::<char>::empty());
        },
    }
}

fn push_opt_color(out: &mut String, name: &str, value: Option<Rgb>)
    ensures
        final(out)@ == old(out)@ + opt_attr(name@, match value { Some(c) => Some(color_hex(c)), None => None }),
{
    match value {
        Some(c) => {
            push_str(out, name);
            push_color(out, c);
            push_str(out, "\"");
            assert(out@ =~= old(out)@ + (name@ + color_hex(c) + "\""@));
        },
        None => {
            assert(out@ =~= old(out)@ + Seq::<char>::empty());
        },
    }
}

fn push_head_attrs(out: &mut String, node: &MindmapNode)
    ensures
        final(out)@ == old(out)@ + head_attrs(node@),
{
    let ghost start = out@;
    push_opt_color(out, " BACKGROUND_COLOR=\"", node.background_color);
    push_opt_color(out, " COLOR=\"", node.color);
    push_opt_num(out, " CREATED=\"", node.created);
    let ghost s2 = out@;
    if node.folded {
        push_str(out, " FOLDED=\"true\"");
    }
    assert(out@ =~= s2 + (if node@.folded { " FOLDED=\"true\""@ } else { Seq::empty() }));
    assert(out@ =~= start + head_attrs(node@));
}

fn push_tail_attrs(out: &mut String, node: &MindmapNode)
    ensures
        final(out)@ == old(out)@ + tail_attrs(node@),
{
    let ghost start = out@;
    match &node.link {
        Some(l) => {
            push_str(out, " LINK=\"");
            push_escaped(out, l.as_str());
            push_str(out, "\"");
            assert(out@ =~= start + (" LINK=\""@ + xml_escaped(l@) + "\""@));
        },
        None => {
            assert(out@ =~= start + Seq::<char>::empty());
        },
    }
    push_opt_num(out, " MODIFIED=\"", node.modified);
    let ghost s4 = out@;
    match node.position {
        Some(Side::Left) => {
            push_str(out, " POSITION=\"");
            push_str(out, "left");
            push_str(out, "\"");
            assert(out@ =~= s4 + (" POSITION=\""@ + "left"@ + "\""@));
        },
        Some(Side::Right) => {
            push_str(out, " POSITION=\"");
            push_str(out, "right");
            push_str(out, "\"");
            assert(out@ =~= s4 + (" POSITION=\""@ + "right"@ + "\""@));
        },
        None => {
            assert(out@ =~= s4 + Seq::<char>::empty());
        },
    }
    assert(out@ =~= start + tail_attrs(node@));
}

fn push_node_head(out: &mut String, node: &MindmapNode, indent: usize)
    ensures
        final(out)@ == old(out)@ + node_head(node@, indent as nat),
{
    let ghost start = out@;
    push_repeat(out, "  ", indent);
    push_str(out, "<node");
    push_head_attrs(out, node);
    push_str(out, " ID=\"");
    push_str(out, node.freemind_id.as_str());
    push_str(out, "\"");
    push_tail_attrs(out, node);
    push_str(out, " TEXT=\"");
    push_escaped(out, node.text.as_str());
    push_str(out, "\"");
    proof {
        reveal(node_head);
    }
    assert(out@ =~= start + node_head(node@, indent as nat));
}

fn push_font(out: &mut String, node: &MindmapNode, indent: usize)
    ensures
        final(out)@ == old(out)@ + font_elem(node@, indent as nat),
{
    let ghost v = node@;
    if node.bold || node.font_size.is_some() || node.font_name.is_some() {
        let ghost start = out@;
        push_repeat(out, "  ", indent);
        push_str(out, "  <font");
        let ghost s1 = out@;
        if node.bold {
            push_str(out, " BOLD=\"true\"");
        }
        assert(out@ =~= s1 + (if v.bold { " BOLD=\"true\""@ } else { Seq::empty() }));
        push_opt_str(out, " NAME=\"", &node.font_name);
        push_opt_str(out, " SIZE=\"", &node.font_size);
        push_str(out, "/>\n");
        proof {
            reveal(font_elem);
        }
        assert(out@ =~= start + font_elem(v, indent as nat));
    } else {
        proof {
            reveal(font_elem);
        }
        assert(out@ =~= old(out)@ + Seq::<char>::empty());
    }
}

fn push_notes(out: &mut String, node: &MindmapNode, indent: usize)
    ensures
        final(out)@ == old(out)@ + notes_elem(node@, indent as nat),
{
    let ghost v = node@;
    if !node.notes.as_str().is_empty() {
        let ghost start = out@;
        push_repeat(out, "  ", indent);
        push_str(out, "  <richcontent TYPE=\"NOTE\"><html><head></head><body>\n");
        let ghost mid = out@;
        let ls = lines_of(node.notes.as_str());
        let mut i: usize = 0;
        while i < ls.len()
            invariant
                i <= ls.len(),
                v == node@,
                ls@.len() == lines(v.notes).len(),
                forall|j: int| 0 <= j < ls@.len() ==> (#[trigger] ls@[j])@ == lines(v.notes)[j],
                out@ == mid + paragraphs(lines(v.notes).take(i as int), indent as nat),
            decreases ls.len() - i,
        {
            push_repeat(out, "  ", indent);
            push_str(out, "    <p>");
            push_escaped(out, ls[i].as_str());
            push_str(out, "</p>\n");
            proof {
                let l = lines(v.notes);
                assert(l.take(i + 1).drop_last() =~= l.take(i as int));
                assert(l.take(i + 1).last() == l[i as int]);
            }
            i = i + 1;
            assert(out@ =~= mid + paragraphs(lines(v.notes).take(i as int), indent as nat));
        }
        assert(lines(v.notes).take(i as int) =~= lines(v.notes));
        push_repeat(out, "  ", indent);
        push_str(out, "  </body></html></richcontent>\n");
        proof {
            reveal(notes_elem);
        }
        assert(out@ =~= start + notes_elem(v, indent as nat));
    } else {
        proof {
            reveal(notes_elem);
        }
        assert(out@ =~= old(out)@ + Seq::<char>::empty());
    }
}

fn write_node(tree: &MindmapTree, id: NodeId, indent: usize, out: &mut String, Ghost(rank): Ghost<Seq<nat>>, Ghost(fuel): Ghost<nat>)
    requires
        tree.wf(),
        ranked(tree.ns(), rank),
        id < tree.nodes.len(),
        fuel >= tree.nodes.len() - rank[id as int],
        indent <= rank[id as int],
    ensures
        final(out)@ == old(out)@ + fm_node(tree.ns(), tree.root, id, indent as nat, fuel),
    decreases fuel,
{
    let ghost ns = tree.ns();
    let node = &tree.nodes[id];
    assert(node@ == ns[id as int]);
    if node.text.as_str().is_empty() && node.parent.is_none() && id != tree.root {
        return;
    }
    let ghost start = out@;
    push_node_head(out, node, indent);
    let has_font = node.bold || node.font_size.is_some() || node.font_name.is_some();
    if node.children.len() == 0 && !has_font && node.notes.as_str().is_empty() {
        push_str(out, "/>\n");
        assert(out@ =~= start + fm_node(ns, tree.root, id, indent as nat, fuel));
        return;
    }
    push_str(out, ">\n");
    push_font(out, node, indent);
    push_notes(out, node, indent);
    let ghost mid = out@;
    let mut i: usize = 0;
    assert(children_ok(ns, id as int));
    while i < node.children.len()
        invariant
            tree.wf(),
            ns == tree.ns(),
            ranked(ns, rank),
            id < tree.nodes.len(),
            node == &tree.nodes[id as int],
            fuel >= tree.nodes.len() - rank[id as int],
            indent <= rank[id as int],
            i <= node.children.len(),
            out@ == mid + fm_list(ns, tree.root, ns[id as int].children.take(i as int), (indent + 1) as nat, (fuel - 1) as nat),
        decreases node.children.len() - i,
    {
        let c = node.children[i];
        assert(ns[id as int].children[i as int] == c);
        assert(c < ns.len() && rank[id as int] < rank[c as int]);
        write_node(tree, c, indent + 1, out, Ghost(rank), Ghost((fuel - 1) as nat));
        proof {
            let cs = ns[id as int].children;
            assert(cs.take(i + 1).drop_last() =~= cs.take(i as int));
            assert(cs.take(i + 1).last() == c);
        }
        i = i + 1;
    }
    assert(ns[id as int].children.take(i as int) =~= ns[id as int].children);
    push_repeat(out, "  ", indent);
    push_str(out, "</node>\n");
    assert(out@ =~= start + fm_node(ns, tree.root, id, indent as nat, fuel));
}

/// The tree as a FreeMind `.mm` document.
pub fn serialize_tree(tree: &MindmapTree) -> (res: String)
    requires
        tree.wf(),
    ensures
        res@ == freemind_doc(tree),
{
    let ghost rank = choose|rank: Seq<nat>| ranked(tree.ns(), rank);
    let mut out = String::new();
    push_str(&mut out, "<map version=\"1.0.1\">\n");
    push_str(&mut out, "<!-- To view this file, download free mind mapping software FreeMind from http://freemind.sourceforge.net -->\n");
    write_node(tree, tree.root, 0, &mut out, Ghost(rank), Ghost(tree.ns().len()));
    push_str(&mut out, "</map>\n");
    assert(out@ =~= freemind_doc(tree));
    out
}


/// The FreeMind elements of sibling subtrees are written one after another, in the order of
/// the list: the text for a list is that of its first part followed by that of
/// the rest.
pub proof fn lemma_fm_list_concat(ns: Seq<NodeView>, root: NodeId, a: Seq<NodeId>, b: Seq<NodeId>, d: nat, fuel: nat)
    ensures
        fm_list(ns, root, a + b, d, fuel) == fm_list(ns, root, a, d, fuel) + fm_list(ns, root, b, d, fuel),
    decreases b.len(),
{
    if b.len() == 0 {
        assert(a + b =~= a);
        assert(fm_list(ns, root, a, d, fuel) + Seq::<char>::empty() =~= fm_list(ns, root, a, d, fuel));
    } else {
        lemma_fm_list_concat(ns, root, a, b.drop_last(), d, fuel);
        assert((a + b).drop_last() =~= a + b.drop_last());
        assert((a + b).last() == b.last());
    }
}

/// Each child's subtree is written after those of the children before it and
/// before those of the children after it.
pub proof fn lemma_fm_child_in_place(ns: Seq<NodeView>, root: NodeId, cs: Seq<NodeId>, i: int, d: nat, fuel: nat)
    requires
        0 <= i < cs.len(),
    ensures
        fm_list(ns, root, cs, d, fuel)
            == fm_list(ns, root, cs.take(i), d, fuel) + fm_node(ns, root, cs[i], d, fuel) + fm_list(ns, root, cs.skip(i + 1), d, fuel),
{
    let one = seq![cs[i]];
    assert(cs =~= cs.take(i) + one + cs.skip(i + 1));
    lemma_fm_list_concat(ns, root, cs.take(i) + one, cs.skip(i + 1), d, fuel);
    lemma_fm_list_concat(ns, root, cs.take(i), one, d, fuel);
    assert(one.drop_last() =~= Seq::<NodeId>::empty());
    let e = Seq::<NodeId>::empty();
    assert(fm_list(ns, root, e, d, fuel) == Seq::<char>::empty());
    assert(Seq::<char>::empty() + fm_node(ns, root, cs[i], d, fuel) =~= fm_node(ns, root, cs[i], d, fuel));
    assert(fm_list(ns, root, one, d, fuel) == fm_list(ns, root, e, d, fuel) + fm_node(ns, root, one.last(), d, fuel));
    assert(fm_list(ns, root, one, d, fuel) =~= fm_node(ns, root, cs[i], d, fuel));
}
} // verus!
