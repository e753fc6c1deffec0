//! Text exports of the tree: Markdown headings and OPML outlines, and XML escaping.
use vstd::prelude::*;
use crate::node::{NodeId, NodeView};
use crate::text::{lines, lines_of, push_repeat, push_str, repeat};
use crate::tree::MindmapTree;
use crate::walk::{forest_wf, ranked, children_ok};

verus! {

/// The XML escape of one character.
pub open spec fn esc_char(c: char) -> Seq<char> {
    if c == '&' {
        seq!['&', 'a', 'm', 'p', ';']
    } else if c == '<' {
        seq!['&', 'l', 't', ';']
    } else if c == '>' {
        seq!['&', 'g', 't', ';']
    } else if c == '"' {
        seq!['&', 'q', 'u', 'o', 't', ';']
    } else if c == '\'' {
        seq!['&', 'a', 'p', 'o', 's', ';']
    } else {
        seq![c]
    }
}

/// `s` with `&`, `<`, `>`, `"` and `'` replaced by their XML entities.
pub open spec fn xml_escaped(s: Seq<char>) -> Seq<char>
    decreases s.len(),
{
    if s.len() == 0 {
        Seq::empty()
    } else {
        xml_escaped(s.drop_last()) + esc_char(s.last())
    }
}

fn push_chars(out: &mut String, cs: &[char])
    ensures
        final(out)@ == old(out)@ + cs@,
{
    let mut i: usize = 0;
    while i < cs.len()
        invariant
            i <= cs.len(),
            out@ == old(out)@ + cs@.take(i as int),
        decreases cs.len() - i,
    {
        crate::text::push_char(out, cs[i]);
        i = i + 1;
        assert(out@ =~= old(out)@ + cs@.take(i as int));
    }
    assert(cs@.take(i as int) =~= cs@);
}

/// Appends `s` escaped for XML.
pub fn push_escaped(out: &mut String, s: &str)
    ensures
        final(out)@ == old(out)@ + xml_escaped(s@),
{
    let ghost start = out@;
    let ghost mut k: int = 0;
    for c in it: s.chars()
        invariant
            it.seq() == s@,
            k == it.index(),
            k <= s@.len(),
            out@ == start + xml_escaped(s@.take(k)),
    {
        let ghost before = out@;
        if c == '&' {
            push_chars(out, &['&', 'a', 'm', 'p', ';']);
        } else if c == '<' {
            push_chars(out, &['&', 'l', 't', ';']);
        } else if c == '>' {
            push_chars(out, &['&', 'g', 't', ';']);
        } else if c == '"' {
            push_chars(out, &['&', 'q', 'u', 'o', 't', ';']);
        } else if c == '\'' {
            push_chars(out, &['&', 'a', 'p', 'o', 's', ';']);
        } else {
            crate::text::push_char(out, c);
        }
        proof {
            assert(s@.take(k + 1).drop_last() =~= s@.take(k));
            assert(s@.take(k + 1).last() == c);
            assert(out@ =~= before + esc_char(c));
            k = k + 1;
        }
    }
    assert(k == s@.len());
    assert(s@.take(k) =~= s@);
}

/// A copy of `s` escaped for XML.
pub fn xml_escape(s: &str) -> (res: String)
    ensures
        res@ == xml_escaped(s@),
{
    let mut out = String::new();
    push_escaped(&mut out, s);
    assert(out@ =~= xml_escaped(s@));
    out
}

/// The escape of one character in the text of an SVG picture: the apostrophe
/// is left as it is.
pub open spec fn svg_esc_char(c: char) -> Seq<char> {
    if c == '\'' { seq![c] } else { esc_char(c) }
}

/// `s` with `&`, `<`, `>` and `"` replaced by their XML entities.
pub open spec fn svg_escaped(s: Seq<char>) -> Seq<char>
    decreases s.len(),
{
    if s.len() == 0 {
        Seq::empty()
    } else {
        svg_escaped(s.drop_last()) + svg_esc_char(s.last())
    }
}

/// A copy of `s` escaped for the text of an SVG picture.
pub fn svg_escape(s: &str) -> (res: String)
    ensures
        res@ == svg_escaped(s@),
{
    let mut out = String::new();
    let ghost mut k: int = 0;
    for c in it: s.chars()
        invariant
            it.seq() == s@,
            k == it.index(),
            k <= s@.len(),
            out@ == svg_escaped(s@.take(k)),
    {
        let ghost before = out@;
        if c == '&' {
            push_chars(&mut out, &['&', 'a', 'm', 'p', ';']);
        } else if c == '<' {
            push_chars(&mut out, &['&', 'l', 't', ';']);
        } else if c == '>' {
            push_chars(&mut out, &['&', 'g', 't', ';']);
        } else if c == '"' {
            push_chars(&mut out, &['&', 'q', 'u', 'o', 't', ';']);
        } else {
            crate::text::push_char(&mut out, c);
        }
        proof {
            assert(s@.take(k + 1).drop_last() =~= s@.take(k));
            assert(s@.take(k + 1).last() == c);
            assert(out@ =~= before + svg_esc_char(c));
            k = k + 1;
        }
    }
    assert(s@.take(k) =~= s@);
    out
}

// ---------------------------------------------------------------------------
// Markdown

/// A node's heading: `#` to `######` for depths 0 to 5, an indented bullet below.
pub open spec fn md_heading(text: Seq<char>, d: nat) -> Seq<char> {
    if d <= 5 {
        repeat(seq!['#'], d + 1) + seq![' '] + text + seq!['\n']
    } else {
        repeat(seq![' ', ' '], (d - 6) as nat) + seq!['-', ' '] + text + seq!['\n']
    }
}

/// Each line prefixed with `> `.
pub open spec fn quoted(ls: Seq<Seq<char>>) -> Seq<char>
    decreases ls.len(),
{
    if ls.len() == 0 {
        Seq::empty()
    } else {
        quoted(ls.drop_last()) + seq!['>', ' '] + ls.last() + seq!['\n']
    }
}

/// The Markdown of one node: its heading, then its notes as a block quote.
pub open spec fn md_entry(v: NodeView, d: nat) -> Seq<char> {
    md_heading(v.text, d) + if v.notes.len() == 0 { Seq::empty() } else { quoted(lines(v.notes)) + seq!['\n'] }
}

/// The Markdown of the subtree under `id` at depth `d`; a node with empty text
/// other than the root is left out with its subtree.
pub open spec fn md_node(ns: Seq<NodeView>, root: NodeId, id: NodeId, d: nat, fuel: nat) -> Seq<char>
    decreases fuel, 0nat, 0nat,
{
    if fuel == 0 || (ns[id as int].text.len() == 0 && id != root) {
        Seq::empty()
    } else {
        md_entry(ns[id as int], d) + md_list(ns, root, ns[id as int].children, d + 1, (fuel - 1) as nat)
    }
}

pub open spec fn md_list(ns: Seq<NodeView>, root: NodeId, cs: Seq<NodeId>, d: nat, fuel: nat) -> Seq<char>
    decreases fuel, 1nat, cs.len(),
{
    if cs.len() == 0 {
        Seq::empty()
    } else {
        md_list(ns, root, cs.drop_last(), d, fuel) + md_node(ns, root, cs.last(), d, fuel)
    }
}

/// The Markdown export of a tree.
pub open spec fn markdown(t: &MindmapTree) -> Seq<char> {
    md_node(t.ns(), t.root, t.root, 0, t.ns().len())
}

fn push_md_entry(out: &mut String, text: &str, notes: &str, depth: usize)
    ensures
        final(out)@ == old(out)@ + md_heading(text@, depth as nat)
            + if notes@.len() == 0 { Seq::empty() } else { quoted(lines(notes@)) + seq!['\n'] },
{
    let ghost start = out@;
    if depth <= 5 {
        push_repeat(out, "#", depth + 1);
        crate::text::push_char(out, ' ');
    } else {
        push_repeat(out, "  ", depth - 6);
        crate::text::push_char(out, '-');
        crate::text::push_char(out, ' ');
    }
    push_str(out, text);
    crate::text::push_char(out, '\n');
    proof {
        reveal_strlit("#");
        reveal_strlit("  ");
        assert("#"@ =~= seq!['#']);
        assert("  "@ =~= seq![' ', ' ']);
        if depth <= 5 {
            assert(out@ =~= start + (repeat(seq!['#'], (depth + 1) as nat) + seq![' '] + text@ + seq!['\n']));
        } else {
            assert(out@ =~= start + (repeat(seq![' ', ' '], (depth - 6) as nat) + seq!['-', ' '] + text@ + seq!['\n']));
        }
    }
    let ghost mid = out@;
    if !notes.is_empty() {
        let ls = lines_of(notes);
        let mut i: usize = 0;
        while i < ls.len()
            invariant
                i <= ls.len(),
                ls@.len() == lines(notes@).len(),
                forall|j: int| 0 <= j < ls@.len() ==> (#[trigger] ls@[j])@ == lines(notes@)[j],
                out@ == mid + quoted(lines(notes@).take(i as int)),
            decreases ls.len() - i,
        {
            crate::text::push_char(out, '>');
            crate::text::push_char(out, ' ');
            push_str(out, ls[i].as_str());
            crate::text::push_char(out, '\n');
            proof {
                let l = lines(notes@);
                assert(l.take(i + 1).drop_last() =~= l.take(i as int));
                assert(l.take(i + 1).last() == l[i as int]);
            }
            i = i + 1;
            assert(out@ =~= mid + quoted(lines(notes@).take(i as int)));
        }
        assert(lines(notes@).take(i as int) =~= lines(notes@));
        crate::text::push_char(out, '\n');
        assert(out@ =~= mid + (quoted(lines(notes@)) + seq!['\n']));
    } else {
        assert(out@ =~= mid + Seq::<char>::empty());
    }
}

fn write_md(tree: &MindmapTree, id: NodeId, depth: usize, out: &mut String, Ghost(rank): Ghost<Seq<nat>>, Ghost(fuel): Ghost<nat>)
    requires
        tree.wf(),
        ranked(tree.ns(), rank),
        id < tree.nodes.len(),
        fuel >= tree.nodes.len() - rank[id as int],
        depth <= rank[id as int],
    ensures
        final(out)@ == old(out)@ + md_node(tree.ns(), tree.root, id, depth as nat, fuel),
    decreases fuel,
{
    let ghost ns = tree.ns();
    let node = &tree.nodes[id];
    if node.text.as_str().is_empty() && id != tree.root {
        return;
    }
    push_md_entry(out, node.text.as_str(), node.notes.as_str(), depth);
    let ghost mid = out@;
    let mut i: usize = 0;
    assert(children_ok(ns, id as int));
    while i < node.children.len()
        invariant
            tree.wf(),
            ns == tree.ns(),
            ranked(ns, rank),
            id < tree.nodes.len(),
            node == &tree.nodes[id as int],
            fuel >= tree.nodes.len() - rank[id as int],
            depth <= rank[id as int],
            i <= node.children.len(),
            out@ == mid + md_list(ns, tree.root, ns[id as int].children.take(i as int), (depth + 1) as nat, (fuel - 1) as nat),
        decreases node.children.len() - i,
    {
        let c = node.children[i];
        assert(ns[id as int].children[i as int] == c);
        assert(c < ns.len() && rank[id as int] < rank[c as int]);
        write_md(tree, c, depth + 1, out, Ghost(rank), Ghost((fuel - 1) as nat));
        proof {
            let cs = ns[id as int].children;
            assert(cs.take(i + 1).drop_last() =~= cs.take(i as int));
            assert(cs.take(i + 1).last() == c);
        }
        i = i + 1;
    }
    assert(ns[id as int].children.take(i as int) =~= ns[id as int].children);
}

/// The tree as Markdown: depths 0 to 5 as headings `#` to `######`, deeper
/// nodes as indented bullets, notes as block quotes; deleted nodes are skipped.
pub fn export_markdown(tree: &MindmapTree) -> (res: String)
    requires
        tree.wf(),
    ensures
        res@ == markdown(tree),
{
    let ghost rank = choose|rank: Seq<nat>| ranked(tree.ns(), rank);
    let mut out = String::new();
    write_md(tree, tree.root, 0, &mut out, Ghost(rank), Ghost(tree.ns().len()));
    assert(out@ =~= markdown(tree));
    out
}



// ---------------------------------------------------------------------------
// OPML

/// Two spaces per indentation level.
pub open spec fn pad(indent: nat) -> Seq<char> {
    repeat("  "@, indent)
}

/// The start of a node's `<outline>` element, up to its attributes.
pub open spec fn outline_start(v: NodeView, indent: nat) -> Seq<char> {
    pad(indent) + "<outline text=\""@ + xml_escaped(v.text) + "\""@
        + if v.notes.len() == 0 { Seq::empty() } else { " _note=\""@ + xml_escaped(v.notes) + "\""@ }
}

/// The OPML outline of the subtree under `id`; a node with empty text other
/// than the root is left out with its subtree. A node with children gets an
/// open and a close tag (even when all its children are left out).
pub open spec fn opml_node(ns: Seq<NodeView>, root: NodeId, id: NodeId, indent: nat, fuel: nat) -> Seq<char>
    decreases fuel, 0nat, 0nat,
{
    if fuel == 0 || (ns[id as int].text.len() == 0 && id != root) {
        Seq::empty()
    } else if ns[id as int].children.len() > 0 {
        outline_start(ns[id as int], indent) + ">\n"@
            + opml_list(ns, root, ns[id as int].children, indent + 1, (fuel - 1) as nat)
            + pad(indent) + "</outline>\n"@
    } else {
        outline_start(ns[id as int], indent) + "/>\n"@
    }
}

pub open spec fn opml_list(ns: Seq<NodeView>, root: NodeId, cs: Seq<NodeId>, indent: nat, fuel: nat) -> Seq<char>
    decreases fuel, 1nat, cs.len(),
{
    if cs.len() == 0 {
        Seq::empty()
    } else {
        opml_list(ns, root, cs.drop_last(), indent, fuel) + opml_node(ns, root, cs.last(), indent, fuel)
    }
}

/// The OPML 2.0 document of a tree, titled with the root's text.
pub open spec fn opml(t: &MindmapTree) -> Seq<char> {
    "<?xml version=\"1.0\" encoding=\"UTF-8\"?>\n"@ + "<opml version=\"2.0\">\n"@
        + "  <head><title>"@ + xml_escaped(t.ns()[t.root as int].text) + "</title></head>\n"@
        + "  <body>\n"@
        + opml_node(t.ns(), t.root, t.root, 2, t.ns().len())
        + "  </body>\n"@ + "</opml>\n"@
}

fn push_outline_start(out: &mut String, text: &str, notes: &str, indent: usize)
    ensures
        final(out)@ == old(out)@ + pad(indent as nat) + "<outline text=\""@ + xml_escaped(text@) + "\""@
            + if notes@.len() == 0 { Seq::empty() } else { " _note=\""@ + xml_escaped(notes@) + "\""@ },
{
    let ghost start = out@;
    push_repeat(out, "  ", indent);
    push_str(out, "<outline text=\"");
    push_escaped(out, text);
    push_str(out, "\"");
    let ghost mid = out@;
    if !notes.is_empty() {
        push_str(out, " _note=\"");
        push_escaped(out, notes);
        push_str(out, "\"");
        assert(out@ =~= mid + (" _note=\""@ + xml_escaped(notes@) + "\""@));
    } else {
        assert(out@ =~= mid + Seq::<char>::empty());
    }
}

#[verifier::spinoff_prover]
fn write_opml(tree: &MindmapTree, id: NodeId, indent: usize, out: &mut String, Ghost(rank): Ghost<Seq<nat>>, Ghost(fuel): Ghost<nat>)
    requires
        tree.wf(),
        ranked(tree.ns(), rank),
        id < tree.nodes.len(),
        fuel >= tree.nodes.len() - rank[id as int],
        indent <= rank[id as int] + 2,
        tree.nodes.len() < usize::MAX - 2,
    ensures
        final(out)@ == old(out)@ + opml_node(tree.ns(), tree.root, id, indent as nat, fuel),
    decreases fuel,
{
    let ghost ns = tree.ns();
    let node = &tree.nodes[id];
    if node.text.as_str().is_empty() && id != tree.root {
        return;
    }
    let ghost start = out@;
    push_outline_start(out, node.text.as_str(), node.notes.as_str(), indent);
    if node.children.len() > 0 {
        push_str(out, ">\n");
        let ghost mid = out@;
        let mut i: usize = 0;
        assert(children_ok(ns, id as int));
        while i < node.children.len()
            invariant
                tree.wf(),
                ns == tree.ns(),
                ranked(ns, rank),
                id < tree.nodes.len(),
                node == &tree.nodes[id as int],
                fuel >= tree.nodes.len() - rank[id as int],
                indent <= rank[id as int] + 2,
                tree.nodes.len() < usize::MAX - 2,
                i <= node.children.len(),
                out@ == mid + opml_list(ns, tree.root, ns[id as int].children.take(i as int), (indent + 1) as nat, (fuel - 1) as nat),
            decreases node.children.len() - i,
        {
            let c = node.children[i];
            assert(ns[id as int].children[i as int] == c);
            assert(c < ns.len() && rank[id as int] < rank[c as int]);
            write_opml(tree, c, indent + 1, out, Ghost(rank), Ghost((fuel - 1) as nat));
            proof {
                let cs = ns[id as int].children;
                assert(cs.take(i + 1).drop_last() =~= cs.take(i as int));
                assert(cs.take(i + 1).last() == c);
            }
            i = i + 1;
        }
        assert(ns[id as int].children.take(i as int) =~= ns[id as int].children);
        let ghost kids = out@;
        push_repeat(out, "  ", indent);
        push_str(out, "</outline>\n");
        assert(out@ =~= start + opml_node(ns, tree.root, id, indent as nat, fuel));
    } else {
        push_str(out, "/>\n");
        assert(out@ =~= start + opml_node(ns, tree.root, id, indent as nat, fuel));
    }
}

/// The tree as an OPML 2.0 outline, titled with the root's text; deleted nodes
/// are skipped and all text is XML-escaped.
pub fn export_opml(tree: &MindmapTree) -> (res: String)
    requires
        tree.wf(),
        tree.nodes.len() < usize::MAX - 2,
    ensures
        res@ == opml(tree),
{
    let ghost rank = choose|rank: Seq<nat>| ranked(tree.ns(), rank);
    let mut out = String::new();
    push_str(&mut out, "<?xml version=\"1.0\" encoding=\"UTF-8\"?>\n");
    push_str(&mut out, "<opml version=\"2.0\">\n");
    push_str(&mut out, "  <head><title>");
    push_escaped(&mut out, tree.nodes[tree.root].text.as_str());
    push_str(&mut out, "</title></head>\n");
    push_str(&mut out, "  <body>\n");
    write_opml(tree, tree.root, 2, &mut out, Ghost(rank), Ghost(tree.ns().len()));
    push_str(&mut out, "  </body>\n");
    push_str(&mut out, "</opml>\n");
    assert(out@ =~= opml(tree));
    out
}


/// The OPML outlines of sibling subtrees are written one after another, in the order of
/// the list: the text for a list is that of its first part followed by that of
/// the rest.
pub proof fn lemma_opml_list_concat(ns: Seq<NodeView>, root: NodeId, a: Seq<NodeId>, b: Seq<NodeId>, d: nat, fuel: nat)
    ensures
        opml_list(ns, root, a + b, d, fuel) == opml_list(ns, root, a, d, fuel) + opml_list(ns, root, b, d, fuel),
    decreases b.len(),
{
    if b.len() == 0 {
        assert(a + b =~= a);
        assert(opml_list(ns, root, a, d, fuel) + Seq::<char>::empty() =~= opml_list(ns, root, a, d, fuel));
    } else {
        lemma_opml_list_concat(ns, root, a, b.drop_last(), d, fuel);
        assert((a + b).drop_last() =~= a + b.drop_last());
        assert((a + b).last() == b.last());
    }
}

/// Each child's subtree is written after those of the children before it and
/// before those of the children after it.
pub proof fn lemma_opml_child_in_place(ns: Seq<NodeView>, root: NodeId, cs: Seq<NodeId>, i: int, d: nat, fuel: nat)
    requires
        0 <= i < cs.len(),
    ensures
        opml_list(ns, root, cs, d, fuel)
            == opml_list(ns, root, cs.take(i), d, fuel) + opml_node(ns, root, cs[i], d, fuel) + opml_list(ns, root, cs.skip(i + 1), d, fuel),
{
    let one = seq![cs[i]];
    assert(cs =~= cs.take(i) + one + cs.skip(i + 1));
    lemma_opml_list_concat(ns, root, cs.take(i) + one, cs.skip(i + 1), d, fuel);
    lemma_opml_list_concat(ns, root, cs.take(i), one, d, fuel);
    assert(one.drop_last() =~= Seq::<NodeId>::empty());
    let e = Seq::<NodeId>::empty();
    assert(opml_list(ns, root, e, d, fuel) == Seq::<char>::empty());
    assert(Seq::<char>::empty() + opml_node(ns, root, cs[i], d, fuel) =~= opml_node(ns, root, cs[i], d, fuel));
    assert(opml_list(ns, root, one, d, fuel) == opml_list(ns, root, e, d, fuel) + opml_node(ns, root, one.last(), d, fuel));
    assert(opml_list(ns, root, one, d, fuel) =~= opml_node(ns, root, cs[i], d, fuel));
}

/// The Markdown sections of sibling subtrees are written one after another, in the order of
/// the list: the text for a list is that of its first part followed by that of
/// the rest.
pub proof fn lemma_md_list_concat(ns: Seq<NodeView>, root: NodeId, a: Seq<NodeId>, b: Seq<NodeId>, d: nat, fuel: nat)
    ensures
        md_list(ns, root, a + b, d, fuel) == md_list(ns, root, a, d, fuel) + md_list(ns, root, b, d, fuel),
    decreases b.len(),
{
    if b.len() == 0 {
        assert(a + b =~= a);
        assert(md_list(ns, root, a, d, fuel) + Seq::<char>::empty() =~= md_list(ns, root, a, d, fuel));
    } else {
        lemma_md_list_concat(ns, root, a, b.drop_last(), d, fuel);
        assert((a + b).drop_last() =~= a + b.drop_last());
        assert((a + b).last() == b.last());
    }
}

/// Each child's subtree is written after those of the children before it and
/// before those of the children after it.
pub proof fn lemma_md_child_in_place(ns: Seq<NodeView>, root: NodeId, cs: Seq<NodeId>, i: int, d: nat, fuel: nat)
    requires
        0 <= i < cs.len(),
    ensures
        md_list(ns, root, cs, d, fuel)
            == md_list(ns, root, cs.take(i), d, fuel) + md_node(ns, root, cs[i], d, fuel) + md_list(ns, root, cs.skip(i + 1), d, fuel),
{
    let one = seq![cs[i]];
    assert(cs =~= cs.take(i) + one + cs.skip(i + 1));
    lemma_md_list_concat(ns, root, cs.take(i) + one, cs.skip(i + 1), d, fuel);
    lemma_md_list_concat(ns, root, cs.take(i), one, d, fuel);
    assert(one.drop_last() =~= Seq::<NodeId>::empty());
    let e = Seq::<NodeId>::empty();
    assert(md_list(ns, root, e, d, fuel) == Seq::<char>::empty());
    assert(Seq::<char>::empty() + md_node(ns, root, cs[i], d, fuel) =~= md_node(ns, root, cs[i], d, fuel));
    assert(md_list(ns, root, one, d, fuel) == md_list(ns, root, e, d, fuel) + md_node(ns, root, one.last(), d, fuel));
    assert(md_list(ns, root, one, d, fuel) =~= md_node(ns, root, cs[i], d, fuel));
}
} // verus!
