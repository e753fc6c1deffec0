//! Reading FreeMind `.mm` documents: quick-xml produces the XML events, and a
//! verified builder turns them into the node arena.
use vstd::prelude::*;
use crate::node::{MindmapNode, NodeId, NodeView, Rgb, Side, opt_str_view, view_nodes, fresh_node};
use crate::text::{chars_vec, decimal, float_text, is_float_text, parse_u64, parse_u64_spec, push_char, push_decimal, push_str, trim, trimmed};
use crate::walk::{children_ok, forest_wf, parent_ok, ranked};
use crate::tree::MindmapTree;
use crate::xml_source::{read_event, trim_text, xml_cursor, xml_event_at};

verus! {

// ---------------------------------------------------------------------------
// The XML events, as plain values.

/// An attribute of a start or empty tag: its name, and its value with the
/// entities resolved (`None` when they could not be).
#[derive(Debug)]
pub struct XmlAttr {
    pub key: Vec<u8>,
    pub value: Option<String>,
}

/// One event of the XML reader. Attributes that could not be read are `None`.
#[derive(Debug)]
pub enum XmlEvent {
    Start { name: Vec<u8>, attrs: Vec<Option<XmlAttr>> },
    Empty { name: Vec<u8>, attrs: Vec<Option<XmlAttr>> },
    End { name: Vec<u8> },
    /// Character data; `None` when its entities could not be resolved.
    Text { text: Option<String> },
    Eof,
    /// A comment, CDATA section, declaration, processing instruction or doctype.
    Other,
    /// A syntax error, at a byte position of the input.
    Error { position: u64, message: String },
}

/// An attribute as plain values: its name and its unescaped value.
pub open spec fn attr_view(a: Option<XmlAttr>) -> Option<(Seq<u8>, Option<Seq<char>>)> {
    match a {
        Some(x) => Some((x.key@, opt_str_view(x.value))),
        None => None,
    }
}

/// The attributes of a tag, as plain values.
pub open spec fn attrs_view(attrs: Seq<Option<XmlAttr>>) -> Seq<Option<(Seq<u8>, Option<Seq<char>>)>> {
    attrs.map_values(|a: Option<XmlAttr>| attr_view(a))
}

/// An XML event as plain values.
pub enum XmlEventView {
    Start { name: Seq<u8>, attrs: Seq<Option<(Seq<u8>, Option<Seq<char>>)>> },
    Empty { name: Seq<u8>, attrs: Seq<Option<(Seq<u8>, Option<Seq<char>>)>> },
    End { name: Seq<u8> },
    Text { text: Option<Seq<char>> },
    Eof,
    Other,
    Error { position: u64, message: Seq<char> },
}

impl View for XmlEvent {
    type V = XmlEventView;

    open spec fn view(&self) -> XmlEventView {
        match self {
            XmlEvent::Start { name, attrs } => XmlEventView::Start { name: name@, attrs: attrs@.map_values(|a: Option<XmlAttr>| attr_view(a)) },
            XmlEvent::Empty { name, attrs } => XmlEventView::Empty { name: name@, attrs: attrs@.map_values(|a: Option<XmlAttr>| attr_view(a)) },
            XmlEvent::End { name } => XmlEventView::End { name: name@ },
            XmlEvent::Text { text } => XmlEventView::Text { text: opt_str_view(*text) },
            XmlEvent::Eof => XmlEventView::Eof,
            XmlEvent::Other => XmlEventView::Other,
            XmlEvent::Error { position, message } => XmlEventView::Error { position: *position, message: message@ },
        }
    }
}

/// The events of a sequence, as plain values.
pub open spec fn events_view(evs: Seq<XmlEvent>) -> Seq<XmlEventView> {
    evs.map_values(|e: XmlEvent| e@)
}

/// The end of input, or an error: reading stops after it.
pub open spec fn ends_reading(e: XmlEventView) -> bool {
    e is Eof || e is Error
}

/// The index of the first event, from `k` on, after which reading `doc` stops:
/// the end of input or an error, and at the latest event `limit` (the document's
/// length in bytes: each event but the last consumes at least one byte).
pub open spec fn stop_index(doc: Seq<char>, limit: nat, k: nat) -> nat
    decreases limit + 1 - k,
{
    if k >= limit {
        limit
    } else if ends_reading(xml_event_at(doc, true, k)) {
        k
    } else {
        stop_index(doc, limit, k + 1)
    }
}

/// The events that reading `doc` (of `limit` bytes) with text trimming gives,
/// up to and including the one after which reading stops.
pub open spec fn doc_events(doc: Seq<char>, limit: nat) -> Seq<XmlEventView> {
    Seq::new(stop_index(doc, limit, 0) + 1, |k: int| xml_event_at(doc, true, k as nat))
}

proof fn lemma_stop_index(doc: Seq<char>, limit: nat, k: nat)
    requires
        k <= limit,
        forall|j: nat| j < k ==> !ends_reading(#[trigger] xml_event_at(doc, true, j)),
    ensures
        stop_index(doc, limit, 0) == stop_index(doc, limit, k),
    decreases k,
{
    if k > 0 {
        lemma_stop_index(doc, limit, (k - 1) as nat);
        assert(!ends_reading(xml_event_at(doc, true, (k - 1) as nat)));
    }
}

/// `v` holds the ASCII codes of `s`.
pub open spec fn ascii_is(v: Seq<u8>, s: Seq<char>) -> bool {
    v.len() == s.len() && forall|i: int| 0 <= i < v.len() ==> v[i] as u32 == s[i] as u32
}

pub fn bytes_is(v: &Vec<u8>, s: &str) -> (res: bool)
    ensures
        res == ascii_is(v@, s@),
{
    let cs = chars_vec(s);
    if v.len() != cs.len() {
        return false;
    }
    let mut i: usize = 0;
    while i < v.len()
        invariant
            cs@ == s@,
            v.len() == cs.len(),
            i <= v.len(),
            forall|j: int| 0 <= j < i ==> v@[j] as u32 == s@[j] as u32,
        decreases v.len() - i,
    {
        if v[i] as u32 != cs[i] as u32 {
            return false;
        }
        i = i + 1;
    }
    true
}

fn str_is(v: &str, s: &str) -> (res: bool)
    ensures
        res == (v@ == s@),
{
    let a = chars_vec(v);
    let b = chars_vec(s);
    if a.len() != b.len() {
        return false;
    }
    let mut i: usize = 0;
    while i < a.len()
        invariant
            a@ == v@,
            b@ == s@,
            a.len() == b.len(),
            i <= a.len(),
            forall|j: int| 0 <= j < i ==> a@[j] == b@[j],
        decreases a.len() - i,
    {
        if a[i] != b[i] {
            return false;
        }
        i = i + 1;
    }
    assert(a@ =~= b@);
    true
}

// ---------------------------------------------------------------------------
// Colors.

pub open spec fn hex_val(c: char) -> Option<u8> {
    if '0' <= c <= '9' {
        Some((c as u32 - 48) as u8)
    } else if 'a' <= c <= 'f' {
        Some((c as u32 - 87) as u8)
    } else if 'A' <= c <= 'F' {
        Some((c as u32 - 55) as u8)
    } else {
        None
    }
}

/// A two-character hexadecimal byte as std's `u8::from_str_radix(_, 16)` reads
/// it: two digits, or `+` and one digit.
pub open spec fn hex_pair(a: char, b: char) -> Option<u8> {
    if a == '+' {
        hex_val(b)
    } else {
        match (hex_val(a), hex_val(b)) {
            (Some(x), Some(y)) => Some((x * 16 + y) as u8),
            _ => None,
        }
    }
}

/// `s` without its leading `#` characters.
pub open spec fn strip_hashes(s: Seq<char>) -> Seq<char>
    decreases s.len(),
{
    if s.len() > 0 && s[0] == '#' {
        strip_hashes(s.drop_first())
    } else {
        s
    }
}

pub open spec fn is_ascii_seq(s: Seq<char>) -> bool {
    forall|i: int| 0 <= i < s.len() ==> (s[i] as u32) < 128
}

/// A `#rrggbb` color (any number of leading `#`, digits in either case). Text
/// that is not six ASCII characters after the `#` is no color.
pub open spec fn hex_color(s: Seq<char>) -> Option<Rgb> {
    let t = strip_hashes(s);
    if t.len() == 6 && is_ascii_seq(t) {
        match (hex_pair(t[0], t[1]), hex_pair(t[2], t[3]), hex_pair(t[4], t[5])) {
            (Some(r), Some(g), Some(b)) => Some(Rgb { r, g, b }),
            _ => None,
        }
    } else {
        None
    }
}

fn hex_val_of(c: char) -> (res: Option<u8>)
    ensures
        res == hex_val(c),
{
    if '0' <= c && c <= '9' {
        Some((c as u32 - 48) as u8)
    } else if 'a' <= c && c <= 'f' {
        Some((c as u32 - 87) as u8)
    } else if 'A' <= c && c <= 'F' {
        Some((c as u32 - 55) as u8)
    } else {
        None
    }
}

fn hex_pair_of(a: char, b: char) -> (res: Option<u8>)
    ensures
        res == hex_pair(a, b),
{
    if a == '+' {
        hex_val_of(b)
    } else {
        match (hex_val_of(a), hex_val_of(b)) {
            (Some(x), Some(y)) => Some(x * 16 + y),
            _ => None,
        }
    }
}

proof fn lemma_strip_hashes(s: Seq<char>, i: int)
    requires
        0 <= i <= s.len(),
        forall|k: int| 0 <= k < i ==> s[k] == '#',
        i == s.len() || s[i] != '#',
    ensures
        strip_hashes(s) == s.skip(i),
    decreases i,
{
    if i > 0 {
        lemma_strip_hashes(s.drop_first(), i - 1);
        assert(s.drop_first().skip(i - 1) =~= s.skip(i));
    } else {
        assert(s.skip(0) =~= s);
    }
}

/// Reads a `#rrggbb` color.
pub fn parse_hex_color(s: &str) -> (res: Option<Rgb>)
    ensures
        res == hex_color(s@),
{
    let cs = chars_vec(s);
    let mut i: usize = 0;
    while i < cs.len() && cs[i] == '#'
        invariant
            cs@ == s@,
            i <= cs.len(),
            forall|k: int| 0 <= k < i ==> cs@[k] == '#',
        decreases cs.len() - i,
    {
        i = i + 1;
    }
    proof {
        lemma_strip_hashes(s@, i as int);
    }
    let ghost t = s@.skip(i as int);
    if cs.len() - i != 6 {
        return None;
    }
    let mut k: usize = i;
    while k < cs.len()
        invariant
            cs@ == s@,
            t == s@.skip(i as int),
            strip_hashes(s@) == t,
            t.len() == 6,
            i <= k <= cs.len(),
            forall|j: int| i <= j < k ==> (cs@[j] as u32) < 128,
        decreases cs.len() - k,
    {
        if cs[k] as u32 >= 128 {
            assert(!is_ascii_seq(t)) by {
                assert(t[k - i] == cs@[k as int]);
            }
            return None;
        }
        k = k + 1;
    }
    assert(is_ascii_seq(t)) by {
        assert forall|j: int| 0 <= j < t.len() implies (t[j] as u32) < 128 by {
            assert(t[j] == cs@[i + j]);
        }
    }
    assert(t.len() == 6);
    assert(t[0] == cs@[i as int] && t[1] == cs@[i + 1] && t[2] == cs@[i + 2]);
    assert(t[3] == cs@[i + 3] && t[4] == cs@[i + 4] && t[5] == cs@[i + 5]);
    let r = hex_pair_of(cs[i], cs[i + 1]);
    let g = hex_pair_of(cs[i + 2], cs[i + 3]);
    let b = hex_pair_of(cs[i + 4], cs[i + 5]);
    match (r, g, b) {
        (Some(r), Some(g), Some(b)) => Some(Rgb { r, g, b }),
        _ => None,
    }
}


// ---------------------------------------------------------------------------
// Node attributes.

/// What the attributes of a `<node>` tag give, as read so far.
pub struct NodeAttrs {
    pub text: Option<Seq<char>>,
    pub id: Option<Seq<char>>,
    pub color: Option<Rgb>,
    pub background_color: Option<Rgb>,
    pub position: Option<Side>,
    pub folded: bool,
    pub created: Option<u64>,
    pub modified: Option<u64>,
    pub link: Option<Seq<char>>,
}

pub open spec fn no_node_attrs() -> NodeAttrs {
    NodeAttrs {
        text: None,
        id: None,
        color: None,
        background_color: None,
        position: None,
        folded: false,
        created: None,
        modified: None,
        link: None,
    }
}

/// One attribute read into `acc`: `TEXT` and `ID` take the value even when it
/// could not be read; the others change only when the value was read. Unknown
/// and unreadable attributes change nothing.
pub open spec fn node_attr_step(acc: NodeAttrs, a: Option<(Seq<u8>, Option<Seq<char>>)>) -> NodeAttrs {
    match a {
        None => acc,
        Some((k, v)) => {
            if ascii_is(k, "TEXT"@) {
                NodeAttrs { text: v, ..acc }
            } else if ascii_is(k, "ID"@) {
                NodeAttrs { id: v, ..acc }
            } else if v is None {
                acc
            } else if ascii_is(k, "COLOR"@) {
                NodeAttrs { color: hex_color(v->0), ..acc }
            } else if ascii_is(k, "BACKGROUND_COLOR"@) {
                NodeAttrs { background_color: hex_color(v->0), ..acc }
            } else if ascii_is(k, "POSITION"@) {
                NodeAttrs { position: Some(if v->0 == "left"@ { Side::Left } else { Side::Right }), ..acc }
            } else if ascii_is(k, "FOLDED"@) {
                NodeAttrs { folded: v->0 == "true"@, ..acc }
            } else if ascii_is(k, "CREATED"@) {
                NodeAttrs { created: parse_u64_spec(v->0), ..acc }
            } else if ascii_is(k, "MODIFIED"@) {
                NodeAttrs { modified: parse_u64_spec(v->0), ..acc }
            } else if ascii_is(k, "LINK"@) {
                NodeAttrs { link: v, ..acc }
            } else {
                acc
            }
        },
    }
}

/// The attributes of a `<node>` tag, read in order (a later one wins).
pub open spec fn node_attrs(attrs: Seq<Option<(Seq<u8>, Option<Seq<char>>)>>) -> NodeAttrs
    decreases attrs.len(),
{
    if attrs.len() == 0 {
        no_node_attrs()
    } else {
        node_attr_step(node_attrs(attrs.drop_last()), attrs.last())
    }
}

/// The id a node without an `ID` attribute gets: `ID_<index>`.
pub open spec fn default_id(i: NodeId) -> Seq<char> {
    seq!['I', 'D', '_'] + decimal(i as nat)
}

/// The node that a `<node>` tag creates at index `i` under `parent`.
pub open spec fn node_from_attrs(attrs: Seq<Option<(Seq<u8>, Option<Seq<char>>)>>, i: NodeId, parent: Option<NodeId>) -> NodeView {
    let a = node_attrs(attrs);
    NodeView {
        parent,
        color: a.color,
        background_color: a.background_color,
        position: a.position,
        folded: a.folded,
        created: a.created,
        modified: a.modified,
        link: a.link,
        ..fresh_node(
            i,
            match a.id { Some(x) => x, None => default_id(i) },
            match a.text { Some(x) => x, None => Seq::empty() },
        )
    }
}

fn clone_opt(v: &Option<String>) -> (res: Option<String>)
    ensures
        opt_str_view(res) == opt_str_view(*v),
{
    crate::node::clone_opt_string(v)
}

#[verifier::rlimit(40)]
fn build_node(attrs: &Vec<Option<XmlAttr>>, node_id: NodeId, parent: Option<NodeId>) -> (res: MindmapNode)
    ensures
        res@ == node_from_attrs(attrs_view(attrs@), node_id, parent),
{
    let ghost av = attrs_view(attrs@);
    let mut text: Option<String> = None;
    let mut id: Option<String> = None;
    let mut color: Option<Rgb> = None;
    let mut background_color: Option<Rgb> = None;
    let mut position: Option<Side> = None;
    let mut folded = false;
    let mut created: Option<u64> = None;
    let mut modified: Option<u64> = None;
    let mut link: Option<String> = None;
    let mut i: usize = 0;
    while i < attrs.len()
        invariant
            av == attrs_view(attrs@),
            i <= attrs.len(),
            node_attrs(av.take(i as int)) == (NodeAttrs {
                text: opt_str_view(text),
                id: opt_str_view(id),
                color,
                background_color,
                position,
                folded,
                created,
                modified,
                link: opt_str_view(link),
            }),
        decreases attrs.len() - i,
    {
        proof {
            assert(av.take(i + 1).drop_last() =~= av.take(i as int));
            assert(av.take(i + 1).last() == attr_view(attrs@[i as int]));
        }
        match &attrs[i] {
            None => {},
            Some(at) => {
                let k = &at.key;
                if bytes_is(k, "TEXT") {
                    text = clone_opt(&at.value);
                } else if bytes_is(k, "ID") {
                    id = clone_opt(&at.value);
                } else {
                    match &at.value {
                        None => {},
                        Some(v) => {
                            let v = v.as_str();
                            if bytes_is(k, "COLOR") {
                                color = parse_hex_color(v);
                            } else if bytes_is(k, "BACKGROUND_COLOR") {
                                background_color = parse_hex_color(v);
                            } else if bytes_is(k, "POSITION") {
                                position = Some(if str_is(v, "left") { Side::Left } else { Side::Right });
                            } else if bytes_is(k, "FOLDED") {
                                folded = str_is(v, "true");
                            } else if bytes_is(k, "CREATED") {
                                created = parse_u64(v);
                            } else if bytes_is(k, "MODIFIED") {
                                modified = parse_u64(v);
                            } else if bytes_is(k, "LINK") {
                                link = Some(v.to_owned());
                            }
                        },
                    }
                }
            },
        }
        i = i + 1;
    }
    assert(av.take(i as int) =~= av);
    let freemind_id = match id {
        Some(x) => x,
        None => {
            let mut s = String::new();
            push_char(&mut s, 'I');
            push_char(&mut s, 'D');
            push_char(&mut s, '_');
            push_decimal(&mut s, node_id as u64);
            assert(s@ =~= default_id(node_id));
            s
        },
    };
    let node_text = match text {
        Some(x) => x,
        None => String::new(),
    };
    let mut node = MindmapNode::new(node_id, freemind_id, node_text);
    node.parent = parent;
    node.color = color;
    node.background_color = background_color;
    node.position = position;
    node.folded = folded;
    node.created = created;
    node.modified = modified;
    node.link = link;
    node
}


// ---------------------------------------------------------------------------
// Font attributes and notes.

/// A node with the attributes of a `<font>` tag applied, in order: `BOLD` sets
/// boldness, `NAME` the font name, `SIZE` the size as written where it is a
/// number and no size where it is not; attributes whose value could not be
/// read change nothing.
pub open spec fn font_attrs(v: NodeView, attrs: Seq<Option<(Seq<u8>, Option<Seq<char>>)>>) -> NodeView
    decreases attrs.len(),
{
    if attrs.len() == 0 {
        v
    } else {
        let w = font_attrs(v, attrs.drop_last());
        match attrs.last() {
            Some((key, value)) => match value {
                Some(val) => if ascii_is(key, "BOLD"@) {
                    NodeView { bold: val == "true"@, ..w }
                } else if ascii_is(key, "SIZE"@) {
                    NodeView { font_size: if float_text(val) { Some(val) } else { None }, ..w }
                } else if ascii_is(key, "NAME"@) {
                    NodeView { font_name: Some(val), ..w }
                } else {
                    w
                },
                None => w,
            },
            None => w,
        }
    }
}

/// The value of the first attribute named `key`, looked up in order and given
/// up at the first attribute that could not be read.
pub open spec fn first_attr(attrs: Seq<Option<(Seq<u8>, Option<Seq<char>>)>>, key: Seq<char>) -> Option<Seq<char>>
    decreases attrs.len(),
{
    if attrs.len() == 0 {
        None
    } else {
        match attrs[0] {
            Some((k, v)) => if ascii_is(k, key) { v } else { first_attr(attrs.drop_first(), key) },
            None => None,
        }
    }
}

/// The non-empty paragraphs joined with line breaks.
pub open spec fn joined(ps: Seq<Seq<char>>) -> Seq<char>
    decreases ps.len(),
{
    if ps.len() == 0 {
        Seq::empty()
    } else {
        let j = joined(ps.drop_last());
        let l = ps.last();
        if l.len() == 0 {
            j
        } else if j.len() == 0 {
            l
        } else {
            j + seq!['\n'] + l
        }
    }
}

fn first_attr_of(attrs: &Vec<Option<XmlAttr>>, key: &str) -> (res: Option<String>)
    ensures
        opt_str_view(res) == first_attr(attrs_view(attrs@), key@),
{
    let ghost av = attrs_view(attrs@);
    let mut i: usize = 0;
    assert(av.skip(0) =~= av);
    while i < attrs.len()
        invariant
            av == attrs_view(attrs@),
            i <= attrs.len(),
            first_attr(av, key@) == first_attr(av.skip(i as int), key@),
        decreases attrs.len() - i,
    {
        proof {
            assert(av.skip(i as int)[0] == attr_view(attrs@[i as int]));
            assert(av.skip(i as int).drop_first() =~= av.skip(i + 1));
        }
        match &attrs[i] {
            Some(at) => {
                if bytes_is(&at.key, key) {
                    return clone_opt(&at.value);
                }
            },
            None => {
                return None;
            },
        }
        i = i + 1;
    }
    None
}

fn join_paragraphs(ps: &Vec<String>) -> (res: String)
    ensures
        res@ == joined(ps@.map_values(|p: String| p@)),
{
    let ghost vs = ps@.map_values(|p: String| p@);
    let mut out = String::new();
    let mut i: usize = 0;
    while i < ps.len()
        invariant
            vs == ps@.map_values(|p: String| p@),
            i <= ps.len(),
            out@ == joined(vs.take(i as int)),
        decreases ps.len() - i,
    {
        proof {
            assert(vs.take(i + 1).drop_last() =~= vs.take(i as int));
            assert(vs.take(i + 1).last() == ps@[i as int]@);
        }
        let p = ps[i].as_str();
        if !p.is_empty() {
            if !out.as_str().is_empty() {
                push_char(&mut out, '\n');
            }
            push_str(&mut out, p);
        }
        i = i + 1;
    }
    assert(vs.take(i as int) =~= vs);
    out
}

fn apply_font(node: &mut MindmapNode, attrs: &Vec<Option<XmlAttr>>)
    ensures
        final(node)@ == font_attrs(old(node)@, attrs_view(attrs@)),
{
    let ghost av = attrs_view(attrs@);
    let mut i: usize = 0;
    while i < attrs.len()
        invariant
            av == attrs_view(attrs@),
            i <= attrs.len(),
            node@ == font_attrs(old(node)@, av.take(i as int)),
        decreases attrs.len() - i,
    {
        proof {
            assert(av.take(i + 1).drop_last() =~= av.take(i as int));
            assert(av.take(i + 1).last() == attr_view(attrs@[i as int]));
        }
        match &attrs[i] {
            Some(at) => match &at.value {
                Some(v) => {
                    if bytes_is(&at.key, "BOLD") {
                        node.bold = str_is(v.as_str(), "true");
                    } else if bytes_is(&at.key, "SIZE") {
                        node.font_size = if is_float_text(v.as_str()) { Some(v.clone()) } else { None };
                    } else if bytes_is(&at.key, "NAME") {
                        node.font_name = Some(v.clone());
                    }
                },
                None => {},
            },
            None => {},
        }
        i = i + 1;
    }
    assert(av.take(i as int) =~= av);
}


// ---------------------------------------------------------------------------
// Building the arena from the events.

/// The model of the builder: the nodes so far, the chain of open `<node>`
/// elements, the root, and the state of a note being read.
pub struct BuildState {
    pub nodes: Seq<NodeView>,
    pub ancestors: Seq<NodeId>,
    pub root: Option<NodeId>,
    pub in_note: bool,
    pub in_body: bool,
    pub in_p: bool,
    pub paragraphs: Seq<Seq<char>>,
    pub note_target: Option<NodeId>,
}

pub open spec fn top_of(b: BuildState) -> Option<NodeId> {
    if b.ancestors.len() > 0 { Some(b.ancestors.last()) } else { None }
}

/// A `<node>` tag read: a new node under the innermost open node (the first
/// node read is the root).
pub open spec fn with_node(b: BuildState, attrs: Seq<Option<(Seq<u8>, Option<Seq<char>>)>>) -> BuildState {
    let id = b.nodes.len() as NodeId;
    let ns1 = b.nodes.push(node_from_attrs(attrs, id, top_of(b)));
    let ns2 = match top_of(b) {
        Some(p) => ns1.update(p as int, NodeView { children: ns1[p as int].children.push(id), ..ns1[p as int] }),
        None => ns1,
    };
    BuildState { nodes: ns2, root: if b.root is None { Some(id) } else { b.root }, ..b }
}

/// A `<font>` tag read: applied to the innermost open node, if any.
pub open spec fn with_font(b: BuildState, attrs: Seq<Option<(Seq<u8>, Option<Seq<char>>)>>) -> BuildState {
    match top_of(b) {
        Some(t) => BuildState { nodes: b.nodes.update(t as int, font_attrs(b.nodes[t as int], attrs)), ..b },
        None => b,
    }
}

pub open spec fn closed_note(b: BuildState) -> BuildState {
    let ns = match b.note_target {
        Some(t) => b.nodes.update(t as int, NodeView { notes: joined(b.paragraphs), ..b.nodes[t as int] }),
        None => b.nodes,
    };
    BuildState {
        nodes: ns,
        note_target: None,
        in_note: false,
        in_body: false,
        in_p: false,
        paragraphs: Seq::empty(),
        ..b
    }
}

/// A start tag read.
pub open spec fn start_spec(b: BuildState, name: Seq<u8>, attrs: Seq<Option<(Seq<u8>, Option<Seq<char>>)>>) -> BuildState {
    if b.in_note {
        if ascii_is(name, "body"@) {
            BuildState { in_body: true, ..b }
        } else if ascii_is(name, "p"@) && b.in_body {
            BuildState { in_p: true, ..b }
        } else {
            b
        }
    } else if ascii_is(name, "node"@) {
        let c = with_node(b, attrs);
        BuildState { ancestors: c.ancestors.push(b.nodes.len() as NodeId), ..c }
    } else if ascii_is(name, "font"@) {
        with_font(b, attrs)
    } else if ascii_is(name, "richcontent"@) && first_attr(attrs, "TYPE"@) == Some("NOTE"@) {
        BuildState {
            in_note: true,
            in_body: false,
            in_p: false,
            paragraphs: Seq::empty(),
            note_target: top_of(b),
            ..b
        }
    } else {
        b
    }
}

/// An empty-element tag read.
pub open spec fn empty_spec(b: BuildState, name: Seq<u8>, attrs: Seq<Option<(Seq<u8>, Option<Seq<char>>)>>) -> BuildState {
    if b.in_note {
        b
    } else if ascii_is(name, "node"@) {
        with_node(b, attrs)
    } else if ascii_is(name, "font"@) {
        with_font(b, attrs)
    } else {
        b
    }
}

/// An end tag read.
pub open spec fn end_spec(b: BuildState, name: Seq<u8>) -> BuildState {
    if b.in_note {
        if ascii_is(name, "p"@) {
            BuildState { in_p: false, ..b }
        } else if ascii_is(name, "body"@) {
            BuildState { in_body: false, ..b }
        } else if ascii_is(name, "richcontent"@) {
            closed_note(b)
        } else {
            b
        }
    } else if ascii_is(name, "node"@) && b.ancestors.len() > 0 {
        BuildState { ancestors: b.ancestors.drop_last(), ..b }
    } else {
        b
    }
}

/// Character data read: inside a note paragraph, its trimmed text, when not
/// empty, becomes a paragraph.
pub open spec fn text_spec(b: BuildState, text: Option<Seq<char>>) -> BuildState {
    match text {
        Some(t) => if b.in_note && b.in_body && b.in_p && trim(t).len() > 0 {
            BuildState { paragraphs: b.paragraphs.push(trim(t)), ..b }
        } else {
            b
        },
        None => b,
    }
}

/// What one event does to the builder.
pub open spec fn step_spec(b: BuildState, e: XmlEventView) -> BuildState {
    match e {
        XmlEventView::Start { name, attrs } => start_spec(b, name, attrs),
        XmlEventView::Empty { name, attrs } => empty_spec(b, name, attrs),
        XmlEventView::End { name } => end_spec(b, name),
        XmlEventView::Text { text } => text_spec(b, text),
        _ => b,
    }
}

/// The arena that the builder grows: ids are indices, a parent comes before
/// its children and lists them, and children are listed in increasing index order.
#[verifier::opaque]
pub open spec fn arena_ok(ns: Seq<NodeView>) -> bool {
    &&& forall|i: int| 0 <= i < ns.len() ==> #[trigger] ns[i].id == i
    &&& forall|i: int| 0 <= i < ns.len() ==> (#[trigger] ns[i].parent matches Some(p) ==> p < i
        && ns[p as int].children.contains(i as NodeId))
    &&& forall|i: int, k: int| 0 <= i < ns.len() && 0 <= k < ns[i].children.len() ==> {
        let c = #[trigger] ns[i].children[k];
        i < c < ns.len() && ns[c as int].parent == Some(i as NodeId)
    }
    &&& forall|i: int, k1: int, k2: int| 0 <= i < ns.len() && 0 <= k1 < k2 < ns[i].children.len()
        ==> #[trigger] ns[i].children[k1] < #[trigger] ns[i].children[k2]
}

/// What the builder keeps true: the arena is well formed, rooted at the first
/// node, and the open nodes and the note's node are in it.
pub open spec fn build_inv(b: BuildState) -> bool {
    &&& b.nodes.len() < usize::MAX
    &&& arena_ok(b.nodes)
    &&& b.root == if b.nodes.len() > 0 { Some(0usize) } else { None }
    &&& forall|k: int| 0 <= k < b.ancestors.len() ==> (#[trigger] b.ancestors[k]) < b.nodes.len()
    &&& b.note_target matches Some(t) ==> t < b.nodes.len()
}

proof fn lemma_arena_update(ns: Seq<NodeView>, t: int, w: NodeView)
    requires
        arena_ok(ns),
        0 <= t < ns.len(),
        w.id == ns[t].id,
        w.parent == ns[t].parent,
        w.children == ns[t].children,
    ensures
        arena_ok(ns.update(t, w)),
{
    reveal(arena_ok);
    let b = ns.update(t, w);
    assert forall|i: int| 0 <= i < b.len() implies #[trigger] b[i].id == i by {
        assert(ns[i].id == i);
    }
    assert forall|i: int| 0 <= i < b.len() implies (#[trigger] b[i].parent matches Some(p) ==> p < i
        && b[p as int].children.contains(i as NodeId)) by {
        assert(b[i].parent == ns[i].parent);
        if let Some(p) = b[i].parent {
            assert(ns[i].parent matches Some(q) ==> q < i && ns[q as int].children.contains(i as NodeId));
            assert(b[p as int].children == ns[p as int].children);
        }
    }
    assert forall|i: int, k: int| 0 <= i < b.len() && 0 <= k < b[i].children.len() implies {
        let c = #[trigger] b[i].children[k];
        i < c < b.len() && b[c as int].parent == Some(i as NodeId)
    } by {
        assert(b[i].children == ns[i].children);
        let c = ns[i].children[k];
        assert(i < c < ns.len() && ns[c as int].parent == Some(i as NodeId));
        assert(b[c as int].parent == ns[c as int].parent);
    }
    assert forall|i: int, k1: int, k2: int| 0 <= i < b.len() && 0 <= k1 < k2 < b[i].children.len()
        implies #[trigger] b[i].children[k1] < #[trigger] b[i].children[k2] by {
        assert(b[i].children == ns[i].children);
        assert(ns[i].children[k1] < ns[i].children[k2]);
    }
}

#[verifier::rlimit(40)]
proof fn lemma_arena_add(ns: Seq<NodeView>, v: NodeView, parent: Option<NodeId>)
    requires
        arena_ok(ns),
        ns.len() < usize::MAX,
        v.id == ns.len(),
        v.parent == parent,
        v.children.len() == 0,
        parent matches Some(p) ==> p < ns.len(),
    ensures
        arena_ok(match parent {
            Some(p) => ns.push(v).update(p as int, NodeView { children: ns.push(v)[p as int].children.push(ns.len() as NodeId), ..ns.push(v)[p as int] }),
            None => ns.push(v),
        }),
{
    reveal(arena_ok);
    let id = ns.len() as NodeId;
    let ns1 = ns.push(v);
    let out = match parent {
        Some(p) => ns1.update(p as int, NodeView { children: ns1[p as int].children.push(id), ..ns1[p as int] }),
        None => ns1,
    };
    assert(out.len() == ns.len() + 1);
    assert forall|i: int| 0 <= i < out.len() implies #[trigger] out[i].id == i by {
        if i < ns.len() {
            assert(ns[i].id == i);
        }
    }
    assert forall|i: int| 0 <= i < out.len() implies (#[trigger] out[i].parent matches Some(q) ==> q < i
        && out[q as int].children.contains(i as NodeId)) by {
        if i < ns.len() {
            assert(out[i].parent == ns[i].parent);
            if let Some(q) = ns[i].parent {
                assert(q < i && ns[q as int].children.contains(i as NodeId));
                let k = choose|k: int| 0 <= k < ns[q as int].children.len() && ns[q as int].children[k] == i as NodeId;
                assert(out[q as int].children[k] == i as NodeId);
            }
        } else {
            if let Some(q) = parent {
                assert(out[q as int].children[out[q as int].children.len() - 1] == id);
            }
        }
    }
    assert forall|i: int, k: int| 0 <= i < out.len() && 0 <= k < out[i].children.len() implies {
        let c = #[trigger] out[i].children[k];
        i < c < out.len() && out[c as int].parent == Some(i as NodeId)
    } by {
        if i < ns.len() && k < ns[i].children.len() {
            let c = ns[i].children[k];
            assert(out[i].children[k] == c);
            assert(i < c < ns.len() && ns[c as int].parent == Some(i as NodeId));
            assert(out[c as int].parent == ns[c as int].parent);
        }
    }
    assert forall|i: int, k1: int, k2: int| 0 <= i < out.len() && 0 <= k1 < k2 < out[i].children.len()
        implies #[trigger] out[i].children[k1] < #[trigger] out[i].children[k2] by {
        if i < ns.len() && k2 < ns[i].children.len() {
            assert(out[i].children[k1] == ns[i].children[k1]);
            assert(out[i].children[k2] == ns[i].children[k2]);
            assert(ns[i].children[k1] < ns[i].children[k2]);
        } else if i < ns.len() {
            let c = ns[i].children[k1];
            assert(out[i].children[k1] == c);
            assert(i < c < ns.len());
        }
    }

}

/// A builder's nodes form a well-formed tree rooted at the first one.
pub proof fn lemma_build_inv_wf(b: BuildState)
    requires
        build_inv(b),
        b.nodes.len() > 0,
    ensures
        forest_wf(b.nodes, 0),
{
    reveal(arena_ok);
    let ns = b.nodes;
    let rank = Seq::new(ns.len(), |i: int| i as nat);
    assert(ranked(ns, rank));
    assert forall|i: int| 0 <= i < ns.len() implies #[trigger] parent_ok(ns, i) by {}
    assert forall|i: int| 0 <= i < ns.len() implies #[trigger] children_ok(ns, i) by {
        assert forall|a: int, c: int| 0 <= a < ns[i].children.len() && 0 <= c < ns[i].children.len() && a != c
            implies ns[i].children[a] != ns[i].children[c] by {
            if a < c {
                assert(ns[i].children[a] < ns[i].children[c]);
            } else {
                assert(ns[i].children[c] < ns[i].children[a]);
            }
        }
    }
    assert(ns[0].parent is None) by {
        if ns[0].parent is Some {
            assert(ns[0].parent->0 < 0);
        }
    }
}


proof fn lemma_font_shape(v: NodeView, attrs: Seq<Option<(Seq<u8>, Option<Seq<char>>)>>)
    ensures
        font_attrs(v, attrs).id == v.id,
        font_attrs(v, attrs).parent == v.parent,
        font_attrs(v, attrs).children == v.children,
    decreases attrs.len(),
{
    if attrs.len() > 0 {
        lemma_font_shape(v, attrs.drop_last());
    }
}

/// Builds the node arena from XML events.
pub struct MmBuilder {
    pub nodes: Vec<MindmapNode>,
    pub ancestors: Vec<NodeId>,
    pub root: Option<NodeId>,
    pub in_note: bool,
    pub in_body: bool,
    pub in_p: bool,
    pub paragraphs: Vec<String>,
    pub note_target: Option<NodeId>,
}

impl MmBuilder {
    pub open spec fn state(&self) -> BuildState {
        BuildState {
            nodes: view_nodes(self.nodes@),
            ancestors: self.ancestors@,
            root: self.root,
            in_note: self.in_note,
            in_body: self.in_body,
            in_p: self.in_p,
            paragraphs: self.paragraphs@.map_values(|p: String| p@),
            note_target: self.note_target,
        }
    }

    pub fn new() -> (res: Self)
        ensures
            res.state() == (BuildState {
                nodes: Seq::empty(),
                ancestors: Seq::empty(),
                root: None,
                in_note: false,
                in_body: false,
                in_p: false,
                paragraphs: Seq::empty(),
                note_target: None,
            }),
            build_inv(res.state()),
    {
        let b = MmBuilder {
            nodes: Vec::new(),
            ancestors: Vec::new(),
            root: None,
            in_note: false,
            in_body: false,
            in_p: false,
            paragraphs: Vec::new(),
            note_target: None,
        };
        assert(b.state().nodes =~= Seq::<NodeView>::empty());
        assert(b.state().paragraphs =~= Seq::<Seq<char>>::empty());
        proof {
            reveal(arena_ok);
        }
        b
    }

    fn top(&self) -> (res: Option<NodeId>)
        ensures
            res == top_of(self.state()),
    {
        if self.ancestors.len() > 0 {
            Some(self.ancestors[self.ancestors.len() - 1])
        } else {
            None
        }
    }

    #[verifier::rlimit(40)]
    fn add_node(&mut self, attrs: &Vec<Option<XmlAttr>>) -> (id: NodeId)
        requires
            build_inv(old(self).state()),
            old(self).nodes.len() + 1 < usize::MAX,
        ensures
            id == old(self).nodes.len(),
            final(self).state() == with_node(old(self).state(), attrs_view(attrs@)),
            build_inv(final(self).state()),
    {
        let ghost b = self.state();
        let parent = self.top();
        let node_id = self.nodes.len();
        let node = build_node(attrs, node_id, parent);
        self.nodes.push(node);
        if let Some(p) = parent {
            self.nodes[p].children.push(node_id);
        }
        if self.root.is_none() {
            self.root = Some(node_id);
        }
        proof {
            let c = with_node(b, attrs_view(attrs@));
            assert(self.state().nodes =~= c.nodes);
            assert(self.state().paragraphs =~= c.paragraphs);
            lemma_arena_add(b.nodes, node_from_attrs(attrs_view(attrs@), node_id, parent), parent);
        }
        node_id
    }

    fn font_on_top(&mut self, attrs: &Vec<Option<XmlAttr>>)
        requires
            build_inv(old(self).state()),
        ensures
            final(self).state() == with_font(old(self).state(), attrs_view(attrs@)),
            build_inv(final(self).state()),
    {
        let ghost b = self.state();
        if let Some(t) = self.top() {
            apply_font(&mut self.nodes[t], attrs);
            proof {
                assert(self.state().nodes =~= with_font(b, attrs_view(attrs@)).nodes);
                assert(self.state().paragraphs =~= b.paragraphs);
                lemma_font_shape(b.nodes[t as int], attrs_view(attrs@));
                lemma_arena_update(b.nodes, t as int, font_attrs(b.nodes[t as int], attrs_view(attrs@)));
            }
        }
    }

    fn close_note(&mut self)
        requires
            build_inv(old(self).state()),
        ensures
            final(self).state() == closed_note(old(self).state()),
            build_inv(final(self).state()),
    {
        let ghost b = self.state();
        if let Some(t) = self.note_target {
            let text = join_paragraphs(&self.paragraphs);
            self.nodes[t].notes = text;
        }
        self.note_target = None;
        self.in_note = false;
        self.in_body = false;
        self.in_p = false;
        self.paragraphs = Vec::new();
        proof {
            assert(self.state().nodes =~= closed_note(b).nodes);
            assert(self.state().paragraphs =~= Seq::<Seq<char>>::empty());
            if let Some(t) = b.note_target {
                lemma_arena_update(b.nodes, t as int, NodeView { notes: joined(b.paragraphs), ..b.nodes[t as int] });
            }
        }
    }

    fn start_tag(&mut self, name: &Vec<u8>, attrs: &Vec<Option<XmlAttr>>)
        requires
            build_inv(old(self).state()),
            old(self).nodes.len() + 1 < usize::MAX,
        ensures
            final(self).state() == start_spec(old(self).state(), name@, attrs_view(attrs@)),
            build_inv(final(self).state()),
    {
        let ghost b = self.state();
        if self.in_note {
            if bytes_is(name, "body") {
                self.in_body = true;
            } else if bytes_is(name, "p") && self.in_body {
                self.in_p = true;
            }
        } else if bytes_is(name, "node") {
            let id = self.add_node(attrs);
            self.ancestors.push(id);
            proof {
                let c = with_node(b, attrs_view(attrs@));
                assert(self.state().ancestors =~= c.ancestors.push(b.nodes.len() as NodeId));
                assert(self.state().nodes =~= c.nodes);
            }
        } else if bytes_is(name, "font") {
            self.font_on_top(attrs);
        } else if bytes_is(name, "richcontent") {
            let ty = first_attr_of(attrs, "TYPE");
            let is_note = match &ty {
                Some(v) => str_is(v.as_str(), "NOTE"),
                None => false,
            };
            if is_note {
                self.in_note = true;
                self.in_body = false;
                self.in_p = false;
                self.paragraphs = Vec::new();
                self.note_target = self.top();
                assert(self.state().paragraphs =~= Seq::<Seq<char>>::empty());
            }
        }
    }

    fn empty_tag(&mut self, name: &Vec<u8>, attrs: &Vec<Option<XmlAttr>>)
        requires
            build_inv(old(self).state()),
            old(self).nodes.len() + 1 < usize::MAX,
        ensures
            final(self).state() == empty_spec(old(self).state(), name@, attrs_view(attrs@)),
            build_inv(final(self).state()),
    {
        if !self.in_note {
            if bytes_is(name, "node") {
                self.add_node(attrs);
            } else if bytes_is(name, "font") {
                self.font_on_top(attrs);
            }
        }
    }

    fn end_tag(&mut self, name: &Vec<u8>)
        requires
            build_inv(old(self).state()),
        ensures
            final(self).state() == end_spec(old(self).state(), name@),
            build_inv(final(self).state()),
    {
        let ghost b = self.state();
        if self.in_note {
            if bytes_is(name, "p") {
                self.in_p = false;
            } else if bytes_is(name, "body") {
                self.in_body = false;
            } else if bytes_is(name, "richcontent") {
                self.close_note();
            }
        } else if bytes_is(name, "node") && self.ancestors.len() > 0 {
            self.ancestors.pop();
            assert(self.state().ancestors =~= b.ancestors.drop_last());
        }
    }

    fn text_data(&mut self, text: &Option<String>)
        requires
            build_inv(old(self).state()),
        ensures
            final(self).state() == text_spec(old(self).state(), opt_str_view(*text)),
            build_inv(final(self).state()),
    {
        let ghost b = self.state();
        if let Some(t) = text {
            if self.in_note && self.in_body && self.in_p {
                let tt = trimmed(t.as_str());
                if !tt.as_str().is_empty() {
                    self.paragraphs.push(tt);
                    assert(self.state().paragraphs =~= b.paragraphs.push(trim(t@)));
                }
            }
        }
    }

    /// Applies one event.
    pub fn step(&mut self, ev: &XmlEvent)
        requires
            build_inv(old(self).state()),
            old(self).nodes.len() + 1 < usize::MAX,
        ensures
            final(self).state() == step_spec(old(self).state(), ev@),
            build_inv(final(self).state()),
    {
        match ev {
            XmlEvent::Start { name, attrs } => self.start_tag(name, attrs),
            XmlEvent::Empty { name, attrs } => self.empty_tag(name, attrs),
            XmlEvent::End { name } => self.end_tag(name),
            XmlEvent::Text { text } => self.text_data(text),
            _ => {},
        }
    }
}


// ---------------------------------------------------------------------------
// Reading a document.

/// Why a document could not be read.
#[derive(Debug)]
pub enum MmError {
    /// The XML is malformed; the reader's message and the byte position.
    Xml { position: u64, message: String },
    /// The document holds no `<node>` element.
    NoRoot,
}

impl MmError {
    /// A message for the user.
    pub fn describe(&self) -> (res: String)
        ensures
            res@ == match self {
                MmError::Xml { position, message } =>
                    "XML parse error at position "@ + decimal(*position as nat) + ": "@ + message@,
                MmError::NoRoot => "No root <node> found in FreeMind XML"@,
            },
    {
        let mut out = String::new();
        match self {
            MmError::Xml { position, message } => {
                push_str(&mut out, "XML parse error at position ");
                push_decimal(&mut out, *position);
                push_str(&mut out, ": ");
                push_str(&mut out, message.as_str());
            },
            MmError::NoRoot => {
                push_str(&mut out, "No root <node> found in FreeMind XML");
            },
        }
        out
    }
}

pub open spec fn initial_build() -> BuildState {
    BuildState {
        nodes: Seq::empty(),
        ancestors: Seq::empty(),
        root: None,
        in_note: false,
        in_body: false,
        in_p: false,
        paragraphs: Seq::empty(),
        note_target: None,
    }
}

/// The builder after the events, in order.
pub open spec fn built(evs: Seq<XmlEventView>) -> BuildState
    decreases evs.len(),
{
    if evs.len() == 0 {
        initial_build()
    } else {
        step_spec(built(evs.drop_last()), evs.last())
    }
}

pub open spec fn is_stop(e: XmlEvent) -> bool {
    e is Eof || e is Error
}

/// The index of the first end-of-input or error event (the length when none).
pub open spec fn first_stop(evs: Seq<XmlEvent>) -> nat
    decreases evs.len(),
{
    if evs.len() == 0 {
        0
    } else if is_stop(evs[0]) {
        0
    } else {
        1 + first_stop(evs.drop_first())
    }
}

/// The outcome of reading a document that produced `evs`: the first error
/// event, if any comes before the end of input; otherwise the tree built from
/// the events before the end (none when no node was read).
pub open spec fn parse_outcome_ok(evs: Seq<XmlEvent>, res: Result<MindmapTree, MmError>) -> bool {
    let k = first_stop(evs);
    if k < evs.len() && evs[k as int] is Error {
        match (evs[k as int], res) {
            (XmlEvent::Error { position, message }, Err(MmError::Xml { position: p, message: m })) =>
                p == position && m@ == message@,
            _ => false,
        }
    } else {
        let b = built(events_view(evs).take(k as int));
        if b.nodes.len() == 0 {
            res matches Err(MmError::NoRoot)
        } else {
            match res {
                Ok(t) => {
                    &&& t.ns() == b.nodes
                    &&& t.root == 0
                    &&& t.wf()
                    &&& t.next_id() == crate::tree::max_id_number(b.nodes).wrapping_add(1)
                    &&& t.cache() is None
                    &&& t.sibling_limit == 20
                    &&& t.force_expanded@ == Set::<NodeId>::empty()
                },
                Err(_) => false,
            }
        }
    }
}

proof fn lemma_step_len(b: BuildState, e: XmlEventView)
    requires
        build_inv(b),
    ensures
        step_spec(b, e).nodes.len() <= b.nodes.len() + 1,
{
    if let Some(t) = top_of(b) {
        assert(b.ancestors[b.ancestors.len() - 1] == t);
    }
}

pub(crate) proof fn lemma_first_stop(evs: Seq<XmlEvent>, k: int)
    requires
        0 <= k <= evs.len(),
        forall|j: int| 0 <= j < k ==> !is_stop(#[trigger] evs[j]),
        k == evs.len() || is_stop(evs[k]),
    ensures
        first_stop(evs) == k,
    decreases k,
{
    if k > 0 {
        lemma_first_stop(evs.drop_first(), k - 1);
    }
}

fn finish_build(b: MmBuilder) -> (res: Result<MindmapTree, MmError>)
    requires
        build_inv(b.state()),
    ensures
        b.state().nodes.len() == 0 ==> res matches Err(MmError::NoRoot),
        b.state().nodes.len() > 0 ==> (res matches Ok(t) && {
            &&& t.ns() == b.state().nodes
            &&& t.root == 0
            &&& t.wf()
            &&& t.next_id() == crate::tree::max_id_number(b.state().nodes).wrapping_add(1)
            &&& t.cache() is None
            &&& t.sibling_limit == 20
            &&& t.force_expanded@ == Set::<NodeId>::empty()
        }),
{
    match b.root {
        None => Err(MmError::NoRoot),
        Some(root) => {
            proof {
                lemma_build_inv_wf(b.state());
            }
            let t = MindmapTree::new(b.nodes, root);
            Ok(t)
        },
    }
}

/// Builds a tree from XML events: stops at the first error (reported with its
/// position) or at the end of input, and fails when no node was read.
pub fn parse_mm_events(events: &Vec<XmlEvent>) -> (res: Result<MindmapTree, MmError>)
    requires
        events.len() < usize::MAX - 2,
    ensures
        parse_outcome_ok(events@, res),
{
    let mut b = MmBuilder::new();
    let mut i: usize = 0;
    while i < events.len()
        invariant
            i <= events.len() < usize::MAX - 2,
            b.state() == built(events_view(events@).take(i as int)),
            build_inv(b.state()),
            b.nodes.len() <= i,
            forall|j: int| 0 <= j < i ==> !is_stop(#[trigger] events@[j]),
        decreases events.len() - i,
    {
        match &events[i] {
            XmlEvent::Eof => {
                proof {
                    lemma_first_stop(events@, i as int);
                }
                return finish_build(b);
            },
            XmlEvent::Error { position, message } => {
                proof {
                    lemma_first_stop(events@, i as int);
                }
                return Err(MmError::Xml { position: *position, message: message.clone() });
            },
            ev => {
                proof {
                    let evv = events_view(events@);
                    assert(evv.take(i + 1).drop_last() =~= evv.take(i as int));
                    assert(evv.take(i + 1).last() == events@[i as int]@);
                }
                let ghost before = b.state();
                b.step(ev);
                proof {
                    lemma_step_len(before, ev@);
                }
                assert(b.state() == built(events_view(events@).take(i + 1)));
            },
        }
        i = i + 1;
    }
    proof {
        lemma_first_stop(events@, i as int);
    }
    finish_build(b)
}


/// Parses a FreeMind document: quick-xml reads the events of `xml` with text
/// trimming, up to the end of input or the first error, and `parse_mm_events`
/// builds the tree from them, so a tree read is always well-formed, rooted at
/// its first node.
pub fn parse_mm_xml(xml: &str) -> (res: Result<MindmapTree, MmError>)
    requires
        xml.len() < usize::MAX - 3,
    ensures
        exists|evs: Seq<XmlEvent>| events_view(evs) == doc_events(xml@, xml.len() as nat) && #[trigger] parse_outcome_ok(evs, res),
        res matches Ok(t) ==> t.wf() && t.root == 0,
{
    let mut cur = xml_cursor(xml);
    trim_text(&mut cur);
    let mut events: Vec<XmlEvent> = Vec::new();
    let mut remaining: usize = xml.len();
    loop
        invariant_except_break
            events.len() + remaining == xml.len(),
            forall|j: nat| j < events.len() ==> !ends_reading(#[trigger] xml_event_at(xml@, true, j)),
        invariant
            xml.len() < usize::MAX - 3,
            events.len() <= xml.len() + 1,
            cur.doc() == xml@,
            cur.trimmed(),
            cur.read() == events.len(),
            events_view(events@) == Seq::new(events.len() as nat, |k: int| xml_event_at(xml@, true, k as nat)),
        ensures
            events.len() <= xml.len() + 1,
            events.len() == stop_index(xml@, xml.len() as nat, 0) + 1,
        decreases remaining,
    {
        let ghost k = events.len();
        let ev = read_event(&mut cur);
        let stop = match &ev {
            XmlEvent::Eof => true,
            XmlEvent::Error { .. } => true,
            _ => false,
        };
        assert(stop == ends_reading(ev@));
        let ghost before = events@;
        events.push(ev);
        proof {
            assert(events@ == before.push(ev));
            assert(events_view(events@) =~= Seq::new(events.len() as nat, |j: int| xml_event_at(xml@, true, j as nat))) by {
                assert forall|j: int| 0 <= j < events.len() implies events_view(events@)[j] == xml_event_at(xml@, true, j as nat) by {
                    if j < k {
                        assert(events_view(before)[j] == xml_event_at(xml@, true, j as nat));
                    }
                }
            }
        }
        if stop || remaining == 0 {
            proof {
                lemma_stop_index(xml@, xml.len() as nat, k as nat);
            }
            break;
        }
        remaining = remaining - 1;
    }
    let res = parse_mm_events(&events);
    proof {
        let evs = events@;
        assert(events_view(evs) =~= doc_events(xml@, xml.len() as nat));
        assert(parse_outcome_ok(evs, res));
        if res is Ok {
            let k = first_stop(evs);
            assert(!(k < evs.len() && evs[k as int] is Error));
        }
    }
    res
}

} // verus!
