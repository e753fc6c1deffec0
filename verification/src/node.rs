use vstd::prelude::*;

verus! {

/// Index of a node in the tree's arena.
pub type NodeId = usize;

/// Side of the root on which a first-level branch is drawn.
#[derive(Clone, Copy, Debug, PartialEq, Eq, Structural)]
pub enum Side {
    Left,
    Right,
}

/// Runtime interaction state of a node (not persisted).
#[derive(Clone, Copy, Debug, PartialEq, Eq, Structural)]
pub enum NodeState {
    Default,
    Hovered,
    Selected,
    Editing,
}

/// An opaque 24-bit color.
#[derive(Clone, Copy, Debug, PartialEq, Eq, Structural)]
pub struct Rgb {
    pub r: u8,
    pub g: u8,
    pub b: u8,
}

/// One node of the mind map. Tree structure is kept as arena indices.
#[derive(Clone, Debug)]
pub struct MindmapNode {
    pub id: NodeId,
    pub freemind_id: String,
    pub text: String,
    pub notes: String,
    pub link: Option<String>,
    pub color: Option<Rgb>,
    pub background_color: Option<Rgb>,
    pub position: Option<Side>,
    pub folded: bool,
    pub created: Option<u64>,
    pub modified: Option<u64>,
    pub bold: bool,
    /// Font size, as the text the file gives for it.
    pub font_size: Option<String>,
    pub font_name: Option<String>,
    pub parent: Option<NodeId>,
    pub children: Vec<NodeId>,
    pub state: NodeState,
}

/// Mathematical model of a node: every string taken as its characters.
pub struct NodeView {
    pub id: NodeId,
    pub freemind_id: Seq<char>,
    pub text: Seq<char>,
    pub notes: Seq<char>,
    pub link: Option<Seq<char>>,
    pub color: Option<Rgb>,
    pub background_color: Option<Rgb>,
    pub position: Option<Side>,
    pub folded: bool,
    pub created: Option<u64>,
    pub modified: Option<u64>,
    pub bold: bool,
    pub font_size: Option<Seq<char>>,
    pub font_name: Option<Seq<char>>,
    pub parent: Option<NodeId>,
    pub children: Seq<NodeId>,
    pub state: NodeState,
}

pub open spec fn opt_str_view(s: Option<String>) -> Option<Seq<char>> {
    match s {
        Some(v) => Some(v@),
        None => None,
    }
}

impl View for MindmapNode {
    type V = NodeView;

    open spec fn view(&self) -> NodeView {
        NodeView {
            id: self.id,
            freemind_id: self.freemind_id@,
            text: self.text@,
            notes: self.notes@,
            link: opt_str_view(self.link),
            color: self.color,
            background_color: self.background_color,
            position: self.position,
            folded: self.folded,
            created: self.created,
            modified: self.modified,
            bold: self.bold,
            font_size: opt_str_view(self.font_size),
            font_name: opt_str_view(self.font_name),
            parent: self.parent,
            children: self.children@,
            state: self.state,
        }
    }
}

/// The model of a freshly created node.
pub open spec fn fresh_node(id: NodeId, freemind_id: Seq<char>, text: Seq<char>) -> NodeView {
    NodeView {
        id,
        freemind_id,
        text,
        notes: Seq::empty(),
        link: None,
        color: None,
        background_color: None,
        position: None,
        folded: false,
        created: None,
        modified: None,
        bold: false,
        font_size: None,
        font_name: None,
        parent: None,
        children: Seq::empty(),
        state: NodeState::Default,
    }
}

pub fn clone_opt_string(s: &Option<String>) -> (res: Option<String>)
    ensures
        res == *s,
        opt_str_view(res) == opt_str_view(*s),
{
    match s {
        Some(v) => Some(v.clone()),
        None => None,
    }
}

impl MindmapNode {
    /// A new node with the given arena index, FreeMind id and text and no
    /// attributes, parent or children.
    pub fn new(id: NodeId, freemind_id: String, text: String) -> (res: Self)
        ensures
            res@ == fresh_node(id, freemind_id@, text@),
    {
        MindmapNode {
            id,
            freemind_id,
            text,
            notes: String::new(),
            link: None,
            color: None,
            background_color: None,
            position: None,
            folded: false,
            created: None,
            modified: None,
            bold: false,
            font_size: None,
            font_name: None,
            parent: None,
            children: Vec::new(),
            state: NodeState::Default,
        }
    }

    /// A copy of the node with the same model.
    pub fn duplicate(&self) -> (res: Self)
        ensures
            res@ == self@,
    {
        let children = self.children.clone();
        assert(children@ =~= self.children@);
        MindmapNode {
            id: self.id,
            freemind_id: self.freemind_id.clone(),
            text: self.text.clone(),
            notes: self.notes.clone(),
            link: clone_opt_string(&self.link),
            color: self.color,
            background_color: self.background_color,
            position: self.position,
            folded: self.folded,
            created: self.created,
            modified: self.modified,
            bold: self.bold,
            font_size: clone_opt_string(&self.font_size),
            font_name: clone_opt_string(&self.font_name),
            parent: self.parent,
            children,
            state: self.state,
        }
    }

    pub fn is_leaf(&self) -> (res: bool)
        ensures
            res == (self.children@.len() == 0),
    {
        self.children.is_empty()
    }
}

} // verus!

verus! {

/// The models of a sequence of nodes.
pub open spec fn view_nodes(nodes: Seq<MindmapNode>) -> Seq<NodeView> {
    nodes.map_values(|n: MindmapNode| n@)
}

} // verus!
