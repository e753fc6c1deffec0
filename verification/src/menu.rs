//! The entries of the context menu and when each is enabled.
use vstd::prelude::*;
use crate::node::NodeId;
use crate::tree::MindmapTree;

verus! {

/// What a context-menu entry does.
#[derive(Debug, Clone, Copy, PartialEq, Eq, Structural)]
pub enum ContextAction {
    AddChild,
    AddSibling,
    Edit,
    Cut,
    Copy,
    Paste,
    Delete,
    OpenColorPicker,
    /// Gives a depth level a palette colour: (depth, palette index).
    SetLevelColor(usize, usize),
    ToggleFold,
    ViewNotes,
    FoldAll,
    UnfoldAll,
    OpenLink,
    EditLink,
    RemoveLink,
}

/// One entry of the context menu.
pub struct MenuItem {
    pub label: String,
    pub shortcut: &'static str,
    pub action: ContextAction,
    pub enabled: bool,
}

/// An entry as plain values.
pub struct ItemView {
    pub label: Seq<char>,
    pub shortcut: Seq<char>,
    pub action: ContextAction,
    pub enabled: bool,
}

impl View for MenuItem {
    type V = ItemView;

    open spec fn view(&self) -> ItemView {
        ItemView { label: self.label@, shortcut: self.shortcut@, action: self.action, enabled: self.enabled }
    }
}

/// The menu as plain values; `None` is a divider.
pub open spec fn items_view(items: Seq<Option<MenuItem>>) -> Seq<Option<ItemView>> {
    items.map_values(|o: Option<MenuItem>| match o {
        Some(m) => Some(m@),
        None => None,
    })
}

pub open spec fn entry(label: Seq<char>, shortcut: Seq<char>, action: ContextAction, enabled: bool) -> Option<ItemView> {
    Some(ItemView { label, shortcut, action, enabled })
}

/// The entries about the node's link, for a single selected node.
pub open spec fn link_entries(is_multi: bool, has_link: bool) -> Seq<Option<ItemView>> {
    if is_multi {
        seq![]
    } else if has_link {
        seq![
            None,
            entry("Open Link"@, ""@, ContextAction::OpenLink, true),
            entry("Edit Link..."@, ""@, ContextAction::EditLink, true),
            entry("Remove Link"@, ""@, ContextAction::RemoveLink, true),
        ]
    } else {
        seq![None, entry("Add Link..."@, ""@, ContextAction::EditLink, true)]
    }
}

/// The entries for a right-click on a node, given what is selected.
pub open spec fn node_entries(
    is_root: bool,
    is_multi: bool,
    is_leaf: bool,
    is_folded: bool,
    has_link: bool,
    clipboard_empty: bool,
) -> Seq<Option<ItemView>> {
    seq![
        entry("Add Child"@, "Tab"@, ContextAction::AddChild, true),
        entry("Add Sibling"@, "Enter"@, ContextAction::AddSibling, !is_root),
        None,
        entry("Edit"@, "F2"@, ContextAction::Edit, !is_multi),
        entry("Notes"@, "Ctrl+Shift+N"@, ContextAction::ViewNotes, !is_multi),
        None,
        entry("Cut"@, "Ctrl+X"@, ContextAction::Cut, !is_root),
        entry("Copy"@, "Ctrl+C"@, ContextAction::Copy, true),
        entry("Paste"@, "Ctrl+V"@, ContextAction::Paste, !clipboard_empty),
        None,
        entry("Delete"@, "Del"@, ContextAction::Delete, !is_root),
        None,
        entry("Level Color..."@, ""@, ContextAction::OpenColorPicker, true),
        entry(if is_folded { "Unfold"@ } else { "Fold"@ }, "Ctrl+."@, ContextAction::ToggleFold, !is_leaf),
        None,
        entry("Fold All"@, "Ctrl+Shift+-"@, ContextAction::FoldAll, true),
        entry("Unfold All"@, "Ctrl+Shift+="@, ContextAction::UnfoldAll, true),
    ] + link_entries(is_multi, has_link)
}

fn item(label: &str, shortcut: &'static str, action: ContextAction, enabled: bool) -> (res: Option<MenuItem>)
    ensures
        res matches Some(m) && m@ == (ItemView { label: label@, shortcut: shortcut@, action, enabled }),
{
    Some(MenuItem { label: label.to_string(), shortcut, action, enabled })
}

/// The context menu for a right-click: on empty canvas only "Paste" (when there
/// is something to paste and a selected node to paste into); on a node, the full
/// list, with entries disabled where they do not apply to the selection.
pub fn build_context_items(
    on_node: bool,
    primary: Option<NodeId>,
    is_multi: bool,
    clipboard_empty: bool,
    tree: &MindmapTree,
) -> (res: Vec<Option<MenuItem>>)
    requires
        primary matches Some(p) ==> p < tree.nodes.len(),
    ensures
        !on_node ==> items_view(res@) == if clipboard_empty || primary is None {
            Seq::<Option<ItemView>>::empty()
        } else {
            seq![entry("Paste"@, "Ctrl+V"@, ContextAction::Paste, true)]
        },
        on_node ==> items_view(res@) == match primary {
            Some(p) => node_entries(
                p == tree.root,
                is_multi,
                tree.ns()[p as int].children.len() == 0,
                tree.ns()[p as int].folded,
                tree.ns()[p as int].link is Some,
                clipboard_empty,
            ),
            None => node_entries(false, is_multi, true, false, false, clipboard_empty),
        },
{
    let mut items: Vec<Option<MenuItem>> = Vec::new();
    if !on_node {
        if clipboard_empty || primary.is_none() {
            assert(items_view(items@) =~= Seq::<Option<ItemView>>::empty());
            return items;
        }
        items.push(item("Paste", "Ctrl+V", ContextAction::Paste, true));
        assert(items_view(items@) =~= seq![entry("Paste"@, "Ctrl+V"@, ContextAction::Paste, true)]);
        return items;
    }
    let (is_root, is_leaf, is_folded, has_link) = match primary {
        Some(p) => (
            p == tree.root,
            tree.nodes[p].children.len() == 0,
            tree.nodes[p].folded,
            tree.nodes[p].link.is_some(),
        ),
        None => (false, true, false, false),
    };
    items.push(item("Add Child", "Tab", ContextAction::AddChild, true));
    items.push(item("Add Sibling", "Enter", ContextAction::AddSibling, !is_root));
    items.push(None);
    items.push(item("Edit", "F2", ContextAction::Edit, !is_multi));
    items.push(item("Notes", "Ctrl+Shift+N", ContextAction::ViewNotes, !is_multi));
    items.push(None);
    items.push(item("Cut", "Ctrl+X", ContextAction::Cut, !is_root));
    items.push(item("Copy", "Ctrl+C", ContextAction::Copy, true));
    items.push(item("Paste", "Ctrl+V", ContextAction::Paste, !clipboard_empty));
    items.push(None);
    items.push(item("Delete", "Del", ContextAction::Delete, !is_root));
    items.push(None);
    items.push(item("Level Color...", "", ContextAction::OpenColorPicker, true));
    let fold_label = if is_folded { "Unfold" } else { "Fold" };
    items.push(item(fold_label, "Ctrl+.", ContextAction::ToggleFold, !is_leaf));
    items.push(None);
    items.push(item("Fold All", "Ctrl+Shift+-", ContextAction::FoldAll, true));
    items.push(item("Unfold All", "Ctrl+Shift+=", ContextAction::UnfoldAll, true));
    if !is_multi {
        if has_link {
            items.push(None);
            items.push(item("Open Link", "", ContextAction::OpenLink, true));
            items.push(item("Edit Link...", "", ContextAction::EditLink, true));
            items.push(item("Remove Link", "", ContextAction::RemoveLink, true));
        } else {
            items.push(None);
            items.push(item("Add Link...", "", ContextAction::EditLink, true));
        }
    }
    assert(items_view(items@) =~= node_entries(is_root, is_multi, is_leaf, is_folded, has_link, clipboard_empty));
    items
}


// ---------------------------------------------------------------------------
// Global shortcuts.

/// What the main menu and the global shortcuts ask the application to do.
#[derive(Debug, Clone, Copy, PartialEq, Eq, Structural)]
pub enum MenuAction {
    /// Nothing to do.
    NoAction,
    NewMap,
    OpenFile,
    OpenRecentFile(usize),
    Save,
    SaveAs,
    ExportSvg,
    ExportPng,
    ExportMarkdown,
    ExportOpml,
    ResetZoom,
    CloseToWelcome,
    CloseMenu,
    OpenSearch,
    CloseSearch,
    ToggleNotes,
    Quit,
    Undo,
    Redo,
    FitToScreen,
    ToggleBold,
    FoldAll,
    UnfoldAll,
    ToggleHelp,
    ToggleDarkMode,
    ExportSubmenu,
}

/// The keys that global shortcuts use; any other key is `Other`.
#[derive(Debug, Clone, Copy, PartialEq, Eq, Structural)]
pub enum ShortcutKey {
    F1,
    Num0,
    N,
    O,
    S,
    Q,
    F,
    Minus,
    Equals,
    Home,
    B,
    Escape,
    Other,
}

/// One input event, as the global shortcuts see it.
#[derive(Debug, Clone, Copy, PartialEq, Eq, Structural)]
pub enum ShortcutInput {
    /// A `?` typed.
    QuestionMark,
    /// A key pressed, with the modifiers held.
    Key { key: ShortcutKey, ctrl: bool, shift: bool, alt: bool },
    Other,
}

/// What is open on screen when the event comes.
#[derive(Debug, Clone, Copy, PartialEq, Eq, Structural)]
pub struct ShortcutContext {
    pub editing: bool,
    pub search_open: bool,
    pub help_open: bool,
    pub menu_open: bool,
    pub style_panel_open: bool,
    pub notes_panel_open: bool,
}

/// The action one event asks for, if any.
pub open spec fn shortcut_action(e: ShortcutInput, c: ShortcutContext) -> MenuAction {
    match e {
        ShortcutInput::QuestionMark => if !c.editing && !c.search_open { MenuAction::ToggleHelp } else { MenuAction::NoAction },
        ShortcutInput::Key { key, ctrl, shift, alt } => match key {
            ShortcutKey::F1 => if !c.editing { MenuAction::ToggleHelp } else { MenuAction::NoAction },
            ShortcutKey::Num0 => if ctrl { MenuAction::ResetZoom } else { MenuAction::NoAction },
            ShortcutKey::N => if ctrl && shift {
                MenuAction::ToggleNotes
            } else if ctrl {
                MenuAction::NewMap
            } else {
                MenuAction::NoAction
            },
            ShortcutKey::O => if ctrl { MenuAction::OpenFile } else { MenuAction::NoAction },
            ShortcutKey::S => if ctrl && shift {
                MenuAction::SaveAs
            } else if ctrl {
                MenuAction::Save
            } else {
                MenuAction::NoAction
            },
            ShortcutKey::Q => if ctrl { MenuAction::Quit } else { MenuAction::NoAction },
            ShortcutKey::F => if ctrl && !shift {
                MenuAction::OpenSearch
            } else if !ctrl && !shift && !alt && !c.editing {
                MenuAction::FitToScreen
            } else {
                MenuAction::NoAction
            },
            ShortcutKey::Minus => if ctrl && shift && !c.editing { MenuAction::FoldAll } else { MenuAction::NoAction },
            ShortcutKey::Equals => if ctrl && shift && !c.editing { MenuAction::UnfoldAll } else { MenuAction::NoAction },
            ShortcutKey::Home => if !ctrl && !shift && !alt { MenuAction::FitToScreen } else { MenuAction::NoAction },
            ShortcutKey::B => if ctrl { MenuAction::ToggleBold } else { MenuAction::NoAction },
            ShortcutKey::Escape => if c.search_open {
                MenuAction::CloseSearch
            } else if c.help_open {
                MenuAction::ToggleHelp
            } else if c.menu_open || c.style_panel_open || c.notes_panel_open {
                MenuAction::CloseMenu
            } else {
                MenuAction::NoAction
            },
            ShortcutKey::Other => MenuAction::NoAction,
        },
        ShortcutInput::Other => MenuAction::NoAction,
    }
}

/// The action of the first event that asks for one.
pub open spec fn first_shortcut(evs: Seq<ShortcutInput>, c: ShortcutContext) -> MenuAction
    decreases evs.len(),
{
    if evs.len() == 0 {
        MenuAction::NoAction
    } else if shortcut_action(evs[0], c) != MenuAction::NoAction {
        shortcut_action(evs[0], c)
    } else {
        first_shortcut(evs.drop_first(), c)
    }
}

fn event_action(e: ShortcutInput, c: ShortcutContext) -> (res: MenuAction)
    ensures
        res == shortcut_action(e, c),
{
    match e {
        ShortcutInput::QuestionMark => if !c.editing && !c.search_open { MenuAction::ToggleHelp } else { MenuAction::NoAction },
        ShortcutInput::Key { key, ctrl, shift, alt } => match key {
            ShortcutKey::F1 => if !c.editing { MenuAction::ToggleHelp } else { MenuAction::NoAction },
            ShortcutKey::Num0 => if ctrl { MenuAction::ResetZoom } else { MenuAction::NoAction },
            ShortcutKey::N => if ctrl && shift {
                MenuAction::ToggleNotes
            } else if ctrl {
                MenuAction::NewMap
            } else {
                MenuAction::NoAction
            },
            ShortcutKey::O => if ctrl { MenuAction::OpenFile } else { MenuAction::NoAction },
            ShortcutKey::S => if ctrl && shift {
                MenuAction::SaveAs
            } else if ctrl {
                MenuAction::Save
            } else {
                MenuAction::NoAction
            },
            ShortcutKey::Q => if ctrl { MenuAction::Quit } else { MenuAction::NoAction },
            ShortcutKey::F => if ctrl && !shift {
                MenuAction::OpenSearch
            } else if !ctrl && !shift && !alt && !c.editing {
                MenuAction::FitToScreen
            } else {
                MenuAction::NoAction
            },
            ShortcutKey::Minus => if ctrl && shift && !c.editing { MenuAction::FoldAll } else { MenuAction::NoAction },
            ShortcutKey::Equals => if ctrl && shift && !c.editing { MenuAction::UnfoldAll } else { MenuAction::NoAction },
            ShortcutKey::Home => if !ctrl && !shift && !alt { MenuAction::FitToScreen } else { MenuAction::NoAction },
            ShortcutKey::B => if ctrl { MenuAction::ToggleBold } else { MenuAction::NoAction },
            ShortcutKey::Escape => if c.search_open {
                MenuAction::CloseSearch
            } else if c.help_open {
                MenuAction::ToggleHelp
            } else if c.menu_open || c.style_panel_open || c.notes_panel_open {
                MenuAction::CloseMenu
            } else {
                MenuAction::NoAction
            },
            ShortcutKey::Other => MenuAction::NoAction,
        },
        ShortcutInput::Other => MenuAction::NoAction,
    }
}

/// The global shortcut that a frame's input events ask for: the action of the
/// first event that asks for one, or `MenuAction::NoAction`.
pub fn global_action(events: &Vec<ShortcutInput>, c: ShortcutContext) -> (res: MenuAction)
    ensures
        res == first_shortcut(events@, c),
{
    let mut i: usize = 0;
    assert(events@.skip(0) =~= events@);
    while i < events.len()
        invariant
            i <= events.len(),
            first_shortcut(events@, c) == first_shortcut(events@.skip(i as int), c),
        decreases events.len() - i,
    {
        proof {
            assert(events@.skip(i as int)[0] == events@[i as int]);
            assert(events@.skip(i as int).drop_first() =~= events@.skip(i + 1));
        }
        let a = event_action(events[i], c);
        match a {
            MenuAction::NoAction => {},
            _ => {
                return a;
            },
        }
        i = i + 1;
    }
    MenuAction::NoAction
}

/// The fold entry of a node's context menu offers what a click would do:
/// "Unfold" on a folded node, "Fold" on an unfolded one.
pub proof fn lemma_fold_entry_label(
    is_root: bool,
    is_multi: bool,
    is_leaf: bool,
    has_link: bool,
    clipboard_empty: bool,
)
    ensures
        node_entries(is_root, is_multi, is_leaf, true, has_link, clipboard_empty)[13]
            == entry("Unfold"@, "Ctrl+."@, ContextAction::ToggleFold, !is_leaf),
        node_entries(is_root, is_multi, is_leaf, false, has_link, clipboard_empty)[13]
            == entry("Fold"@, "Ctrl+."@, ContextAction::ToggleFold, !is_leaf),
        node_entries(is_root, is_multi, is_leaf, true, has_link, clipboard_empty)[13]
            != node_entries(is_root, is_multi, is_leaf, false, has_link, clipboard_empty)[13],
{
    reveal_strlit("Unfold");
    reveal_strlit("Fold");
    assert("Unfold"@.len() != "Fold"@.len());
}

/// Ctrl+Shift+- folds the whole map and Ctrl+Shift+= unfolds it (when no text
/// is being edited), the keys that the context menu shows beside "Fold All"
/// and "Unfold All".
pub proof fn lemma_fold_all_shortcuts(
    c: ShortcutContext,
    alt: bool,
    is_root: bool,
    is_multi: bool,
    is_leaf: bool,
    is_folded: bool,
    has_link: bool,
    clipboard_empty: bool,
)
    requires
        !c.editing,
    ensures
        shortcut_action(ShortcutInput::Key { key: ShortcutKey::Minus, ctrl: true, shift: true, alt }, c) == MenuAction::FoldAll,
        shortcut_action(ShortcutInput::Key { key: ShortcutKey::Equals, ctrl: true, shift: true, alt }, c) == MenuAction::UnfoldAll,
        node_entries(is_root, is_multi, is_leaf, is_folded, has_link, clipboard_empty)[15]
            == entry("Fold All"@, "Ctrl+Shift+-"@, ContextAction::FoldAll, true),
        node_entries(is_root, is_multi, is_leaf, is_folded, has_link, clipboard_empty)[16]
            == entry("Unfold All"@, "Ctrl+Shift+="@, ContextAction::UnfoldAll, true),
{
}
} // verus!
