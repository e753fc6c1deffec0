//! In-place editing of a node's text: what ending an edit does to the tree and
//! the history.
use vstd::prelude::*;
use crate::history::{Action, History};
use crate::node::{NodeId, NodeState, NodeView};
use crate::text::{trim, trimmed};
use crate::tree::MindmapTree;

verus! {

/// What the edit overlay asks the application to do next.
#[derive(Debug, Clone, Copy, PartialEq, Eq, Structural)]
pub enum EditResult {
    /// Nothing happened, or still editing.
    Continue,
    /// Editing finished normally; the layout needs refreshing.
    Finished,
    /// Enter (or Shift+Enter): the edit was confirmed; create a sibling below and edit it.
    CreateSibling(NodeId),
    /// Tab: the edit was confirmed; create a child and edit it.
    CreateChild(NodeId),
    /// The text ended up empty: delete the node.
    DeleteEmpty(NodeId),
}

/// The keys seen during one frame of editing, and whether the text field lost focus.
#[derive(Debug, Clone, Copy, PartialEq, Eq, Structural)]
pub struct EditInput {
    pub escape: bool,
    pub enter: bool,
    pub shift_enter: bool,
    pub tab: bool,
    pub lost_focus: bool,
}

/// How a frame of editing ends, in order of precedence.
#[derive(Debug, Clone, Copy, PartialEq, Eq, Structural)]
pub enum EditEnd {
    Cancel,
    Child,
    Sibling,
    Finish,
    Editing,
}

pub open spec fn edit_end(i: EditInput) -> EditEnd {
    if i.escape {
        EditEnd::Cancel
    } else if i.tab {
        EditEnd::Child
    } else if i.enter || i.shift_enter {
        EditEnd::Sibling
    } else if i.lost_focus {
        EditEnd::Finish
    } else {
        EditEnd::Editing
    }
}

pub fn resolve_input(i: EditInput) -> (res: EditEnd)
    ensures
        res == edit_end(i),
{
    if i.escape {
        EditEnd::Cancel
    } else if i.tab {
        EditEnd::Child
    } else if i.enter || i.shift_enter {
        EditEnd::Sibling
    } else if i.lost_focus {
        EditEnd::Finish
    } else {
        EditEnd::Editing
    }
}

/// The result a confirmed (non-empty) edit of `id` reports.
pub open spec fn confirmed_result(end: EditEnd, id: NodeId) -> EditResult {
    match end {
        EditEnd::Child => EditResult::CreateChild(id),
        EditEnd::Sibling => EditResult::CreateSibling(id),
        _ => EditResult::Finished,
    }
}

pub struct EditingState {
    pub active_node: Option<NodeId>,
    pub text_buffer: String,
    /// The node's text when editing started.
    pub original_text: String,
    pub just_started: bool,
    /// The character that started editing by replacing the text, if any.
    pub replace_mode_char: Option<String>,
}

impl EditingState {
    pub fn new() -> (res: Self)
        ensures
            res.active_node is None,
            res.text_buffer@.len() == 0,
            res.original_text@.len() == 0,
            !res.just_started,
            res.replace_mode_char is None,
    {
        EditingState {
            active_node: None,
            text_buffer: String::new(),
            original_text: String::new(),
            just_started: false,
            replace_mode_char: None,
        }
    }

    pub fn is_active(&self) -> (res: bool)
        ensures
            res == self.active_node is Some,
    {
        self.active_node.is_some()
    }

    /// Starts editing `node_id` with its current text.
    pub fn start(&mut self, node_id: NodeId, text: String)
        ensures
            final(self).active_node == Some(node_id),
            final(self).text_buffer@ == text@,
            final(self).original_text@ == text@,
            final(self).just_started,
            final(self).replace_mode_char is None,
    {
        self.active_node = Some(node_id);
        self.text_buffer = text.clone();
        self.original_text = text;
        self.just_started = true;
        self.replace_mode_char = None;
    }

    /// Starts editing `node_id` with the text replaced by the typed character.
    pub fn start_replace(&mut self, node_id: NodeId, original_text: String, initial_char: String)
        ensures
            final(self).active_node == Some(node_id),
            final(self).text_buffer@ == initial_char@,
            final(self).original_text@ == original_text@,
            final(self).just_started,
            final(self).replace_mode_char matches Some(c) && c@ == initial_char@,
    {
        self.active_node = Some(node_id);
        self.text_buffer = initial_char.clone();
        self.original_text = original_text;
        self.just_started = true;
        self.replace_mode_char = Some(initial_char);
    }

    /// Applies the outcome of one frame of editing. While editing continues the
    /// node shows the buffer as typed. Otherwise editing stops and the node
    /// returns to its default state: an empty (after trimming) text asks for the
    /// node's deletion; any other ending (Escape, Enter, Tab or losing focus)
    /// confirms the trimmed text, which is stored, and recorded in the history
    /// when it differs from the text editing started with.
    pub fn finish(&mut self, tree: &mut MindmapTree, history: &mut History, input: EditInput) -> (res: EditResult)
        requires
            old(self).active_node matches Some(id) ==> id < old(tree).nodes.len(),
        ensures
            final(tree).cache() == old(tree).cache(),
            final(tree).same_settings(old(tree)),
            final(self).text_buffer@ == old(self).text_buffer@,
            final(self).original_text@ == old(self).original_text@,
            final(self).just_started == old(self).just_started,
            old(self).active_node is None ==> {
                &&& res == EditResult::Continue
                &&& final(tree).ns() == old(tree).ns()
                &&& final(self).active_node is None
                &&& final(history).undo_actions() == old(history).undo_actions()
                &&& final(history).redo_actions() == old(history).redo_actions()
                &&& final(history).dirty_flag() == old(history).dirty_flag()
            },
            old(self).active_node matches Some(id) ==> ({
                let ns = old(tree).ns();
                let t = trim(old(self).text_buffer@);
                let orig = old(self).original_text@;
                let end = edit_end(input);
                let changed = t.len() > 0 && t != orig;
                &&& end == EditEnd::Editing ==> {
                    &&& res == EditResult::Continue
                    &&& final(tree).ns() == ns.update(id as int, NodeView { text: old(self).text_buffer@, ..ns[id as int] })
                    &&& final(self).active_node == Some(id)
                }
                &&& end != EditEnd::Editing ==> {
                    &&& final(self).active_node is None
                    &&& res == if t.len() == 0 { EditResult::DeleteEmpty(id) } else { confirmed_result(end, id) }
                    &&& final(tree).ns() == ns.update(id as int, NodeView {
                        text: if t.len() > 0 { t } else { ns[id as int].text },
                        state: NodeState::Default,
                        ..ns[id as int]
                    })
                }
                &&& (end != EditEnd::Editing && changed) ==> {
                    &&& final(history).undo_actions().len() == old(history).undo_actions().len() + 1
                    &&& final(history).undo_actions().drop_last() == old(history).undo_actions()
                    &&& final(history).undo_actions().last() matches Action::EditText { node_id, old_text, new_text }
                        && node_id == id && old_text@ == orig && new_text@ == t
                    &&& final(history).redo_actions().len() == 0
                    &&& final(history).dirty_flag()
                }
                &&& !(end != EditEnd::Editing && changed) ==> {
                    &&& final(history).undo_actions() == old(history).undo_actions()
                    &&& final(history).redo_actions() == old(history).redo_actions()
                    &&& final(history).dirty_flag() == old(history).dirty_flag()
                }
            }),
    {
        let node_id = match self.active_node {
            Some(id) => id,
            None => return EditResult::Continue,
        };
        let ghost ns = tree.ns();
        let end = resolve_input(input);
        if end == EditEnd::Editing {
            tree.nodes[node_id].text = self.text_buffer.clone();
            assert(tree.ns() =~= ns.update(node_id as int, NodeView { text: self.text_buffer@, ..ns[node_id as int] }));
            return EditResult::Continue;
        }
        let new_text = trimmed(self.text_buffer.as_str());
        if new_text.as_str().is_empty() {
            tree.nodes[node_id].state = NodeState::Default;
            self.active_node = None;
            assert(tree.ns() =~= ns.update(node_id as int, NodeView { state: NodeState::Default, ..ns[node_id as int] }));
            return EditResult::DeleteEmpty(node_id);
        }
        if new_text != self.original_text {
            let action = Action::EditText {
                node_id,
                old_text: self.original_text.clone(),
                new_text: new_text.clone(),
            };
            history.push(action);
        }
        tree.nodes[node_id].text = new_text;
        tree.nodes[node_id].state = NodeState::Default;
        self.active_node = None;
        proof {
            let t = trim(old(self).text_buffer@);
            assert(tree.ns() =~= ns.update(node_id as int, NodeView {
                text: t,
                state: NodeState::Default,
                ..ns[node_id as int]
            }));
        }
        match end {
            EditEnd::Child => EditResult::CreateChild(node_id),
            EditEnd::Sibling => EditResult::CreateSibling(node_id),
            _ => EditResult::Finished,
        }
    }
}

impl Default for EditingState {
    fn default() -> (res: Self)
        ensures
            res.active_node is None,
            res.text_buffer@.len() == 0,
            !res.just_started,
    {
        Self::new()
    }
}

} // verus!
