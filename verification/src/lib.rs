//! Verified core of a mind-map editor: the arena tree of nodes, its editing
//! operations, undo/redo history, search, selection, styling choices and the
//! FreeMind / Markdown / OPML text formats.

pub mod node;
pub mod walk;
pub mod text;
pub mod tree;
pub mod clipboard;
pub mod colors;
pub mod selection;
pub mod search;
pub mod history;
pub mod restore;
pub mod editing;
pub mod export;
pub mod freemind_write;
pub mod freemind_read;
pub mod xml_source;
pub mod read_back;
pub mod commands;
pub mod autofold;
pub mod recent;
pub mod menu;
