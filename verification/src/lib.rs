//! Core of a terminal text editor: the in-memory text buffer, the
//! (line, column) cursor model, the selection block, and the policy that
//! reconciles user edits with changes detected on disk.
//!
//! The editable text itself is held in a `ropey::Rope`; the `text` module
//! gives that store a mathematical face (a `Seq<char>`), and the `lines`
//! module describes how such a sequence decomposes into lines.  Everything
//! that decides or mutates editor state is verified against that model.
//! Terminal rendering, the file watcher thread and all file input/output
//! live with the binary, outside this crate.

pub mod args;
pub mod editor;
pub mod events;
pub mod lines;
pub mod text;
