//! Input events as the editor core sees them: keys, the answer the key
//! handler gives back to the interactive loop, and the signal the file
//! watcher sends when the open file changes on disk.

use vstd::prelude::*;

verus! {

/// A key press, reduced to what the editor reacts to.  The interactive loop
/// translates the terminal backend's key codes into this type.
pub enum Key {
    /// A printable character.
    Char(char),
    Enter,
    Backspace,
    Delete,
    Left,
    Right,
    Up,
    Down,
    Home,
    End,
    Tab,
    Esc,
    /// A function key, by number.
    F(u8),
    /// Any key the editor does not react to.
    Other,
}

/// What the interactive loop should do after a key was handled.
pub enum Action {
    Continue,
    Quit,
    Redraw,
    Save,
}

/// A signal from the background file watcher: the open file changed on disk.
pub enum AppEvent {
    FileChange,
}

} // verus!
