//! The editor session: text buffer, cursor, selection block and the modified
//! flag, with every mutation verified to keep the cursor inside the buffer.
//!
//! The invariant `wf` — the cursor's line exists and its column is at most
//! that line's length — is required and re-established by every operation.
//! Reconciliation with the on-disk file is modelled by `reload_step`: the
//! interactive loop reads the file when the watcher signals a change and
//! hands the text to `reload`, which never discards unsaved edits.

use vstd::prelude::*;
use crate::events::Action;
use crate::events::Key;
use crate::lines::clamp_line;
use crate::lines::clamp_pos;
use crate::lines::lemma_insert_newline;
use crate::lines::lemma_insert_text;
use crate::lines::lemma_line_count_pos;
use crate::lines::lemma_line_shape;
use crate::lines::lemma_line_start_ge;
use crate::lines::lemma_remove_in_line;
use crate::lines::lemma_remove_terminator;
use crate::lines::line_count;
use crate::lines::line_len;
use crate::lines::line_start;
use crate::lines::line_text;
use crate::text::rope_char_at;
use crate::text::rope_eq_str;
use crate::text::rope_from_str;
use crate::text::rope_insert_char;
use crate::text::rope_len_chars;
use crate::text::rope_len_lines;
use crate::text::rope_line_to_char;
use crate::text::rope_remove_char;
use crate::text::rope_slice_to_string;
use crate::text::rope_text;
use crate::text::rope_to_string;

verus! {

/// One editing session over one open file.
pub struct Editor {
    pub rope: ropey::Rope,
    /// (line, column), both zero-based.
    pub cursor: (usize, usize),
    pub modified: bool,
    /// Whether a selection block is being dragged out right now.
    pub block: bool,
    pub block_start: (usize, usize),
    pub block_end: (usize, usize),
    pub tab_size: usize,
    pub frame_count: usize,
}

/// The buffer-and-cursor state that reconciliation reasons about.
#[verifier::ext_equal]
pub struct BufferView {
    pub text: Seq<char>,
    pub line: nat,
    pub col: nat,
    pub modified: bool,
}

impl Editor {
    /// The text the buffer holds.
    pub open spec fn text(&self) -> Seq<char> {
        rope_text(self.rope)
    }

    /// The cursor invariant: its line exists, and its column is at most the
    /// length of that line.
    pub open spec fn wf(&self) -> bool {
        &&& (self.cursor.0 as nat) < line_count(self.text())
        &&& (self.cursor.1 as nat) <= line_len(self.text(), self.cursor.0 as nat)
    }

    pub open spec fn buffer_view(&self) -> BufferView {
        BufferView {
            text: self.text(),
            line: self.cursor.0 as nat,
            col: self.cursor.1 as nat,
            modified: self.modified,
        }
    }
}

/// The selection block, the tab width and the frame counter are untouched.
pub open spec fn same_blocks(pre: Editor, post: Editor) -> bool {
    &&& post.block == pre.block
    &&& post.block_start == pre.block_start
    &&& post.block_end == pre.block_end
    &&& post.tab_size == pre.tab_size
    &&& post.frame_count == pre.frame_count
}

/// Only the cursor may differ.
pub open spec fn same_except_cursor(pre: Editor, post: Editor) -> bool {
    &&& post.rope == pre.rope
    &&& post.modified == pre.modified
    &&& same_blocks(pre, post)
}

/// One column left; at a line start, to the end of the previous line.
pub open spec fn move_left_rel(pre: Editor, post: Editor) -> bool {
    &&& same_except_cursor(pre, post)
    &&& if pre.cursor.1 > 0 {
        post.cursor.0 == pre.cursor.0 && post.cursor.1 == pre.cursor.1 - 1
    } else if pre.cursor.0 > 0 {
        post.cursor.0 == pre.cursor.0 - 1 && post.cursor.1 == line_len(
            pre.text(),
            (pre.cursor.0 - 1) as nat,
        )
    } else {
        post.cursor == pre.cursor
    }
}

/// One column right; at a line end, to the start of the next line.
pub open spec fn move_right_rel(pre: Editor, post: Editor) -> bool {
    &&& same_except_cursor(pre, post)
    &&& if (pre.cursor.1 as nat) < line_len(pre.text(), pre.cursor.0 as nat) {
        post.cursor.0 == pre.cursor.0 && post.cursor.1 == pre.cursor.1 + 1
    } else if pre.cursor.0 + 1 < line_count(pre.text()) {
        post.cursor.0 == pre.cursor.0 + 1 && post.cursor.1 == 0
    } else {
        post.cursor == pre.cursor
    }
}

/// One line up, the column cut back to the new line's length.
pub open spec fn move_up_rel(pre: Editor, post: Editor) -> bool {
    &&& same_except_cursor(pre, post)
    &&& if pre.cursor.0 > 0 {
        post.cursor.0 == pre.cursor.0 - 1 && post.cursor.1 as nat == min_col(
            pre.cursor.1 as nat,
            line_len(pre.text(), (pre.cursor.0 - 1) as nat),
        )
    } else {
        post.cursor == pre.cursor
    }
}

/// One line down, the column cut back to the new line's length.
pub open spec fn move_down_rel(pre: Editor, post: Editor) -> bool {
    &&& same_except_cursor(pre, post)
    &&& if pre.cursor.0 + 1 < line_count(pre.text()) {
        post.cursor.0 == pre.cursor.0 + 1 && post.cursor.1 as nat == min_col(
            pre.cursor.1 as nat,
            line_len(pre.text(), (pre.cursor.0 + 1) as nat),
        )
    } else {
        post.cursor == pre.cursor
    }
}

pub open spec fn min_col(a: nat, b: nat) -> nat {
    if a <= b {
        a
    } else {
        b
    }
}

/// The character `c` enters at the cursor; the cursor ends just after it.
pub open spec fn insert_char_rel(pre: Editor, post: Editor, c: char) -> bool {
    &&& post.text() == pre.text().insert(
        line_start(pre.text(), pre.cursor.0 as nat) as int + pre.cursor.1,
        c,
    )
    &&& if c == '\n' {
        post.cursor.0 == pre.cursor.0 + 1 && post.cursor.1 == 0
    } else {
        post.cursor.0 == pre.cursor.0 && post.cursor.1 == pre.cursor.1 + 1
    }
    &&& post.modified
    &&& same_blocks(pre, post)
}

/// The terminator ending the previous line goes away; the two lines merge and
/// the cursor lands where the previous line used to end.
pub open spec fn join_rel(pre: Editor, post: Editor) -> bool {
    &&& post.text() == pre.text().remove(
        line_start(pre.text(), pre.cursor.0 as nat) as int - 1,
    )
    &&& post.cursor.0 == pre.cursor.0 - 1
    &&& post.cursor.1 == line_len(pre.text(), (pre.cursor.0 - 1) as nat)
    &&& post.modified == pre.modified
    &&& same_blocks(pre, post)
}

/// Backspace: the character before the cursor goes away; at a line start the
/// lines join; at the very start of the buffer nothing at all changes.
pub open spec fn backspace_rel(pre: Editor, post: Editor) -> bool {
    if pre.cursor.1 > 0 {
        &&& post.text() == pre.text().remove(
            line_start(pre.text(), pre.cursor.0 as nat) as int + pre.cursor.1 - 1,
        )
        &&& post.cursor.0 == pre.cursor.0
        &&& post.cursor.1 == pre.cursor.1 - 1
        &&& post.modified
        &&& same_blocks(pre, post)
    } else if pre.cursor.0 > 0 {
        &&& post.text() == pre.text().remove(
            line_start(pre.text(), pre.cursor.0 as nat) as int - 1,
        )
        &&& post.cursor.0 == pre.cursor.0 - 1
        &&& post.cursor.1 == line_len(pre.text(), (pre.cursor.0 - 1) as nat)
        &&& post.modified
        &&& same_blocks(pre, post)
    } else {
        post == pre
    }
}

/// Forward delete: the character at the cursor goes away (a terminator there
/// joins the lines); at the end of the buffer nothing at all changes.
pub open spec fn delete_next_rel(pre: Editor, post: Editor) -> bool {
    if line_start(pre.text(), pre.cursor.0 as nat) + pre.cursor.1 < pre.text().len() {
        &&& post.text() == pre.text().remove(
            line_start(pre.text(), pre.cursor.0 as nat) as int + pre.cursor.1,
        )
        &&& post.cursor == pre.cursor
        &&& post.modified
        &&& same_blocks(pre, post)
    } else {
        post == pre
    }
}

/// What reconciliation does to the buffer-and-cursor state when the text
/// read back from disk is `disk` (`None`: the file could not be read).
/// Unsaved edits always win; an unchanged text changes nothing, so the
/// cursor is reset only when the on-disk text really differs.
pub open spec fn reload_step(v: BufferView, disk: Option<Seq<char>>) -> BufferView {
    if v.modified {
        v
    } else {
        match disk {
            Option::None => v,
            Option::Some(c) => if c == v.text {
                v
            } else {
                BufferView { text: c, line: 0, col: 0, modified: false }
            },
        }
    }
}

pub open spec fn disk_view(disk: Option<&str>) -> Option<Seq<char>> {
    match disk {
        Option::None => Option::None,
        Option::Some(s) => Option::Some(s@),
    }
}

/// Reloading twice with the same on-disk text is the same as reloading once:
/// the second pass finds the buffer unmodified and equal to the disk text and
/// leaves everything, the cursor included, untouched.
pub proof fn lemma_reload_idempotent(v: BufferView, disk: Option<Seq<char>>)
    ensures
        reload_step(reload_step(v, disk), disk) == reload_step(v, disk),
{
}

/// The zero-based buffer line a screen row points at, before clamping.
pub open spec fn screen_line(y: u16) -> nat {
    if y >= 1 {
        (y - 1) as nat
    } else {
        0
    }
}

/// The zero-based buffer column a screen column points at, before clamping.
pub open spec fn screen_col(x: u16) -> nat {
    if x >= 1 {
        (x - 1) as nat
    } else {
        0
    }
}

/// A pointer press: the cursor and both block anchors move to the resolved
/// position and any active block is dropped.  Neither the text nor the
/// modified flag is touched.
pub open spec fn mouse_down_rel(pre: Editor, post: Editor, x: u16, y: u16) -> bool {
    &&& post.rope == pre.rope
    &&& post.modified == pre.modified
    &&& post.tab_size == pre.tab_size
    &&& post.frame_count == pre.frame_count
    &&& (post.cursor.0 as nat, post.cursor.1 as nat) == clamp_pos(
        pre.text(),
        screen_line(y),
        screen_col(x),
    )
    &&& !post.block
    &&& post.block_start == post.cursor
    &&& post.block_end == post.cursor
}

/// A pointer drag: the cursor and the block's end move to the resolved
/// position and the block becomes active; its start anchor stays.
pub open spec fn mouse_drag_rel(pre: Editor, post: Editor, x: u16, y: u16) -> bool {
    &&& post.rope == pre.rope
    &&& post.modified == pre.modified
    &&& post.tab_size == pre.tab_size
    &&& post.frame_count == pre.frame_count
    &&& post.block_start == pre.block_start
    &&& (post.cursor.0 as nat, post.cursor.1 as nat) == clamp_pos(
        pre.text(),
        screen_line(y),
        screen_col(x),
    )
    &&& post.block
    &&& post.block_end == post.cursor
}

impl Editor {
    /// Opens a buffer over the text read from the file, or an empty one when
    /// the file could not be read — a missing file is a fresh file, not an
    /// error.  The requested one-based starting line is clamped into the
    /// buffer.
    pub fn new(content: Option<&str>, file_line: usize) -> (e: Editor)
        ensures
            e.text() == (match content {
                Option::Some(s) => s@,
                Option::None => Seq::<char>::empty(),
            }),
            e.cursor.0 as nat == clamp_line(
                e.text(),
                if file_line > 0 {
                    (file_line - 1) as nat
                } else {
                    0
                },
            ),
            e.cursor.1 == 0,
            !e.modified,
            !e.block,
            e.block_start == (0usize, 0usize),
            e.block_end == (0usize, 0usize),
            e.tab_size == 4,
            e.frame_count == 0,
            e.wf(),
    {
        let rope = match content {
            Some(s) => rope_from_str(s),
            None => rope_from_str(""),
        };
        proof {
            reveal_strlit("");
            assert(""@ =~= Seq::<char>::empty());
            lemma_line_count_pos(rope_text(rope));
        }
        let target: usize = if file_line > 0 {
            file_line - 1
        } else {
            0
        };
        let lc = rope_len_lines(&rope);
        let l: usize = if target < lc {
            target
        } else {
            lc - 1
        };
        Editor {
            rope,
            cursor: (l, 0),
            modified: false,
            block: false,
            block_start: (0, 0),
            block_end: (0, 0),
            tab_size: 4,
            frame_count: 0,
        }
    }

    /// Number of logical lines, always at least one.
    pub fn line_count(&self) -> (n: usize)
        ensures
            n == line_count(self.text()),
            n >= 1,
    {
        proof {
            lemma_line_count_pos(self.text());
        }
        rope_len_lines(&self.rope)
    }

    /// Length of line `line`, its terminator excluded.
    pub fn get_line_len(&self, line: usize) -> (n: usize)
        requires
            (line as nat) < line_count(self.text()),
        ensures
            n == line_len(self.text(), line as nat),
    {
        proof {
            lemma_line_shape(self.text(), line as nat);
        }
        let lc = rope_len_lines(&self.rope);
        let start = rope_line_to_char(&self.rope, line);
        let next = rope_line_to_char(&self.rope, line + 1);
        let mut len = next - start;
        if len > 0 {
            let c = rope_char_at(&self.rope, start + len - 1);
            if c == '\n' {
                len = len - 1;
            }
        }
        len
    }

    /// The position a screen cell resolves to, clamped into the buffer: the
    /// single normalization every pointer placement funnels through.
    fn resolve_screen(&self, x: u16, y: u16) -> (p: (usize, usize))
        ensures
            (p.0 as nat, p.1 as nat) == clamp_pos(self.text(), screen_line(y), screen_col(x)),
            (p.0 as nat) < line_count(self.text()),
            (p.1 as nat) <= line_len(self.text(), p.0 as nat),
    {
        proof {
            lemma_line_count_pos(self.text());
        }
        let row: usize = if y >= 1 {
            (y - 1) as usize
        } else {
            0
        };
        let col: usize = if x >= 1 {
            (x - 1) as usize
        } else {
            0
        };
        let lc = rope_len_lines(&self.rope);
        let l: usize = if row < lc {
            row
        } else {
            lc - 1
        };
        let ll = self.get_line_len(l);
        let c: usize = if col <= ll {
            col
        } else {
            ll
        };
        (l, c)
    }

    pub fn move_left(&mut self)
        requires
            old(self).wf(),
        ensures
            final(self).wf(),
            move_left_rel(*old(self), *final(self)),
    {
        let (line, col) = self.cursor;
        if col > 0 {
            self.cursor = (line, col - 1);
        } else if line > 0 {
            let prev_len = self.get_line_len(line - 1);
            self.cursor = (line - 1, prev_len);
        }
    }

    pub fn move_right(&mut self)
        requires
            old(self).wf(),
        ensures
            final(self).wf(),
            move_right_rel(*old(self), *final(self)),
    {
        let (line, col) = self.cursor;
        let lc = rope_len_lines(&self.rope);
        let ll = self.get_line_len(line);
        if col < ll {
            self.cursor = (line, col + 1);
        } else if line + 1 < lc {
            self.cursor = (line + 1, 0);
        }
    }

    pub fn move_up(&mut self)
        requires
            old(self).wf(),
        ensures
            final(self).wf(),
            move_up_rel(*old(self), *final(self)),
    {
        let (line, col) = self.cursor;
        if line > 0 {
            let ll = self.get_line_len(line - 1);
            let c = if col < ll {
                col
            } else {
                ll
            };
            self.cursor = (line - 1, c);
        }
    }

    pub fn move_down(&mut self)
        requires
            old(self).wf(),
        ensures
            final(self).wf(),
            move_down_rel(*old(self), *final(self)),
    {
        let (line, col) = self.cursor;
        let lc = rope_len_lines(&self.rope);
        if line + 1 < lc {
            let ll = self.get_line_len(line + 1);
            let c = if col < ll {
                col
            } else {
                ll
            };
            self.cursor = (line + 1, c);
        }
    }

    pub fn move_to_line_start(&mut self)
        requires
            old(self).wf(),
        ensures
            final(self).wf(),
            same_except_cursor(*old(self), *final(self)),
            final(self).cursor.0 == old(self).cursor.0,
            final(self).cursor.1 == 0,
    {
        let (line, _col) = self.cursor;
        self.cursor = (line, 0);
    }

    pub fn move_to_line_end(&mut self)
        requires
            old(self).wf(),
        ensures
            final(self).wf(),
            same_except_cursor(*old(self), *final(self)),
            final(self).cursor.0 == old(self).cursor.0,
            final(self).cursor.1 == line_len(old(self).text(), old(self).cursor.0 as nat),
    {
        let (line, _col) = self.cursor;
        let ll = self.get_line_len(line);
        self.cursor = (line, ll);
    }

    /// Inserts `c` at the cursor and moves the cursor past it; a terminator
    /// splits the line and lands the cursor at the start of the new line.
    pub fn insert_char(&mut self, c: char)
        requires
            old(self).wf(),
            old(self).text().len() < usize::MAX,
        ensures
            final(self).wf(),
            insert_char_rel(*old(self), *final(self), c),
    {
        let (line, col) = self.cursor;
        let start = rope_line_to_char(&self.rope, line);
        proof {
            lemma_line_shape(self.text(), line as nat);
            lemma_line_start_ge(self.text(), line as nat);
            if c == '\n' {
                lemma_insert_newline(self.text(), line as nat, col as nat);
            } else {
                lemma_insert_text(self.text(), line as nat, col as nat, c);
            }
        }
        let pos = start + col;
        rope_insert_char(&mut self.rope, pos, c);
        if c == '\n' {
            self.cursor = (line + 1, 0);
        } else {
            self.cursor = (line, col + 1);
        }
        self.modified = true;
    }

    /// Removes the terminator ending the previous line, merging it with the
    /// cursor's line; the cursor lands where the previous line used to end.
    fn join_lines(&mut self)
        requires
            old(self).wf(),
            old(self).cursor.0 > 0,
        ensures
            final(self).wf(),
            join_rel(*old(self), *final(self)),
    {
        let (line, _col) = self.cursor;
        let start = rope_line_to_char(&self.rope, line);
        let prev_len = self.get_line_len(line - 1);
        proof {
            lemma_line_shape(self.text(), (line - 1) as nat);
            lemma_remove_terminator(self.text(), (line - 1) as nat);
        }
        rope_remove_char(&mut self.rope, start - 1);
        self.cursor = (line - 1, prev_len);
    }

    /// Backspace at the cursor.  At the very start of the buffer this is a
    /// complete no-op: the text, the cursor and the modified flag all keep
    /// their values.
    pub fn delete_char(&mut self)
        requires
            old(self).wf(),
        ensures
            final(self).wf(),
            backspace_rel(*old(self), *final(self)),
    {
        let (line, col) = self.cursor;
        if col > 0 {
            let start = rope_line_to_char(&self.rope, line);
            let n = rope_len_chars(&self.rope);
            proof {
                lemma_line_shape(self.text(), line as nat);
                lemma_remove_in_line(self.text(), line as nat, (col - 1) as nat);
            }
            rope_remove_char(&mut self.rope, start + (col - 1));
            self.cursor = (line, col - 1);
            self.modified = true;
        } else if line > 0 {
            self.join_lines();
            self.modified = true;
        }
    }

    /// Forward delete at the cursor; a no-op at the very end of the buffer.
    pub fn delete_next_char(&mut self)
        requires
            old(self).wf(),
        ensures
            final(self).wf(),
            delete_next_rel(*old(self), *final(self)),
    {
        let (line, col) = self.cursor;
        let start = rope_line_to_char(&self.rope, line);
        proof {
            lemma_line_shape(self.text(), line as nat);
        }
        let n = rope_len_chars(&self.rope);
        let pos = start + col;
        if pos < n {
            proof {
                if (col as nat) < line_len(self.text(), line as nat) {
                    lemma_remove_in_line(self.text(), line as nat, col as nat);
                } else {
                    lemma_remove_terminator(self.text(), line as nat);
                }
            }
            rope_remove_char(&mut self.rope, pos);
            self.modified = true;
        }
    }

    /// The whole buffer as one string, exactly what belongs on disk.
    pub fn to_text(&self) -> (s: String)
        ensures
            s@ == self.text(),
    {
        rope_to_string(&self.rope)
    }

    /// Every logical line, each with its terminator if it has one.
    pub fn get_lines(&self) -> (out: Vec<String>)
        ensures
            out@.len() == line_count(self.text()),
            forall|k: int|
                0 <= k < out@.len() ==> #[trigger] out@[k]@ == line_text(self.text(), k as nat),
    {
        let lc = rope_len_lines(&self.rope);
        let mut out: Vec<String> = Vec::new();
        let mut i: usize = 0;
        while i < lc
            invariant
                lc == line_count(self.text()),
                i <= lc,
                out@.len() == i as nat,
                forall|k: int|
                    0 <= k < i ==> #[trigger] out@[k]@ == line_text(self.text(), k as nat),
            decreases lc - i,
        {
            proof {
                lemma_line_shape(self.text(), i as nat);
            }
            let a = rope_line_to_char(&self.rope, i);
            let b = rope_line_to_char(&self.rope, i + 1);
            let s = rope_slice_to_string(&self.rope, a, b);
            out.push(s);
            i = i + 1;
        }
        out
    }

    /// Total number of characters the buffer holds.
    pub fn len_chars(&self) -> (n: usize)
        ensures
            n == self.text().len(),
    {
        rope_len_chars(&self.rope)
    }

    /// Whether the buffer holds no characters at all.
    pub fn is_empty(&self) -> (b: bool)
        ensures
            b <==> self.text().len() == 0,
    {
        rope_len_chars(&self.rope) == 0
    }

    /// The buffer was just written out in full: unsaved edits no longer
    /// exist.  Nothing else changes; a failed write simply never calls this.
    pub fn mark_saved(&mut self)
        ensures
            final(self).rope == old(self).rope,
            final(self).cursor == old(self).cursor,
            !final(self).modified,
            same_blocks(*old(self), *final(self)),
    {
        self.modified = false;
    }

    /// Reconciles the buffer with the text read back from the file after a
    /// change was noticed on disk (`None`: the file could not be read).
    /// Unsaved edits are never overwritten; a genuinely different text
    /// replaces the buffer wholesale and resets the cursor to the origin.
    pub fn reload(&mut self, disk: Option<&str>)
        requires
            old(self).wf(),
        ensures
            final(self).wf(),
            final(self).buffer_view() == reload_step(old(self).buffer_view(), disk_view(disk)),
            same_blocks(*old(self), *final(self)),
    {
        if self.modified {
            return ;
        }
        match disk {
            None => {},
            Some(s) => {
                if !rope_eq_str(&self.rope, s) {
                    self.rope = rope_from_str(s);
                    self.cursor = (0, 0);
                    self.modified = false;
                    proof {
                        lemma_line_count_pos(self.text());
                        assert(self.buffer_view() =~= reload_step(
                            old(self).buffer_view(),
                            disk_view(disk),
                        ));
                    }
                }
            },
        }
    }

    /// A pointer press: move the cursor there and drop any active block.
    pub fn mouse_down(&mut self, x: u16, y: u16)
        requires
            old(self).wf(),
        ensures
            final(self).wf(),
            mouse_down_rel(*old(self), *final(self), x, y),
    {
        let p = self.resolve_screen(x, y);
        self.cursor = p;
        self.block = false;
        self.block_start = p;
        self.block_end = p;
    }

    /// A pointer release: the block merely stops being active.
    pub fn mouse_up(&mut self, _x: u16, _y: u16)
        requires
            old(self).wf(),
        ensures
            final(self).wf(),
            !final(self).block,
            final(self).rope == old(self).rope,
            final(self).cursor == old(self).cursor,
            final(self).modified == old(self).modified,
            final(self).block_start == old(self).block_start,
            final(self).block_end == old(self).block_end,
            final(self).tab_size == old(self).tab_size,
            final(self).frame_count == old(self).frame_count,
    {
        self.block = false;
    }

    /// A pointer drag: move the cursor and grow the active block to it.
    pub fn mouse_drag(&mut self, x: u16, y: u16)
        requires
            old(self).wf(),
        ensures
            final(self).wf(),
            mouse_drag_rel(*old(self), *final(self), x, y),
    {
        let p = self.resolve_screen(x, y);
        self.cursor = p;
        self.block = true;
        self.block_end = p;
    }
}


/// A run of `n` spaces.
pub open spec fn spaces(n: nat) -> Seq<char> {
    Seq::new(n, (|k: int| ' '))
}

/// Tab: `tab_size` spaces enter at the cursor, which ends just after them.
pub open spec fn tab_rel(pre: Editor, post: Editor) -> bool {
    let p = line_start(pre.text(), pre.cursor.0 as nat) as int + pre.cursor.1;
    &&& post.text() == pre.text().subrange(0, p) + spaces(pre.tab_size as nat) + pre.text()
        .subrange(p, pre.text().len() as int)
    &&& post.cursor.0 == pre.cursor.0
    &&& post.cursor.1 == pre.cursor.1 + pre.tab_size
    &&& post.modified == (if pre.tab_size == 0 {
        pre.modified
    } else {
        true
    })
    &&& same_blocks(pre, post)
}

/// What a key press does to the whole session, key by key.
pub open spec fn key_step(pre: Editor, post: Editor, key: Key, act: Action) -> bool {
    match key {
        Key::Char(c) => insert_char_rel(pre, post, c) && act == Action::Redraw,
        Key::Enter => insert_char_rel(pre, post, '\n') && act == Action::Redraw,
        Key::Backspace => backspace_rel(pre, post) && act == Action::Redraw,
        Key::Delete => delete_next_rel(pre, post) && act == Action::Redraw,
        Key::Left => move_left_rel(pre, post) && act == Action::Redraw,
        Key::Right => move_right_rel(pre, post) && act == Action::Redraw,
        Key::Up => move_up_rel(pre, post) && act == Action::Redraw,
        Key::Down => move_down_rel(pre, post) && act == Action::Redraw,
        Key::Home => same_except_cursor(pre, post) && post.cursor.0 == pre.cursor.0
            && post.cursor.1 == 0 && act == Action::Redraw,
        Key::End => same_except_cursor(pre, post) && post.cursor.0 == pre.cursor.0
            && post.cursor.1 == line_len(pre.text(), pre.cursor.0 as nat) && act
            == Action::Redraw,
        Key::Tab => tab_rel(pre, post) && act == Action::Redraw,
        Key::Esc => post == pre && act == Action::Quit,
        Key::F(n) => post == pre && act == (if n == 10 {
            Action::Quit
        } else if n == 2 {
            Action::Save
        } else {
            Action::Continue
        }),
        Key::Other => post == pre && act == Action::Continue,
    }
}

impl Editor {
    /// Handles one key press and says what the interactive loop should do
    /// next: quit, save, redraw, or carry on.
    pub fn process_key(&mut self, key: Key) -> (act: Action)
        requires
            old(self).wf(),
            old(self).text().len() + old(self).tab_size < usize::MAX,
        ensures
            final(self).wf(),
            key_step(*old(self), *final(self), key, act),
    {
        match key {
            Key::F(n) => {
                if n == 10 {
                    Action::Quit
                } else if n == 2 {
                    Action::Save
                } else {
                    Action::Continue
                }
            },
            Key::Esc => Action::Quit,
            Key::Char(c) => {
                self.insert_char(c);
                Action::Redraw
            },
            Key::Enter => {
                self.insert_char('\n');
                Action::Redraw
            },
            Key::Backspace => {
                self.delete_char();
                Action::Redraw
            },
            Key::Delete => {
                self.delete_next_char();
                Action::Redraw
            },
            Key::Left => {
                self.move_left();
                Action::Redraw
            },
            Key::Right => {
                self.move_right();
                Action::Redraw
            },
            Key::Up => {
                self.move_up();
                Action::Redraw
            },
            Key::Down => {
                self.move_down();
                Action::Redraw
            },
            Key::Home => {
                self.move_to_line_start();
                Action::Redraw
            },
            Key::End => {
                self.move_to_line_end();
                Action::Redraw
            },
            Key::Tab => {
                self.insert_tab();
                Action::Redraw
            },
            Key::Other => Action::Continue,
        }
    }

    /// Inserts `tab_size` spaces at the cursor, one by one.
    fn insert_tab(&mut self)
        requires
            old(self).wf(),
            old(self).text().len() + old(self).tab_size < usize::MAX,
        ensures
            final(self).wf(),
            tab_rel(*old(self), *final(self)),
    {
        let ghost pre = *self;
        let ghost l = pre.cursor.0 as nat;
        let ghost p = line_start(pre.text(), l) as int + pre.cursor.1;
        let ts = self.tab_size;
        proof {
            lemma_line_shape(pre.text(), l);
            assert(self.text() =~= pre.text().subrange(0, p) + spaces(0) + pre.text().subrange(
                p,
                pre.text().len() as int,
            ));
        }
        let mut i: usize = 0;
        while i < ts
            invariant
                i <= ts,
                ts == pre.tab_size,
                pre.wf(),
                pre.text().len() + pre.tab_size < usize::MAX,
                p == line_start(pre.text(), pre.cursor.0 as nat) as int + pre.cursor.1,
                0 <= p <= pre.text().len(),
                l == pre.cursor.0 as nat,
                self.wf(),
                same_blocks(pre, *self),
                self.cursor.0 == pre.cursor.0,
                self.cursor.1 == pre.cursor.1 + i,
                self.modified == (if i == 0 {
                    pre.modified
                } else {
                    true
                }),
                self.text().len() == pre.text().len() + i,
                line_start(self.text(), l) == line_start(pre.text(), l),
                line_len(self.text(), l) == line_len(pre.text(), l) + i,
                line_count(self.text()) == line_count(pre.text()),
                self.text() == pre.text().subrange(0, p) + spaces(i as nat) + pre.text()
                    .subrange(p, pre.text().len() as int),
            decreases ts - i,
        {
            let ghost before = *self;
            proof {
                lemma_insert_text(before.text(), l, (pre.cursor.1 + i) as nat, ' ');
                assert(before.text() == pre.text().subrange(0, p) + spaces(i as nat) + pre.text()
                    .subrange(p, pre.text().len() as int));
            }
            self.insert_char(' ');
            i = i + 1;
            proof {
                before.text().insert_ensures(p + (i - 1), ' ');
                assert(self.text() =~= pre.text().subrange(0, p) + spaces(i as nat) + pre.text()
                    .subrange(p, pre.text().len() as int)) by {
                    let lhs = self.text();
                    let rhs = pre.text().subrange(0, p) + spaces(i as nat) + pre.text().subrange(
                        p,
                        pre.text().len() as int,
                    );
                    assert(lhs.len() == rhs.len());
                    assert forall|j: int| 0 <= j < lhs.len() implies lhs[j] == rhs[j] by {
                        if j < p + (i - 1) {
                            assert(lhs[j] == before.text()[j]);
                        } else if j == p + (i - 1) {
                            assert(lhs[j] == ' ');
                        } else {
                            assert(lhs[j] == before.text()[j - 1]);
                        }
                    }
                }
            }
        }
    }
}

} // verus!
