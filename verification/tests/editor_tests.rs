use rsted::editor::Editor;
use rsted::events::{Action, Key};

fn edit(text: &str, line: usize) -> Editor {
    Editor::new(Some(text), line)
}

#[test]
fn new_missing_file_gives_empty_buffer() {
    let e = Editor::new(None, 1);
    assert_eq!(e.to_text(), "");
    assert_eq!(e.line_count(), 1);
    assert_eq!(e.cursor, (0, 0));
    assert!(!e.modified);
    assert!(e.is_empty());
}

#[test]
fn new_starting_line_is_one_based_and_clamped() {
    let e = edit("foo\nbar", 2);
    assert_eq!(e.cursor, (1, 0));
    let e = edit("foo\nbar", 1);
    assert_eq!(e.cursor, (0, 0));
    let e = edit("foo\nbar", 0);
    assert_eq!(e.cursor, (0, 0));
    let e = edit("a\nb", 100);
    assert_eq!(e.cursor, (1, 0));
}

#[test]
fn line_lengths_exclude_the_terminator() {
    let e = edit("ab\ncd", 1);
    assert_eq!(e.line_count(), 2);
    assert_eq!(e.get_line_len(0), 2);
    assert_eq!(e.get_line_len(1), 2);
    let e = edit("a\n", 1);
    assert_eq!(e.line_count(), 2);
    assert_eq!(e.get_line_len(0), 1);
    assert_eq!(e.get_line_len(1), 0);
    let e = edit("", 1);
    assert_eq!(e.line_count(), 1);
    assert_eq!(e.get_line_len(0), 0);
}

#[test]
fn get_lines_keeps_terminators() {
    let e = edit("ab\ncd", 1);
    assert_eq!(e.get_lines(), vec!["ab\n".to_string(), "cd".to_string()]);
    let e = edit("ab\n", 1);
    assert_eq!(e.get_lines(), vec!["ab\n".to_string(), "".to_string()]);
    let e = edit("", 1);
    assert_eq!(e.get_lines(), vec!["".to_string()]);
}

#[test]
fn insert_char_moves_cursor_and_sets_modified() {
    let mut e = edit("ab", 1);
    e.process_key(Key::Char('x'));
    assert_eq!(e.to_text(), "xab");
    assert_eq!(e.cursor, (0, 1));
    assert!(e.modified);
}

#[test]
fn enter_splits_line_and_lands_on_next_line() {
    let mut e = edit("ab", 1);
    e.process_key(Key::Right);
    assert_eq!(e.cursor, (0, 1));
    e.process_key(Key::Enter);
    assert_eq!(e.to_text(), "a\nb");
    assert_eq!(e.cursor, (1, 0));
    assert!(e.modified);
}

#[test]
fn tab_inserts_four_spaces() {
    let mut e = edit("ab", 1);
    e.process_key(Key::Tab);
    assert_eq!(e.to_text(), "    ab");
    assert_eq!(e.cursor, (0, 4));
    assert!(e.modified);
}

#[test]
fn backspace_at_buffer_start_is_a_complete_no_op() {
    let mut e = edit("ab\ncd", 1);
    assert_eq!(e.cursor, (0, 0));
    e.process_key(Key::Backspace);
    assert_eq!(e.to_text(), "ab\ncd");
    assert_eq!(e.cursor, (0, 0));
    assert!(!e.modified);
    // The flag keeps whatever value it already had.
    let mut e = edit("ab", 1);
    e.process_key(Key::Char('x'));
    assert!(e.modified);
    e.process_key(Key::Home);
    e.process_key(Key::Backspace);
    assert!(e.modified);
    assert_eq!(e.to_text(), "xab");
}

#[test]
fn backspace_at_line_start_joins_lines() {
    let mut e = edit("ab\ncd", 2);
    assert_eq!(e.cursor, (1, 0));
    e.process_key(Key::Backspace);
    assert_eq!(e.to_text(), "abcd");
    assert_eq!(e.cursor, (0, 2));
    assert_eq!(e.line_count(), 1);
    assert!(e.modified);
}

#[test]
fn backspace_removes_the_character_before_the_cursor() {
    let mut e = edit("abc", 1);
    e.process_key(Key::End);
    assert_eq!(e.cursor, (0, 3));
    e.process_key(Key::Backspace);
    assert_eq!(e.to_text(), "ab");
    assert_eq!(e.cursor, (0, 2));
}

#[test]
fn delete_removes_the_character_at_the_cursor() {
    let mut e = edit("abc", 1);
    e.process_key(Key::Right);
    e.process_key(Key::Delete);
    assert_eq!(e.to_text(), "ac");
    assert_eq!(e.cursor, (0, 1));
    assert!(e.modified);
}

#[test]
fn delete_at_line_end_joins_lines() {
    let mut e = edit("ab\ncd", 1);
    e.process_key(Key::End);
    assert_eq!(e.cursor, (0, 2));
    e.process_key(Key::Delete);
    assert_eq!(e.to_text(), "abcd");
    assert_eq!(e.cursor, (0, 2));
}

#[test]
fn delete_at_buffer_end_is_a_no_op() {
    let mut e = edit("ab", 1);
    e.process_key(Key::End);
    e.process_key(Key::Delete);
    assert_eq!(e.to_text(), "ab");
    assert!(!e.modified);
}

#[test]
fn left_crosses_a_line_boundary_to_the_previous_line_end() {
    let mut e = edit("foo\nbar", 2);
    e.process_key(Key::Left);
    assert_eq!(e.cursor, (0, 3));
    // At the very start nothing moves.
    let mut e = edit("foo\nbar", 1);
    e.process_key(Key::Left);
    assert_eq!(e.cursor, (0, 0));
}

#[test]
fn right_crosses_a_line_boundary_to_the_next_line_start() {
    let mut e = edit("foo\nbar", 1);
    e.process_key(Key::End);
    assert_eq!(e.cursor, (0, 3));
    e.process_key(Key::Right);
    assert_eq!(e.cursor, (1, 0));
    // At the very end nothing moves.
    let mut e = edit("foo\nbar", 2);
    e.process_key(Key::End);
    e.process_key(Key::Right);
    assert_eq!(e.cursor, (1, 3));
}

#[test]
fn up_and_down_cut_the_column_back_to_the_line_length() {
    let mut e = edit("abcdef\ng\nxy", 1);
    e.process_key(Key::End);
    assert_eq!(e.cursor, (0, 6));
    e.process_key(Key::Down);
    assert_eq!(e.cursor, (1, 1));
    e.process_key(Key::Down);
    // The column is not sticky: it was already cut back to 1.
    assert_eq!(e.cursor, (2, 1));
    e.process_key(Key::Up);
    assert_eq!(e.cursor, (1, 1));
    let mut e = edit("a\nbcd", 2);
    e.process_key(Key::End);
    e.process_key(Key::Up);
    assert_eq!(e.cursor, (0, 1));
}

#[test]
fn home_and_end_move_within_the_line() {
    let mut e = edit("hello", 1);
    e.process_key(Key::End);
    assert_eq!(e.cursor, (0, 5));
    e.process_key(Key::Home);
    assert_eq!(e.cursor, (0, 0));
}

#[test]
fn keys_map_to_actions() {
    let mut e = edit("ab", 1);
    assert!(matches!(e.process_key(Key::F(10)), Action::Quit));
    assert!(matches!(e.process_key(Key::Esc), Action::Quit));
    assert!(matches!(e.process_key(Key::F(2)), Action::Save));
    assert!(matches!(e.process_key(Key::F(5)), Action::Continue));
    assert!(matches!(e.process_key(Key::Other), Action::Continue));
    assert_eq!(e.to_text(), "ab");
    assert!(!e.modified);
    assert!(matches!(e.process_key(Key::Char('z')), Action::Redraw));
}

#[test]
fn saved_buffer_round_trips_through_its_text() {
    let mut e = edit("line one\nline two\n", 1);
    e.process_key(Key::Char('#'));
    let written = e.to_text();
    e.mark_saved();
    assert!(!e.modified);
    let reopened = Editor::new(Some(&written), 1);
    assert_eq!(reopened.to_text(), written);
    assert_eq!(reopened.to_text(), "#line one\nline two\n");
}

#[test]
fn mark_saved_only_clears_the_modified_flag() {
    let mut e = edit("ab", 1);
    e.process_key(Key::Char('x'));
    assert!(e.modified);
    e.mark_saved();
    assert!(!e.modified);
    assert_eq!(e.to_text(), "xab");
    assert_eq!(e.cursor, (0, 1));
}

#[test]
fn reload_replaces_an_unmodified_buffer_and_resets_the_cursor() {
    let mut e = edit("old text", 1);
    e.process_key(Key::Right);
    assert_eq!(e.cursor, (0, 1));
    e.reload(Some("X"));
    assert_eq!(e.to_text(), "X");
    assert_eq!(e.cursor, (0, 0));
    assert!(!e.modified);
}

#[test]
fn reload_never_overwrites_unsaved_edits() {
    let mut e = edit("old text", 1);
    e.process_key(Key::Char('z'));
    let before = e.to_text();
    let cursor = e.cursor;
    e.reload(Some("X"));
    assert_eq!(e.to_text(), before);
    assert_eq!(e.cursor, cursor);
    assert!(e.modified);
}

#[test]
fn reload_with_identical_content_leaves_the_cursor_alone() {
    let mut e = edit("same", 1);
    e.process_key(Key::Right);
    e.process_key(Key::Right);
    e.reload(Some("same"));
    assert_eq!(e.to_text(), "same");
    assert_eq!(e.cursor, (0, 2));
}

#[test]
fn reload_twice_with_the_same_disk_text_changes_nothing_more() {
    let mut e = edit("old", 1);
    e.reload(Some("new\ntext"));
    assert_eq!(e.to_text(), "new\ntext");
    assert_eq!(e.cursor, (0, 0));
    e.process_key(Key::Right);
    assert_eq!(e.cursor, (0, 1));
    e.reload(Some("new\ntext"));
    assert_eq!(e.to_text(), "new\ntext");
    assert_eq!(e.cursor, (0, 1));
}

#[test]
fn reload_with_an_unreadable_file_changes_nothing() {
    let mut e = edit("keep me", 1);
    e.process_key(Key::Right);
    e.reload(None);
    assert_eq!(e.to_text(), "keep me");
    assert_eq!(e.cursor, (0, 1));
    assert!(!e.modified);
}

#[test]
fn end_to_end_open_move_and_keep_content() {
    let mut e = edit("foo\nbar", 2);
    assert_eq!(e.cursor, (1, 0));
    e.process_key(Key::Right);
    e.process_key(Key::Right);
    e.process_key(Key::Right);
    assert_eq!(e.cursor, (1, 3));
    e.process_key(Key::Down);
    assert_eq!(e.cursor, (1, 3));
    assert!(!e.modified);
    let written = e.to_text();
    e.mark_saved();
    assert_eq!(written, "foo\nbar");
}

#[test]
fn mouse_down_places_cursor_and_anchors() {
    let mut e = edit("foo\nbar", 1);
    e.mouse_down(2, 2);
    assert_eq!(e.cursor, (1, 1));
    assert!(!e.block);
    assert_eq!(e.block_start, (1, 1));
    assert_eq!(e.block_end, (1, 1));
    assert!(!e.modified);
}

#[test]
fn mouse_down_clamps_to_the_buffer() {
    let mut e = edit("foo\nbar", 1);
    e.mouse_down(50, 50);
    assert_eq!(e.cursor, (1, 3));
    e.mouse_down(0, 0);
    assert_eq!(e.cursor, (0, 0));
}

#[test]
fn mouse_drag_grows_an_active_block() {
    let mut e = edit("foo\nbar", 1);
    e.mouse_down(2, 1);
    assert_eq!(e.cursor, (0, 1));
    e.mouse_drag(4, 2);
    assert_eq!(e.cursor, (1, 3));
    assert!(e.block);
    assert_eq!(e.block_start, (0, 1));
    assert_eq!(e.block_end, (1, 3));
    e.mouse_up(4, 2);
    assert!(!e.block);
    assert_eq!(e.block_start, (0, 1));
    assert_eq!(e.block_end, (1, 3));
}

#[test]
fn pointer_actions_never_touch_text_or_modified_flag() {
    let mut e = edit("foo\nbar", 1);
    e.process_key(Key::Char('x'));
    assert!(e.modified);
    e.mouse_down(3, 2);
    e.mouse_drag(4, 2);
    e.mouse_up(4, 2);
    assert!(e.modified);
    assert_eq!(e.to_text(), "xfoo\nbar");
}

#[test]
fn columns_count_characters_not_bytes() {
    let mut e = edit("héllo\nwörld", 1);
    assert_eq!(e.line_count(), 2);
    assert_eq!(e.get_line_len(0), 5);
    assert_eq!(e.get_line_len(1), 5);
    assert_eq!(e.len_chars(), 11);
    e.process_key(Key::End);
    assert_eq!(e.cursor, (0, 5));
    e.process_key(Key::Char('ß'));
    assert_eq!(e.to_text(), "hélloß\nwörld");
    assert_eq!(e.cursor, (0, 6));
    e.process_key(Key::Backspace);
    assert_eq!(e.to_text(), "héllo\nwörld");
    assert_eq!(e.cursor, (0, 5));
}

#[test]
fn len_chars_counts_every_character_once() {
    let e = edit("a\nbc", 1);
    assert_eq!(e.len_chars(), 4);
    assert!(!e.is_empty());
}
