//! Tests of the editing engine: cursor, selection, editing, undo/redo and
//! the modified flag.

use editcore::view_state::ViewState;

fn engine() -> ViewState<()> {
    ViewState::new()
}

fn line_ranges(v: &ViewState<()>) -> Vec<(usize, usize)> {
    let doc = v.document();
    let mut result = Vec::new();
    for i in 0..doc.num_lines() {
        let line = doc.get_line(i);
        result.push((line.start, line.end));
    }
    result
}

#[test]
fn typing_hello() {
    let mut v = engine();
    v.make_undo_snapshot();
    for c in ['h', 'e', 'l', 'l', 'o'] {
        v.insert_char(c);
    }
    assert_eq!(v.content(), "hello");
    assert_eq!(v.cursor_pos(), 5);
    assert_eq!(line_ranges(&v), [(0, 5)]);
}

#[test]
fn paste_over_selection_reshapes_lines() {
    let mut v = engine();
    v.load("he--lo", false);
    assert_eq!(line_ranges(&v), [(0, 6)]);
    v.make_undo_snapshot();
    // Select the range [2, 3) and replace it with text holding newlines.
    v.click(2);
    v.clear_selection();
    v.click(3);
    assert_eq!(v.get_selection(), "-");
    v.paste("z\n\nz");
    assert_eq!(v.content(), "hez\n\nz-lo");
    assert_eq!(line_ranges(&v), [(0, 3), (4, 4), (5, 9)]);
}

#[test]
fn select_all_and_cut() {
    let mut v = engine();
    v.load("some text\nwith lines", false);
    v.make_undo_snapshot();
    v.select_all();
    assert!(v.has_selection());
    let cut = v.cut_selection();
    assert_eq!(cut, "some text\nwith lines");
    assert_eq!(v.content(), "");
    assert_eq!(v.cursor_pos(), 0);
    assert!(!v.has_selection());
}

#[test]
fn grouped_undo_reverts_three_insertions() {
    let mut v = engine();
    v.load("ab", false);
    v.ctrl_end();
    v.clear_selection();
    v.make_undo_snapshot();
    v.insert_char('x');
    v.insert_char('y');
    v.insert_char('z');
    assert_eq!(v.content(), "abxyz");
    v.undo();
    assert_eq!(v.content(), "ab");
    assert_eq!(v.cursor_pos(), 2);
}

#[test]
fn undo_then_redo_restores_content_and_cursor() {
    let mut v = engine();
    v.load("one two", false);
    v.ctrl_end();
    v.clear_selection();
    v.make_undo_snapshot();
    v.insert_char('!');
    v.make_undo_snapshot();
    v.insert_char('?');
    assert_eq!(v.content(), "one two!?");
    let cursor_before = v.cursor_pos();
    v.undo();
    v.undo();
    assert_eq!(v.content(), "one two");
    assert!(v.can_redo());
    v.redo();
    v.redo();
    assert_eq!(v.content(), "one two!?");
    assert_eq!(v.cursor_pos(), cursor_before);
    assert!(!v.can_redo());
}

#[test]
fn modified_flag_follows_saves_and_undo() {
    let mut v = engine();
    v.load("abc", false);
    assert!(!v.modified());
    v.make_undo_snapshot();
    v.insert_char('d');
    assert!(v.modified());
    // Undo back to the depth at which the document was loaded.
    v.undo();
    assert!(!v.modified());
    // A save at a deeper point works the same way.
    v.make_undo_snapshot();
    v.insert_char('e');
    v.set_unmodified_snapshot();
    assert!(!v.modified());
    v.undo();
    assert!(v.modified());
}

#[test]
fn load_resets_everything() {
    let mut v = engine();
    v.load("first", false);
    v.make_undo_snapshot();
    v.insert_char('!');
    v.load("second\ndocument", false);
    assert_eq!(v.content(), "second\ndocument");
    assert_eq!(v.cursor_pos(), 0);
    assert!(!v.can_undo());
    assert!(!v.can_redo());
    assert!(!v.modified());
    assert_eq!(line_ranges(&v), [(0, 6), (7, 15)]);
    let mut w = engine();
    w.load("x", true);
    assert!(w.modified());
}

#[test]
fn backspace_and_del() {
    let mut v = engine();
    v.load("abcd", false);
    v.make_undo_snapshot();
    v.click(2);
    v.clear_selection();
    v.backspace();
    assert_eq!(v.content(), "acd");
    assert_eq!(v.cursor_pos(), 1);
    v.del();
    assert_eq!(v.content(), "ad");
    assert_eq!(v.cursor_pos(), 1);
    // At the edges both are no-ops.
    v.ctrl_home();
    v.clear_selection();
    v.backspace();
    assert_eq!(v.content(), "ad");
    v.ctrl_end();
    v.clear_selection();
    v.del();
    assert_eq!(v.content(), "ad");
}

#[test]
fn paste_replaces_selection() {
    let mut v = engine();
    v.load("hello world", false);
    v.make_undo_snapshot();
    v.click(0);
    v.clear_selection();
    v.select_word(1);
    assert_eq!(v.get_selection(), "hello");
    v.paste("goodbye");
    assert_eq!(v.content(), "goodbye world");
    assert_eq!(v.cursor_pos(), 7);
}

#[test]
fn word_navigation() {
    let mut v = engine();
    v.load("one two  three", false);
    v.ctrl_end();
    v.clear_selection();
    v.ctrl_left();
    assert_eq!(v.cursor_pos(), 9);
    v.ctrl_left();
    assert_eq!(v.cursor_pos(), 4);
    v.ctrl_left();
    assert_eq!(v.cursor_pos(), 0);
    v.ctrl_left();
    assert_eq!(v.cursor_pos(), 0);
    v.ctrl_right();
    assert_eq!(v.cursor_pos(), 3);
    v.ctrl_right();
    assert_eq!(v.cursor_pos(), 7);
    v.ctrl_right();
    assert_eq!(v.cursor_pos(), 14);
    v.ctrl_right();
    assert_eq!(v.cursor_pos(), 14);
}

#[test]
fn select_word_expands_alphanumerics() {
    let mut v = engine();
    v.load("foo bar99+baz", false);
    v.select_word(5);
    assert_eq!(v.get_selection(), "bar99");
    assert_eq!(v.cursor_pos(), 9);
    // On the space right after "foo" the word to its left is taken.
    v.select_word(3);
    assert_eq!(v.get_selection(), "foo");
    assert_eq!(v.cursor_pos(), 3);
}

#[test]
fn home_and_end_use_subline_boundaries() {
    let mut v = engine();
    v.load("abcdefgh\nij", false);
    // The host's shaper wrapped the first line as "abc|def|gh": sub-line
    // boundaries at offsets 0, 3, 6 and the line length 8.
    let bounds = vec![0, 3, 6, 8];
    v.click(4);
    v.home(&bounds);
    assert_eq!(v.cursor_pos(), 3);
    v.end(&bounds);
    assert_eq!(v.cursor_pos(), 6);
    v.end(&bounds);
    assert_eq!(v.cursor_pos(), 8);
    v.click(1);
    v.home(&bounds);
    assert_eq!(v.cursor_pos(), 0);
}

#[test]
fn arrow_keys_clamp_at_document_edges() {
    let mut v = engine();
    v.load("xy", false);
    v.left();
    assert_eq!(v.cursor_pos(), 0);
    v.right();
    assert_eq!(v.cursor_pos(), 1);
    v.right();
    v.right();
    assert_eq!(v.cursor_pos(), 2);
    v.left();
    assert_eq!(v.cursor_pos(), 1);
}

#[test]
fn snapshot_deduplication_groups_edits() {
    let mut v = engine();
    v.load("a", false);
    v.ctrl_end();
    v.clear_selection();
    v.make_undo_snapshot();
    // A second snapshot with nothing changed in between is not pushed.
    v.make_undo_snapshot();
    v.insert_char('b');
    v.undo();
    assert_eq!(v.content(), "a");
    assert!(!v.can_undo());
}

#[test]
fn change_text_format_clears_layout_slots() {
    let mut v: ViewState<u8> = ViewState::new();
    v.load("aa\nbb", false);
    v.set_line_layout(0, Some(1));
    v.set_line_layout(1, Some(2));
    assert_eq!(*v.document().get_line(0).data, Some(1));
    v.change_text_format();
    assert_eq!(*v.document().get_line(0).data, None);
    assert_eq!(*v.document().get_line(1).data, None);
}

#[test]
fn cut_with_no_selection_is_empty() {
    let mut v = engine();
    v.load("abc", false);
    v.make_undo_snapshot();
    v.click(1);
    v.clear_selection();
    let cut = v.cut_selection();
    assert_eq!(cut, "");
    assert_eq!(v.content(), "abc");
    assert_eq!(v.cursor_pos(), 1);
}

#[test]
fn undo_and_redo_without_history_do_nothing() {
    let mut v = engine();
    v.load("abc", false);
    assert!(!v.can_undo());
    v.undo();
    assert_eq!(v.content(), "abc");
    assert!(!v.can_redo());
    v.redo();
    assert_eq!(v.content(), "abc");
}

#[test]
fn new_edit_after_undo_clears_redo() {
    let mut v = engine();
    v.load("a", false);
    v.ctrl_end();
    v.clear_selection();
    v.make_undo_snapshot();
    v.insert_char('b');
    v.undo();
    assert!(v.can_redo());
    v.make_undo_snapshot();
    v.insert_char('c');
    assert!(!v.can_redo());
    assert_eq!(v.content(), "ac");
}

#[test]
fn home_without_wrap_points_goes_to_line_start() {
    let mut v = engine();
    v.load("short", false);
    // An unwrapped line reports only its two trivial boundaries.
    let bounds = vec![0, 5];
    v.click(4);
    v.home(&bounds);
    assert_eq!(v.cursor_pos(), 0);
    v.end(&bounds);
    assert_eq!(v.cursor_pos(), 5);
}

#[test]
fn saved_mark_survives_later_checkpoints() {
    let mut v = engine();
    v.load("a", false);
    v.ctrl_end();
    v.clear_selection();
    v.make_undo_snapshot();
    v.insert_char('b');
    // Save at depth 1: the mark sits above depth zero.
    v.set_unmodified_snapshot();
    assert!(!v.modified());
    // A later checkpoint keeps the mark: depth 1 is still reachable.
    v.make_undo_snapshot();
    v.insert_char('c');
    assert!(v.modified());
    v.undo();
    assert_eq!(v.content(), "ab");
    assert!(!v.modified());
}
