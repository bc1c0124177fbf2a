//! Tests of the dual gap buffer: edits, line partitioning and lookups.

use editcore::line_gap_buffer::{Line, LineGapBuffer};

fn chars(s: &str) -> Vec<char> {
    s.chars().collect()
}

fn line_ranges(b: &LineGapBuffer<()>) -> Vec<(usize, usize)> {
    let mut result = Vec::new();
    for i in 0..b.num_lines() {
        let Line { start, end, .. } = b.get_line(i);
        result.push((start, end));
    }
    result
}

#[test]
fn stuff() {
    let mut b = LineGapBuffer::<()>::new();

    b.replace_slice(0, 0, &chars("hello"));
    assert_eq!(b.slice_string(0, b.len()), "hello");
    assert_eq!(line_ranges(&b), [(0, 5)]);

    b.replace_slice(2, 3, &chars("--"));
    assert_eq!(b.slice_string(0, b.len()), "he--lo");
    assert_eq!(line_ranges(&b), [(0, 6)]);

    b.replace_slice(2, 3, &chars("z\n\nz"));
    assert_eq!(b.slice_string(0, b.len()), "hez\n\nz-lo");
    assert_eq!(line_ranges(&b), [(0, 3), (4, 4), (5, 9)]);

    b.replace_slice(0, 4, &chars("q"));
    assert_eq!(b.slice_string(0, b.len()), "q\nz-lo");
    assert_eq!(line_ranges(&b), [(0, 1), (2, 6)]);

    b.replace_slice(0, 6, &chars(""));
    assert_eq!(b.slice_string(0, b.len()), "");
    assert_eq!(line_ranges(&b), [(0, 0)]);
}

#[test]
fn empty_buffer_has_one_empty_line() {
    let b = LineGapBuffer::<()>::new();
    assert_eq!(b.len(), 0);
    assert_eq!(b.num_lines(), 1);
    assert_eq!(line_ranges(&b), [(0, 0)]);
    assert_eq!(b.slice_string(0, 0), "");
}

#[test]
fn replace_all_round_trip() {
    let mut b = LineGapBuffer::<()>::new();
    b.replace_slice(0, 0, &chars("first\nsecond"));
    let len = b.len();
    b.replace_slice(0, len, &chars("one\ntwo\nthree"));
    assert_eq!(b.slice_string(0, b.len()), "one\ntwo\nthree");
    let len = b.len();
    b.replace_slice(0, len, &chars(""));
    assert_eq!(b.slice_string(0, b.len()), "");
}

#[test]
fn find_line_covers_every_position() {
    let mut b = LineGapBuffer::<()>::new();
    b.replace_slice(0, 0, &chars("ab\n\ncde"));
    assert_eq!(line_ranges(&b), [(0, 2), (3, 3), (4, 7)]);
    for p in 0..=b.len() {
        let i = b.find_line(p);
        let line = b.get_line(i);
        assert!(line.start <= p && p <= line.end);
    }
    assert_eq!(b.find_line(0), 0);
    assert_eq!(b.find_line(2), 0);
    assert_eq!(b.find_line(3), 1);
    assert_eq!(b.find_line(4), 2);
    assert_eq!(b.find_line(7), 2);
}

#[test]
fn get_char_reads_through_the_gap() {
    let mut b = LineGapBuffer::<()>::new();
    b.replace_slice(0, 0, &chars("wxyz"));
    // Edit near the front so the gap sits there, then read everywhere.
    b.replace_slice(1, 1, &chars("!"));
    assert_eq!(b.slice_string(0, b.len()), "w!xyz");
    assert_eq!(b.get_char(0), 'w');
    assert_eq!(b.get_char(1), '!');
    assert_eq!(b.get_char(4), 'z');
}

#[test]
fn insertion_and_deletion_update_lines() {
    let mut b = LineGapBuffer::<()>::new();
    b.replace_slice(0, 0, &chars("aa\nbb"));
    assert_eq!(line_ranges(&b), [(0, 2), (3, 5)]);
    // Pure insertion of a newline splits a line.
    b.replace_slice(4, 4, &chars("\n"));
    assert_eq!(b.slice_string(0, b.len()), "aa\nb\nb");
    assert_eq!(line_ranges(&b), [(0, 2), (3, 4), (5, 6)]);
    // Pure deletion of a newline joins two lines.
    b.replace_slice(2, 3, &chars(""));
    assert_eq!(b.slice_string(0, b.len()), "aab\nb");
    assert_eq!(line_ranges(&b), [(0, 3), (4, 5)]);
}

#[test]
fn slice_eq_detects_no_ops() {
    let mut b = LineGapBuffer::<()>::new();
    b.replace_slice(0, 0, &chars("hello"));
    assert!(b.slice_eq(1, 3, &chars("el")));
    assert!(!b.slice_eq(1, 3, &chars("le")));
    assert!(!b.slice_eq(1, 3, &chars("e")));
    assert!(b.slice_eq(2, 2, &chars("")));
}

#[test]
fn layout_slots_survive_unrelated_edits() {
    let mut b = LineGapBuffer::<u32>::new();
    b.replace_slice(0, 0, &chars("aa\nbb\ncc"));
    b.set_line_data(0, Some(7));
    b.set_line_data(2, Some(9));
    assert_eq!(*b.get_line(0).data, Some(7));
    assert_eq!(*b.get_line(1).data, None);
    assert_eq!(*b.get_line(2).data, Some(9));
    // An edit confined to the middle line keeps the other slots and shifts
    // the trailing line.
    b.replace_slice(3, 5, &chars("bbbb"));
    assert_eq!(b.slice_string(0, b.len()), "aa\nbbbb\ncc");
    assert_eq!(*b.get_line(0).data, Some(7));
    assert_eq!(*b.get_line(1).data, None);
    assert_eq!(*b.get_line(2).data, Some(9));
    let last = b.get_line(2);
    assert_eq!((last.start, last.end), (8, 10));
}
