use editor::cursor::{Cursor, Selection};
use editor::edit::{Range, TextEdit};

fn t(s: &str) -> TextEdit {
    TextEdit::from_str(s)
}

#[test]
fn test_caret() {
    let s = Selection::caret(5);
    assert!(s.is_collapsed());
    assert_eq!(s.cursor(), 5);
}

#[test]
fn test_move_lr() {
    let tx = t("hello");
    let mut c = Cursor::at(2);
    c.move_left(&tx, false);
    assert_eq!(c.position(), 1);
    c.move_right(&tx, false);
    assert_eq!(c.position(), 2);
}

#[test]
fn test_move_ud() {
    let tx = t("a\nb\nc");
    let mut c = Cursor::at(2);
    c.move_up(&tx, false);
    assert_eq!(c.position(), 0);
    c.move_down(&tx, false);
    assert_eq!(c.position(), 2);
}

#[test]
fn test_select_all() {
    let tx = t("abc");
    let mut c = Cursor::at(0);
    c.select_all(tx.len());
    assert!(c.has_selection());
}

#[test]
fn test_extend() {
    let tx = t("ab");
    let mut c = Cursor::at(0);
    c.extend_selection_right(&tx);
    assert_eq!(c.primary().range(), Range::new(0, 1));
}

#[test]
fn test_multi_cursor() {
    let tx = t("a\nb\nc");
    let mut c = Cursor::at(0);
    c.add_cursor_below(&tx);
    assert_eq!(c.selections().len(), 2);
}

#[test]
fn test_word_movement() {
    let tx = t("hello world");
    let mut c = Cursor::at(0);
    c.move_word_right(&tx, false);
    assert_eq!(c.position(), 5);
    c.move_word_right(&tx, false);
    assert_eq!(c.position(), 6);
}

#[test]
fn test_set_selections() {
    let mut c = Cursor::new();
    c.set_selections(vec![Range::new(0, 5), Range::new(6, 11)]);
    assert_eq!(c.selections().len(), 2);
    assert_eq!(c.selections()[0].range(), Range::new(0, 5));
    assert_eq!(c.selections()[1].range(), Range::new(6, 11));
    assert_eq!(c.primary().cursor(), 5);
}

#[test]
fn test_select_line() {
    let tx = t("line1\nline2\nline3");
    let mut c = Cursor::at(8);
    c.select_line(&tx);
    assert_eq!(c.selections().len(), 1);
    assert_eq!(c.primary().range(), Range::new(6, 12));
    let tx2 = t("a\nb\nc");
    let mut c2 = Cursor::at(2);
    c2.select_line(&tx2);
    assert_eq!(c2.primary().range(), Range::new(2, 4));
}

#[test]
fn test_split_selection_into_lines() {
    let tx = t("line1\nline2\nline3\nline4");
    let mut c = Cursor::new();
    c.set_selections(vec![Range::new(6, 12)]);
    c.split_selection_into_lines(&tx);
    assert_eq!(c.selections().len(), 2);
    assert_eq!(c.selections()[0].cursor(), 6);
    assert_eq!(c.selections()[1].cursor(), 12);
}

#[test]
fn set_selections_sorts_and_drops_repeated_starts() {
    let mut c = Cursor::new();
    c.set_selections(vec![Range::new(6, 11), Range::new(0, 5), Range::new(6, 8)]);
    assert_eq!(c.selections().len(), 2);
    assert_eq!(c.selections()[0].range(), Range::new(0, 5));
    assert_eq!(c.selections()[1].range(), Range::new(6, 11));
}

#[test]
fn set_selections_with_no_range_keeps_the_cursor() {
    let mut c = Cursor::at(3);
    c.set_selections(vec![]);
    assert_eq!(c.selections().len(), 1);
    assert_eq!(c.position(), 3);
}

#[test]
fn edit_ranges_come_last_start_first() {
    let mut c = Cursor::new();
    c.set_selections(vec![Range::new(0, 2), Range::new(4, 6), Range::new(8, 9)]);
    let r = c.edit_ranges();
    assert_eq!(r, vec![Range::new(8, 9), Range::new(4, 6), Range::new(0, 2)]);
}

#[test]
fn word_left_stops_at_word_start() {
    let tx = t("hello world");
    let mut c = Cursor::at(11);
    c.move_word_left(&tx, false);
    assert_eq!(c.position(), 6);
    c.move_word_left(&tx, false);
    assert_eq!(c.position(), 5);
}

#[test]
fn line_start_and_end_moves() {
    let tx = t("ab\ncde\nf");
    let mut c = Cursor::at(4);
    c.move_to_line_end(&tx, false);
    assert_eq!(c.position(), 6);
    c.move_to_line_start(&tx, false);
    assert_eq!(c.position(), 3);
    c.move_to_file_end(&tx, false);
    assert_eq!(c.position(), 8);
    c.move_to_file_start(&tx, true);
    assert_eq!(c.primary().range(), Range::new(0, 8));
}

#[test]
fn move_left_at_start_stays() {
    let tx = t("ab");
    let mut c = Cursor::at(0);
    c.move_left(&tx, false);
    assert_eq!(c.position(), 0);
}

#[test]
fn move_right_at_end_stays() {
    let tx = t("ab");
    let mut c = Cursor::at(2);
    c.move_right(&tx, false);
    assert_eq!(c.position(), 2);
}

#[test]
fn vertical_move_keeps_column_clamped() {
    let tx = t("abcd\nx\nabcd");
    let mut c = Cursor::at(3);
    c.move_down(&tx, false);
    assert_eq!(c.position(), 6);
    c.move_down(&tx, false);
    assert_eq!(c.position(), 8);
}

#[test]
fn add_cursor_above_on_first_line_adds_nothing() {
    let tx = t("a\nb");
    let mut c = Cursor::at(0);
    c.add_cursor_above(&tx);
    assert_eq!(c.selections().len(), 1);
}

#[test]
fn cursor_from_parts_checks_the_primary_index() {
    let sels = vec![Selection::caret(1), Selection::new(2, 4)];
    let c = Cursor::from_parts(sels.clone(), 1).unwrap();
    assert_eq!(c.primary_index(), 1);
    assert_eq!(c.position(), 4);
    assert!(Cursor::from_parts(sels, 2).is_none());
}

#[test]
fn selection_bounds_are_ordered() {
    let s = Selection::new(7, 3);
    assert_eq!(s.start(), 3);
    assert_eq!(s.end(), 7);
    assert_eq!(s.cursor(), 3);
    assert_eq!(s.range(), Range::new(3, 7));
    assert!(!s.is_collapsed());
}

#[test]
fn cloned_cursor_is_equal() {
    let mut c = Cursor::new();
    c.set_selections(vec![Range::new(1, 2), Range::new(3, 5)]);
    let d = c.clone();
    assert_eq!(d.selections(), c.selections());
    assert_eq!(d.primary_index(), 0);
}

#[test]
fn line_start_from_end_of_text() {
    let tx = TextEdit::from_str("a\nb\nc");
    let mut c = Cursor::at(5);
    c.move_to_line_start(&tx, false);
    assert_eq!(c.position(), 4);
}

#[test]
fn word_left_from_end_of_text() {
    let tx = TextEdit::from_str("a\nhello world");
    let mut c = Cursor::at(13);
    c.move_word_left(&tx, false);
    assert_eq!(c.position(), 8);
}

#[test]
fn move_up_from_end_of_text() {
    let tx = TextEdit::from_str("a\nb\nc");
    let mut c = Cursor::at(5);
    c.move_up(&tx, false);
    assert_eq!(c.position(), 3);
}

#[test]
fn word_right_counts_characters() {
    let tx = TextEdit::from_str("héllo world");
    let mut c = Cursor::at(0);
    c.move_word_right(&tx, false);
    assert_eq!(c.position(), 5);
    c.move_word_right(&tx, false);
    assert_eq!(c.position(), 6);
}

#[test]
fn word_right_stays_within_text() {
    let tx = TextEdit::from_str("ééé x");
    let mut c = Cursor::at(0);
    c.move_word_right(&tx, false);
    assert_eq!(c.position(), 3);
    c.move_word_right(&tx, false);
    assert_eq!(c.position(), 4);
    c.move_word_right(&tx, false);
    assert_eq!(c.position(), 5);
}

#[test]
fn word_left_counts_characters() {
    let tx = TextEdit::from_str("héllo wörld");
    let mut c = Cursor::at(11);
    c.move_word_left(&tx, false);
    assert_eq!(c.position(), 6);
    c.move_word_left(&tx, false);
    assert_eq!(c.position(), 5);
}
