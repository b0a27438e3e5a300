use editor::edit::{Range, TextEdit, UndoRedoError};

#[test]
fn edit_test_new() {
    let t = TextEdit::new();
    assert!(t.is_empty());
    assert_eq!(t.line_count(), 1);
}

#[test]
fn edit_test_insert() {
    let mut t = TextEdit::from_str("ab");
    t.insert(1, "X");
    assert_eq!(t.full_text(), "aXb");
}

#[test]
fn edit_test_undo_redo() {
    let mut t = TextEdit::from_str("hi");
    t.insert(2, "!");
    assert!(t.undo().is_ok());
    assert_eq!(t.full_text(), "hi");
    assert!(t.redo().is_ok());
    assert_eq!(t.full_text(), "hi!");
}

#[test]
fn edit_test_undo_error() {
    let mut t = TextEdit::from_str("hi");
    let err = t.undo().unwrap_err();
    assert_eq!(err, UndoRedoError::NothingToUndo);
}

#[test]
fn test_redo_error() {
    let mut t = TextEdit::from_str("hi");
    let err = t.redo().unwrap_err();
    assert_eq!(err, UndoRedoError::NothingToRedo);
}

#[test]
fn test_lines() {
    let t = TextEdit::from_str("a\nb\nc");
    assert_eq!(t.line_count(), 3);
}

#[test]
fn test_line_to_char() {
    let t = TextEdit::from_str("a\nb\nc");
    assert_eq!(t.line_to_char(0), Some(0));
    assert_eq!(t.line_to_char(1), Some(2));
    assert_eq!(t.line_to_char(2), Some(4));
    assert_eq!(t.line_to_char(3), None);
}

#[test]
fn test_char_to_line() {
    let t = TextEdit::from_str("a\nb\nc");
    assert_eq!(t.char_to_line(0), Some(0));
    assert_eq!(t.char_to_line(1), Some(0));
    assert_eq!(t.char_to_line(2), Some(1));
    assert_eq!(t.char_to_line(3), Some(1));
    assert_eq!(t.char_to_line(4), Some(2));
    assert_eq!(t.char_to_line(5), None);
    assert_eq!(t.char_to_line(10), None);
}

#[test]
fn edit_test_empty() {
    let t = TextEdit::from_str("");
    assert_eq!(t.line_count(), 1);
    assert_eq!(t.line_to_char(0), Some(0));
    assert_eq!(t.line_to_char(1), None);
    assert_eq!(t.char_to_line(0), Some(0));
    assert_eq!(t.char_to_line(1), None);
}

#[test]
fn test_replace() {
    let mut t = TextEdit::from_str("hello world");
    t.replace(&Range::new(6, 11), "Rust");
    assert_eq!(t.full_text(), "hello Rust");
}

#[test]
fn test_get_text() {
    let t = TextEdit::from_str("abcde");
    assert_eq!(t.get_text(&Range::new(1, 4)), "bcd");
}

#[test]
fn test_char_at() {
    let t = TextEdit::from_str("abc");
    assert_eq!(t.char_at(1), Some('b'));
    assert_eq!(t.char_at(3), None);
}

#[test]
fn test_delete_range() {
    let mut t = TextEdit::from_str("hello world");
    t.delete_range(5, 6);
    assert_eq!(t.full_text(), "hello");
}

#[test]
fn test_replace_undo() {
    let mut t = TextEdit::from_str("foo");
    t.replace(&Range::new(0, 3), "bar");
    assert!(t.undo().is_ok());
    assert_eq!(t.full_text(), "foo");
}

#[test]
fn insert_past_the_end_appends() {
    let mut t = TextEdit::from_str("ab");
    t.insert(10, "c");
    assert_eq!(t.full_text(), "abc");
}

#[test]
fn delete_then_undo_then_redo() {
    let mut t = TextEdit::from_str("hello world");
    t.delete(&Range::new(0, 6));
    assert_eq!(t.full_text(), "world");
    assert!(t.undo().is_ok());
    assert_eq!(t.full_text(), "hello world");
    assert!(t.redo().is_ok());
    assert_eq!(t.full_text(), "world");
}

#[test]
fn empty_delete_records_nothing() {
    let mut t = TextEdit::from_str("abc");
    t.delete_range(3, 5);
    assert_eq!(t.full_text(), "abc");
    assert!(!t.can_undo());
}

#[test]
fn a_new_edit_clears_redo() {
    let mut t = TextEdit::from_str("x");
    t.insert(1, "y");
    assert!(t.undo().is_ok());
    assert!(t.can_redo());
    t.insert(0, "z");
    assert!(!t.can_redo());
    assert_eq!(t.full_text(), "zx");
}

#[test]
fn line_cache_follows_edits() {
    let mut t = TextEdit::from_str("a\nb");
    t.insert(3, "\nc");
    assert_eq!(t.line_count(), 3);
    assert_eq!(t.line_to_char(2), Some(4));
    t.delete_range(1, 2);
    assert_eq!(t.full_text(), "a\nc");
    assert_eq!(t.line_count(), 2);
}

#[test]
fn range_helpers() {
    let r = Range::new(2, 5);
    assert_eq!(r.len(), 3);
    assert!(!r.is_collapsed());
    assert!(r.contains(2));
    assert!(!r.contains(5));
    assert!(Range::collapsed(4).is_collapsed());
}

#[test]
fn undo_redo_error_messages() {
    assert_eq!(UndoRedoError::NothingToUndo.message(), "Nothing to undo");
    assert_eq!(UndoRedoError::NothingToRedo.message(), "Nothing to redo");
}

#[test]
fn clone_keeps_text() {
    let mut t = TextEdit::from_str("abc");
    t.insert(0, "x");
    let c = t.clone();
    assert_eq!(c.full_text(), "xabc");
}

#[test]
fn second_redo_after_replace_restores_text() {
    let mut t = TextEdit::from_str("ab");
    t.replace(&Range::new(0, 1), "xyz");
    assert!(t.undo().is_ok());
    assert!(t.redo().is_ok());
    assert_eq!(t.full_text(), "xyzb");
    assert!(t.undo().is_ok());
    assert_eq!(t.full_text(), "ab");
    assert!(t.redo().is_ok());
    assert_eq!(t.full_text(), "xyzb");
}

#[test]
fn undo_of_non_ascii_insert_restores_text() {
    let mut t = TextEdit::from_str("ab");
    t.insert(1, "é");
    assert_eq!(t.full_text(), "aéb");
    assert!(t.undo().is_ok());
    assert_eq!(t.full_text(), "ab");
    assert!(t.can_redo());
    assert!(t.redo().is_ok());
    assert_eq!(t.full_text(), "aéb");
}

#[test]
fn undo_of_non_ascii_replace_restores_text() {
    let mut t = TextEdit::from_str("héllo");
    t.replace(&Range::new(1, 2), "ëë");
    assert_eq!(t.full_text(), "hëëllo");
    assert!(t.undo().is_ok());
    assert_eq!(t.full_text(), "héllo");
}

#[test]
fn reversed_range_has_no_length() {
    let r = Range { start: 5, end: 2 };
    assert_eq!(r.len(), 0);
    assert!(!r.contains(3));
}

#[test]
fn undo_stack_keeps_the_newest_thousand() {
    let mut u = editor::edit::UndoStack::new();
    for k in 0..1005usize {
        u.push(Range::collapsed(k), &k.to_string(), "");
    }
    for k in (5..1005usize).rev() {
        let c = u.pop_undo().expect("a command");
        assert_eq!(c.inserted, k.to_string());
        assert_eq!(c.range, Range::collapsed(k));
    }
    assert!(u.pop_undo().is_none());
}
