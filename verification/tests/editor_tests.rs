use editor::cursor::Cursor;
use editor::edit::{Range, UndoRedoError};
use editor::editor::Editor;
use editor::history::EditType;

#[test]
fn lib_test_empty() {
    let e = Editor::new();
    assert!(e.is_empty());
}

#[test]
fn test_content() {
    let e = Editor::with_content("hi");
    assert_eq!(e.full_text(), "hi");
}

#[test]
fn lib_test_insert() {
    let mut e = Editor::with_content("hello");
    e.cursors = Cursor::at(5);
    e.insert(" world");
    assert_eq!(e.full_text(), "hello world");
}

#[test]
fn lib_test_undo_redo() {
    let mut e = Editor::with_content("hello");
    e.cursors = Cursor::at(5);
    e.insert(" world");
    assert!(e.undo().is_ok());
    assert_eq!(e.full_text(), "hello");
    assert!(e.redo().is_ok());
    assert_eq!(e.full_text(), "hello world");
}

#[test]
fn lib_test_undo_error() {
    let mut e = Editor::with_content("hello");
    let err = e.undo().unwrap_err();
    assert_eq!(Some(&err), Some(&UndoRedoError::NothingToUndo));
}

#[test]
fn insert_records_and_marks_dirty() {
    let mut e = Editor::with_content("ab");
    e.cursors = Cursor::at(1);
    e.insert("X");
    assert_eq!(e.full_text(), "aXb");
    assert!(e.project.is_dirty);
    assert_eq!(e.timeline.record_count(), 1);
    let recs = e.timeline.all_records();
    assert_eq!(recs[0].edit_type, EditType::Insert);
    assert_eq!(recs[0].range, Range::collapsed(1));
    assert_eq!(recs[0].inserted_text, "X");
    assert_eq!(e.cursor_position(), 1);
}

#[test]
fn delete_removes_every_selection() {
    let mut e = Editor::with_content("hello big world");
    e.cursors.set_selections(vec![Range::new(0, 6), Range::new(6, 10)]);
    e.delete();
    assert_eq!(e.full_text(), "world");
    assert_eq!(e.timeline.record_count(), 2);
    let recs = e.timeline.all_records();
    assert_eq!(recs[0].range, Range::new(6, 10));
    assert_eq!(recs[0].deleted_text, "big ");
    assert_eq!(recs[1].deleted_text, "hello ");
}

#[test]
fn replace_replaces_every_selection() {
    let mut e = Editor::with_content("a-b-c");
    e.cursors.set_selections(vec![Range::new(1, 2), Range::new(3, 4)]);
    e.replace("+");
    assert_eq!(e.full_text(), "a+b+c");
    assert!(e.project.is_dirty);
}

#[test]
fn redo_without_undo_fails() {
    let mut e = Editor::with_content("x");
    assert_eq!(e.redo().unwrap_err(), UndoRedoError::NothingToRedo);
    assert_eq!(e.timeline.record_count(), 0);
}

#[test]
fn undo_is_recorded() {
    let mut e = Editor::with_content("x");
    e.insert("y");
    assert!(e.undo().is_ok());
    assert_eq!(e.full_text(), "x");
    let recs = e.timeline.all_records();
    assert_eq!(recs.len(), 2);
    assert_eq!(recs[1].edit_type, EditType::Undo);
}

#[test]
fn editor_moves_and_selections() {
    let mut e = Editor::with_content("one two\nthree");
    e.move_to_line_end(false);
    assert_eq!(e.cursor_position(), 7);
    e.move_down(false);
    assert_eq!(e.cursor_position(), 12);
    e.move_to_file_start(false);
    e.move_word_right(false);
    assert_eq!(e.cursor_position(), 3);
    e.move_word_left(true);
    assert_eq!(e.cursors.primary().range(), Range::new(0, 3));
    e.select_all();
    assert_eq!(e.cursors.primary().range(), Range::new(0, 13));
    e.move_to_file_end(false);
    assert_eq!(e.cursor_position(), 13);
    e.cursors = Cursor::at(10);
    e.select_line();
    assert_eq!(e.cursors.primary().range(), Range::new(8, 13));
    e.move_left(false);
    e.move_right(false);
    e.move_up(false);
    e.move_to_line_start(false);
    assert_eq!(e.cursor_position(), 0);
}

#[test]
fn editor_cursors_per_line() {
    let mut e = Editor::with_content("a\nb\nc");
    e.add_cursor_below();
    assert_eq!(e.cursors.selections().len(), 2);
    e.add_cursor_above();
    assert_eq!(e.cursors.selections().len(), 2);
    e.cursors.set_selections(vec![Range::new(0, 4)]);
    e.split_selection_into_lines();
    assert_eq!(e.cursors.selections().len(), 3);
    assert_eq!(e.cursors.selections()[2].cursor(), 4);
}

#[test]
fn document_uri_of_open_file() {
    let mut e = Editor::new();
    assert!(e.document_uri().is_none());
    e.project.set_current_file(String::from("/tmp/a.rs"));
    assert_eq!(e.document_uri().unwrap(), "file:///tmp/a.rs");
}

#[test]
fn default_editor_is_empty() {
    let e = Editor::default();
    assert_eq!(e.len(), 0);
}

#[test]
fn delete_with_caret_removes_character_under_it() {
    let mut e = Editor::with_content("hello");
    e.cursors = Cursor::at(2);
    e.delete();
    assert_eq!(e.full_text(), "helo");
    assert!(e.undo().is_ok());
    assert_eq!(e.full_text(), "hello");
}

#[test]
fn delete_with_caret_at_end_changes_nothing() {
    let mut e = Editor::with_content("hello");
    e.cursors = Cursor::at(5);
    e.delete();
    assert_eq!(e.full_text(), "hello");
}

#[test]
fn undo_on_fresh_editor_fails() {
    let mut e = Editor::with_content("hello");
    assert_eq!(e.undo(), Err(UndoRedoError::NothingToUndo));
    assert_eq!(e.full_text(), "hello");
    assert_eq!(e.timeline.record_count(), 0);
}
