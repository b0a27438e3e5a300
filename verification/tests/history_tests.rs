use editor::edit::{Range, TextEdit};
use editor::history::{EditType, HistoryTimeline, Timestamp, Version};

#[test]
fn test_version() {
    let v = Version::new(1);
    assert_eq!(v.sequence, 1);
}

#[test]
fn history_test_new() {
    assert_eq!(HistoryTimeline::new().record_count(), 0);
}

#[test]
fn test_record() {
    let mut tl = HistoryTimeline::new();
    tl.record_edit(EditType::Insert, Range::collapsed(0), "hello", "", "hello");
    assert_eq!(tl.record_count(), 1);
}

#[test]
fn test_goto_sequence() {
    let mut tl = HistoryTimeline::new();
    let mut t = TextEdit::from_str("");
    tl.take_snapshot("");
    tl.record_edit(EditType::Insert, Range::collapsed(0), "hello", "", "hello");
    tl.record_edit(
        EditType::Insert,
        Range::collapsed(5),
        " world",
        "",
        "hello world",
    );
    tl.take_snapshot("hello world");
    assert!(tl.goto_sequence(1, &mut t).unwrap());
    assert_eq!(t.full_text(), "hello");
    assert_eq!(tl.get_current_version().sequence, 1);
    assert_eq!(tl.next_sequence(), 2);
}

#[test]
fn version_id_starts_with_sequence() {
    let v = Version::new(7);
    assert!(v.id.starts_with("v7-"));
}

#[test]
fn record_ids_and_versions_follow_each_other() {
    let mut tl = HistoryTimeline::new();
    tl.record_edit(EditType::Insert, Range::collapsed(0), "a", "", "a");
    tl.record_edit(EditType::Delete, Range::new(0, 1), "", "a", "");
    let all = tl.all_records();
    assert_eq!(all.len(), 2);
    assert!(all[0].id.starts_with("rec-"));
    assert_eq!(all[0].version_after.sequence, 1);
    assert_eq!(all[1].version_before.sequence, 1);
    assert_eq!(all[1].version_after.sequence, 2);
    assert_eq!(all[1].edit_type, EditType::Delete);
    assert_eq!(all[1].deleted_text, "a");
    assert_eq!(tl.get_current_version().sequence, 2);
}

#[test]
fn recent_records_newest_first() {
    let mut tl = HistoryTimeline::new();
    tl.record_edit(EditType::Insert, Range::collapsed(0), "a", "", "a");
    tl.record_edit(EditType::Insert, Range::collapsed(1), "b", "", "ab");
    tl.record_edit(EditType::Insert, Range::collapsed(2), "c", "", "abc");
    let r = tl.recent_records(2);
    assert_eq!(r.len(), 2);
    assert_eq!(r[0].inserted_text, "c");
    assert_eq!(r[1].inserted_text, "b");
    assert_eq!(tl.recent_records(10).len(), 3);
}

#[test]
fn full_timeline_drops_oldest_record() {
    let mut tl = HistoryTimeline::with_config(2, 100);
    tl.record_edit(EditType::Insert, Range::collapsed(0), "a", "", "a");
    tl.record_edit(EditType::Insert, Range::collapsed(1), "b", "", "ab");
    tl.record_edit(EditType::Insert, Range::collapsed(2), "c", "", "abc");
    let all = tl.all_records();
    assert_eq!(all.len(), 2);
    assert_eq!(all[0].inserted_text, "b");
    assert_eq!(all[1].inserted_text, "c");
}

#[test]
fn clear_starts_again() {
    let mut tl = HistoryTimeline::new();
    tl.record_edit(EditType::Insert, Range::collapsed(0), "a", "", "a");
    tl.clear();
    assert_eq!(tl.record_count(), 0);
    assert_eq!(tl.get_current_version().sequence, 0);
    assert_eq!(tl.next_sequence(), 1);
}

#[test]
fn goto_version_of_unknown_id_is_false() {
    let mut tl = HistoryTimeline::new();
    let mut t = TextEdit::from_str("x");
    tl.record_edit(EditType::Insert, Range::collapsed(0), "x", "", "x");
    assert_eq!(tl.goto_version("no-such-version", &mut t).unwrap(), false);
    assert_eq!(t.full_text(), "x");
}

#[test]
fn goto_version_replays_up_to_that_version() {
    let mut tl = HistoryTimeline::new();
    let mut t = TextEdit::from_str("");
    tl.record_edit(EditType::Insert, Range::collapsed(0), "ab", "", "ab");
    tl.record_edit(EditType::Replace, Range::new(0, 1), "X", "a", "Xb");
    tl.record_edit(EditType::Delete, Range::new(1, 2), "", "b", "X");
    let id = tl.all_records()[1].version_after.id.clone();
    assert!(tl.goto_version(&id, &mut t).unwrap());
    assert_eq!(t.full_text(), "Xb");
    assert_eq!(tl.get_current_version().sequence, 2);
}

#[test]
fn goto_snapshot_sequence_gives_snapshot_text() {
    let mut tl = HistoryTimeline::new();
    let mut t = TextEdit::from_str("junk");
    tl.record_edit(EditType::Insert, Range::collapsed(0), "hi", "", "hi");
    tl.take_snapshot("hi");
    tl.record_edit(EditType::Insert, Range::collapsed(2), "!", "", "hi!");
    assert!(tl.goto_sequence(1, &mut t).unwrap());
    assert_eq!(t.full_text(), "hi");
}

#[test]
fn goto_time_in_the_future_replays_everything() {
    let mut tl = HistoryTimeline::new();
    let mut t = TextEdit::from_str("");
    tl.record_edit(EditType::Insert, Range::collapsed(0), "ab", "", "ab");
    tl.record_edit(EditType::Insert, Range::collapsed(2), "c", "", "abc");
    let later = Timestamp { secs: i64::MAX, nanos: 0 };
    assert!(tl.goto_time(later, &mut t).unwrap());
    assert_eq!(t.full_text(), "abc");
}

#[test]
fn snapshot_is_found_and_decompressed() {
    let mut tl = HistoryTimeline::new();
    tl.take_snapshot("héllo wörld");
    let later = Timestamp { secs: i64::MAX, nanos: 0 };
    let (v, text) = tl.get_snapshot_at(later).unwrap();
    assert_eq!(v.sequence, 0);
    assert_eq!(text, "héllo wörld");
    let earlier = Timestamp { secs: 0, nanos: 0 };
    assert!(tl.get_snapshot_at(earlier).is_none());
}

#[test]
fn snapshots_are_taken_every_interval() {
    let mut tl = HistoryTimeline::with_config(100, 2);
    tl.record_edit(EditType::Insert, Range::collapsed(0), "a", "", "a");
    tl.record_edit(EditType::Insert, Range::collapsed(1), "b", "", "ab");
    let later = Timestamp { secs: i64::MAX, nanos: 0 };
    let (v, text) = tl.get_snapshot_at(later).unwrap();
    assert_eq!(v.sequence, 2);
    assert_eq!(text, "ab");
}

#[test]
fn edit_type_names() {
    assert_eq!(EditType::Insert.name(), "insert");
    assert_eq!(EditType::Delete.name(), "delete");
    assert_eq!(EditType::Replace.name(), "replace");
    assert_eq!(EditType::Undo.name(), "undo");
    assert_eq!(EditType::Redo.name(), "redo");
}

#[test]
fn history_between_two_times() {
    let mut tl = HistoryTimeline::new();
    tl.record_edit(EditType::Insert, Range::collapsed(0), "a", "", "a");
    let all = Timestamp { secs: i64::MIN, nanos: 0 };
    let later = Timestamp { secs: i64::MAX, nanos: 0 };
    assert_eq!(tl.get_history(all, later).len(), 1);
    assert_eq!(tl.get_history(later, later).len(), 0);
}

#[test]
fn cloned_timeline_keeps_records() {
    let mut tl = HistoryTimeline::new();
    tl.record_edit(EditType::Insert, Range::collapsed(0), "a", "", "a");
    let c = tl.clone();
    assert_eq!(c.record_count(), 1);
    assert_eq!(c.next_sequence(), 2);
    assert_eq!(c.all_records()[0].inserted_text, "a");
}
