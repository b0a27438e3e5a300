//! The editor: a text buffer with its cursors, edit history and project state, where
//! every edit is recorded in the history and marks the document as changed.

use vstd::prelude::*;
use crate::cursor::{Cursor, Movement, Selection, moved_selections, vertical_pos, next_line_start, split_all, sorted_unique_of};
use crate::text::{line_index, line_starts};
use crate::edit::{Range, TextEdit, UndoRedoError, insert_chars, remove_chars, replace_chars, apply_undo, apply_redo, cmd_is, slice_chars, clamped};
use crate::text::min_int;
use crate::history::{EditType, HistoryTimeline};
use crate::project::{ProjectManager, opt_str_view};

verus! {

/// The last record of `t` is an edit of kind `et` over `range` that inserted `ins` and
/// removed `del`.
pub open spec fn last_record_is(t: HistoryTimeline, et: EditType, range: Range, ins: Seq<char>, del: Seq<char>) -> bool {
    &&& t.records().len() > 0
    &&& t.records().last().edit_type == et
    &&& t.records().last().range == range
    &&& t.records().last().inserted_text@ == ins
    &&& t.records().last().deleted_text@ == del
}

/// The range that deleting at `r` removes: the selection itself, or the character at
/// the caret when the selection is empty.
pub open spec fn delete_target(r: Range) -> Range {
    if r.start == r.end && r.start < usize::MAX {
        Range { start: r.start, end: (r.start + 1) as usize }
    } else {
        r
    }
}

/// The text after deleting the ranges of `rs` one after the other.
pub open spec fn delete_all(t: Seq<char>, rs: Seq<Range>) -> Seq<char>
    decreases rs.len(),
{
    if rs.len() == 0 {
        t
    } else {
        let r = rs.last();
        remove_chars(delete_all(t, rs.drop_last()), r.start as int, r.spec_len() as int)
    }
}

/// The text after replacing the ranges of `rs` with `s`, one after the other.
pub open spec fn replace_all(t: Seq<char>, rs: Seq<Range>, s: Seq<char>) -> Seq<char>
    decreases rs.len(),
{
    if rs.len() == 0 {
        t
    } else {
        let r = rs.last();
        replace_chars(replace_all(t, rs.drop_last(), s), r.start as int, r.spec_len() as int, s)
    }
}

/// An editor: the document, its cursors, the history of its edits and its project state.
pub struct Editor {
    pub state: TextEdit,
    pub cursors: Cursor,
    pub timeline: HistoryTimeline,
    pub project: ProjectManager,
}

impl Editor {
    /// The parts are consistent: buffer, cursors and history are well formed and the
    /// history can take snapshots.
    pub open spec fn wf(&self) -> bool {
        &&& self.state.wf()
        &&& self.cursors.wf()
        &&& self.timeline.wf()
        &&& self.timeline.config_ok()
    }

    /// An empty editor with a caret at 0 and an empty history.
    pub fn new() -> (e: Self)
        ensures
            e.wf(),
            e.state@ == Seq::<char>::empty(),
            e.cursors.sels().len() == 1,
            e.cursors.spec_primary().active == 0,
            e.state.undo_cmds().len() == 0,
            e.state.redo_cmds().len() == 0,
            e.timeline.records().len() == 0,
            e.timeline.next_seq() == 1,
            e.project.current_file is None,
            !e.project.is_dirty,
    {
        Editor { state: TextEdit::new(), cursors: Cursor::new(), timeline: HistoryTimeline::new(), project: ProjectManager::new() }
    }

    /// An editor holding `content`, with a caret at 0 and an empty history.
    pub fn with_content(content: &str) -> (e: Self)
        ensures
            e.wf(),
            e.state@ == content@,
            e.cursors.sels().len() == 1,
            e.cursors.spec_primary().active == 0,
            e.state.undo_cmds().len() == 0,
            e.state.redo_cmds().len() == 0,
            e.timeline.records().len() == 0,
            e.timeline.next_seq() == 1,
            e.project.current_file is None,
            !e.project.is_dirty,
    {
        Editor { state: TextEdit::from_str(content), cursors: Cursor::new(), timeline: HistoryTimeline::new(), project: ProjectManager::new() }
    }

    /// Inserts `text` at the primary caret, records the insertion and marks the document
    /// changed; the cursors stay where they are.
    pub fn insert(&mut self, text: &str)
        requires
            old(self).wf(),
            old(self).timeline.next_seq() < u64::MAX,
        ensures
            final(self).wf(),
            final(self).state@ == insert_chars(old(self).state@, old(self).cursors.spec_primary().active as int, text@),
            final(self).cursors == old(self).cursors,
            final(self).timeline.next_seq() == old(self).timeline.next_seq() + 1,
            last_record_is(final(self).timeline, EditType::Insert, Range { start: old(self).cursors.spec_primary().active, end: old(self).cursors.spec_primary().active }, text@, Seq::empty()),
            cmd_is(final(self).state.undo_cmds().last(), ({
                let o = min_int(old(self).cursors.spec_primary().active as int, old(self).state@.len() as int) as usize;
                Range { start: o, end: o }
            }), text@, Seq::empty()),
            final(self).state.redo_cmds().len() == 0,
            final(self).project.is_dirty,
            final(self).project.current_file == old(self).project.current_file,
    {
        let pos = self.cursors.position();
        self.state.insert(pos, text);
        let full = self.state.full_text();
        proof {
            reveal_strlit("");
            assert(""@ =~= Seq::<char>::empty());
        }
        self.timeline.record_edit(EditType::Insert, Range::collapsed(pos), text, "", full.as_str());
        self.project.mark_dirty();
    }

    /// Deletes the text of every selection, or the character at the caret where a
    /// selection is empty, one range after the other from the last start to the first,
    /// recording each deletion, and marks the document changed.
    pub fn delete(&mut self)
        requires
            old(self).wf(),
            old(self).timeline.next_seq() + old(self).cursors.sels().len() <= u64::MAX,
        ensures
            final(self).wf(),
            ({
                let rs = crate::cursor::sorted_by_start_desc(crate::cursor::ranges_of(old(self).cursors.sels())).map_values(|r: Range| delete_target(r));
                &&& final(self).state@ == delete_all(old(self).state@, rs)
                &&& final(self).timeline.next_seq() == old(self).timeline.next_seq() + rs.len()
                &&& last_record_is(final(self).timeline, EditType::Delete, rs.last(), Seq::empty(),
                    slice_chars(delete_all(old(self).state@, rs.drop_last()), rs.last().start as int, rs.last().spec_len() as int))
                &&& clamped(delete_all(old(self).state@, rs.drop_last()), rs.last()).spec_len() > 0 ==> {
                    &&& final(self).state.redo_cmds().len() == 0
                    &&& cmd_is(final(self).state.undo_cmds().last(), clamped(delete_all(old(self).state@, rs.drop_last()), rs.last()), Seq::empty(),
                        slice_chars(delete_all(old(self).state@, rs.drop_last()), rs.last().start as int, rs.last().spec_len() as int))
                }
            }),
            final(self).cursors == old(self).cursors,
            final(self).project.is_dirty,
            final(self).project.current_file == old(self).project.current_file,
    {
        let ranges = self.cursors.edit_ranges();
        let ghost dr = ranges@.map_values(|r: Range| delete_target(r));
        let ghost t0 = self.state@;
        let ghost s0 = self.timeline.next_seq();
        let mut i: usize = 0;
        assert(dr.take(0) =~= Seq::<Range>::empty());
        while i < ranges.len()
            invariant
                self.wf(),
                i <= ranges.len(),
                dr == ranges@.map_values(|r: Range| delete_target(r)),
                ranges@.len() == old(self).cursors.sels().len(),
                s0 == old(self).timeline.next_seq(),
                s0 + ranges@.len() <= u64::MAX,
                self.timeline.next_seq() == s0 + i,
                self.state@ == delete_all(t0, dr.take(i as int)),
                i > 0 ==> last_record_is(self.timeline, EditType::Delete, dr[i - 1], Seq::empty(),
                    slice_chars(delete_all(t0, dr.take(i - 1)), dr[i - 1].start as int, dr[i - 1].spec_len() as int)),
                i > 0 && clamped(delete_all(t0, dr.take(i - 1)), dr[i - 1]).spec_len() > 0 ==> {
                    &&& self.state.redo_cmds().len() == 0
                    &&& cmd_is(self.state.undo_cmds().last(), clamped(delete_all(t0, dr.take(i - 1)), dr[i - 1]), Seq::empty(),
                        slice_chars(delete_all(t0, dr.take(i - 1)), dr[i - 1].start as int, dr[i - 1].spec_len() as int))
                },
                self.cursors == old(self).cursors,
                self.project == old(self).project,
            decreases ranges.len() - i,
        {
            let r0 = ranges[i];
            let r = if r0.start == r0.end && r0.start < usize::MAX { Range::new(r0.start, r0.start + 1) } else { r0 };
            assert(r == dr[i as int]);
            let deleted = self.state.get_text(&r);
            self.state.delete(&r);
            let full = self.state.full_text();
            proof {
                reveal_strlit("");
                assert(""@ =~= Seq::<char>::empty());
                assert(dr.take(i + 1).drop_last() =~= dr.take(i as int));
            }
            self.timeline.record_edit(EditType::Delete, r, "", deleted.as_str(), full.as_str());
            i = i + 1;
        }
        assert(dr.take(i as int) =~= dr);
        assert(dr.take(i - 1) =~= dr.drop_last());
        self.project.mark_dirty();
    }

    /// Replaces the text of every selection with `new_text`, one range after the other
    /// from the last start to the first, recording each replacement, and marks the
    /// document changed.
    pub fn replace(&mut self, new_text: &str)
        requires
            old(self).wf(),
            old(self).timeline.next_seq() + old(self).cursors.sels().len() <= u64::MAX,
        ensures
            final(self).wf(),
            ({
                let rs = crate::cursor::sorted_by_start_desc(crate::cursor::ranges_of(old(self).cursors.sels()));
                &&& final(self).state@ == replace_all(old(self).state@, rs, new_text@)
                &&& final(self).timeline.next_seq() == old(self).timeline.next_seq() + rs.len()
                &&& last_record_is(final(self).timeline, EditType::Replace, rs.last(), new_text@,
                    slice_chars(replace_all(old(self).state@, rs.drop_last(), new_text@), rs.last().start as int, rs.last().spec_len() as int))
                &&& final(self).state.redo_cmds().len() == 0
                &&& cmd_is(final(self).state.undo_cmds().last(), clamped(replace_all(old(self).state@, rs.drop_last(), new_text@), rs.last()), new_text@,
                    slice_chars(replace_all(old(self).state@, rs.drop_last(), new_text@), rs.last().start as int, rs.last().spec_len() as int))
            }),
            final(self).cursors == old(self).cursors,
            final(self).project.is_dirty,
            final(self).project.current_file == old(self).project.current_file,
    {
        let ranges = self.cursors.edit_ranges();
        let ghost t0 = self.state@;
        let ghost s0 = self.timeline.next_seq();
        let mut i: usize = 0;
        assert(ranges@.take(0) =~= Seq::<Range>::empty());
        while i < ranges.len()
            invariant
                self.wf(),
                i <= ranges.len(),
                ranges@.len() == old(self).cursors.sels().len(),
                s0 == old(self).timeline.next_seq(),
                s0 + ranges@.len() <= u64::MAX,
                self.timeline.next_seq() == s0 + i,
                self.state@ == replace_all(t0, ranges@.take(i as int), new_text@),
                i > 0 ==> last_record_is(self.timeline, EditType::Replace, ranges@[i - 1], new_text@,
                    slice_chars(replace_all(t0, ranges@.take(i - 1), new_text@), ranges@[i - 1].start as int, ranges@[i - 1].spec_len() as int)),
                i > 0 ==> self.state.redo_cmds().len() == 0,
                i > 0 ==> cmd_is(self.state.undo_cmds().last(), clamped(replace_all(t0, ranges@.take(i - 1), new_text@), ranges@[i - 1]), new_text@,
                    slice_chars(replace_all(t0, ranges@.take(i - 1), new_text@), ranges@[i - 1].start as int, ranges@[i - 1].spec_len() as int)),
                self.cursors == old(self).cursors,
                self.project == old(self).project,
            decreases ranges.len() - i,
        {
            let r = ranges[i];
            let deleted = self.state.get_text(&r);
            self.state.replace(&r, new_text);
            let full = self.state.full_text();
            proof {
                assert(ranges@.take(i + 1).drop_last() =~= ranges@.take(i as int));
            }
            self.timeline.record_edit(EditType::Replace, r, new_text, deleted.as_str(), full.as_str());
            i = i + 1;
        }
        assert(ranges@.take(i as int) =~= ranges@);
        assert(ranges@.take(i - 1) =~= ranges@.drop_last());
        self.project.mark_dirty();
    }

    /// Undoes the last edit of the buffer and records the undo; fails with
    /// `NothingToUndo`, changing nothing, when there is none.
    pub fn undo(&mut self) -> (r: Result<(), UndoRedoError>)
        requires
            old(self).wf(),
            old(self).timeline.next_seq() < u64::MAX,
        ensures
            final(self).wf(),
            final(self).cursors == old(self).cursors,
            final(self).project == old(self).project,
            old(self).state.undo_cmds().len() == 0 ==> {
                &&& r == Err::<(), UndoRedoError>(UndoRedoError::NothingToUndo)
                &&& final(self).state@ == old(self).state@
                &&& final(self).timeline == old(self).timeline
            },
            old(self).state.undo_cmds().len() > 0 ==> {
                &&& r is Ok
                &&& final(self).state@ == apply_undo(old(self).state@, old(self).state.undo_cmds().last())
                &&& final(self).state.redo_cmds() == old(self).state.redo_cmds().push(old(self).state.undo_cmds().last())
                &&& final(self).timeline.next_seq() == old(self).timeline.next_seq() + 1
                &&& last_record_is(final(self).timeline, EditType::Undo, Range { start: 0, end: 0 }, Seq::empty(), Seq::empty())
            },
    {
        match self.state.undo() {
            Err(e) => Err(e),
            Ok(()) => {
                let full = self.state.full_text();
                proof {
                    reveal_strlit("");
                    assert(""@ =~= Seq::<char>::empty());
                }
                self.timeline.record_edit(EditType::Undo, Range::collapsed(0), "", "", full.as_str());
                Ok(())
            },
        }
    }

    /// Redoes the last undone edit of the buffer and records the redo; fails with
    /// `NothingToRedo`, changing nothing, when there is none.
    pub fn redo(&mut self) -> (r: Result<(), UndoRedoError>)
        requires
            old(self).wf(),
            old(self).timeline.next_seq() < u64::MAX,
        ensures
            final(self).wf(),
            final(self).cursors == old(self).cursors,
            final(self).project == old(self).project,
            old(self).state.redo_cmds().len() == 0 ==> {
                &&& r == Err::<(), UndoRedoError>(UndoRedoError::NothingToRedo)
                &&& final(self).state@ == old(self).state@
                &&& final(self).timeline == old(self).timeline
            },
            old(self).state.redo_cmds().len() > 0 ==> {
                &&& r is Ok
                &&& final(self).state@ == apply_redo(old(self).state@, old(self).state.redo_cmds().last())
                &&& final(self).timeline.next_seq() == old(self).timeline.next_seq() + 1
                &&& last_record_is(final(self).timeline, EditType::Redo, Range { start: 0, end: 0 }, Seq::empty(), Seq::empty())
            },
    {
        match self.state.redo() {
            Err(e) => Err(e),
            Ok(()) => {
                let full = self.state.full_text();
                proof {
                    reveal_strlit("");
                    assert(""@ =~= Seq::<char>::empty());
                }
                self.timeline.record_edit(EditType::Redo, Range::collapsed(0), "", "", full.as_str());
                Ok(())
            },
        }
    }
}

impl Editor {
    /// Moves the primary caret left; with `extend` the selection grows, else it
    /// collapses at the new place.
    pub fn move_left(&mut self, extend: bool)
        requires
            old(self).wf(),
        ensures
            final(self).wf(),
            final(self).cursors.sels() == moved_selections(old(self).cursors.sels(), old(self).cursors.primary_at(), Movement::Left, old(self).state@, extend),
            final(self).cursors.primary_at() == old(self).cursors.primary_at(),
            final(self).state == old(self).state,
            final(self).timeline == old(self).timeline,
            final(self).project == old(self).project,
    {
        self.cursors.move_left(&self.state, extend);
    }

    /// Moves the primary caret right; with `extend` the selection grows, else it
    /// collapses at the new place.
    pub fn move_right(&mut self, extend: bool)
        requires
            old(self).wf(),
        ensures
            final(self).wf(),
            final(self).cursors.sels() == moved_selections(old(self).cursors.sels(), old(self).cursors.primary_at(), Movement::Right, old(self).state@, extend),
            final(self).cursors.primary_at() == old(self).cursors.primary_at(),
            final(self).state == old(self).state,
            final(self).timeline == old(self).timeline,
            final(self).project == old(self).project,
    {
        self.cursors.move_right(&self.state, extend);
    }

    /// Moves the primary caret up; with `extend` the selection grows, else it
    /// collapses at the new place.
    pub fn move_up(&mut self, extend: bool)
        requires
            old(self).wf(),
        ensures
            final(self).wf(),
            final(self).cursors.sels() == moved_selections(old(self).cursors.sels(), old(self).cursors.primary_at(), Movement::Up, old(self).state@, extend),
            final(self).cursors.primary_at() == old(self).cursors.primary_at(),
            final(self).state == old(self).state,
            final(self).timeline == old(self).timeline,
            final(self).project == old(self).project,
    {
        self.cursors.move_up(&self.state, extend);
    }

    /// Moves the primary caret down; with `extend` the selection grows, else it
    /// collapses at the new place.
    pub fn move_down(&mut self, extend: bool)
        requires
            old(self).wf(),
        ensures
            final(self).wf(),
            final(self).cursors.sels() == moved_selections(old(self).cursors.sels(), old(self).cursors.primary_at(), Movement::Down, old(self).state@, extend),
            final(self).cursors.primary_at() == old(self).cursors.primary_at(),
            final(self).state == old(self).state,
            final(self).timeline == old(self).timeline,
            final(self).project == old(self).project,
    {
        self.cursors.move_down(&self.state, extend);
    }

    /// Moves the primary caret one word left; with `extend` the selection grows, else it
    /// collapses at the new place.
    pub fn move_word_left(&mut self, extend: bool)
        requires
            old(self).wf(),
        ensures
            final(self).wf(),
            final(self).cursors.sels() == moved_selections(old(self).cursors.sels(), old(self).cursors.primary_at(), Movement::WordLeft, old(self).state@, extend),
            final(self).cursors.primary_at() == old(self).cursors.primary_at(),
            final(self).state == old(self).state,
            final(self).timeline == old(self).timeline,
            final(self).project == old(self).project,
    {
        self.cursors.move_word_left(&self.state, extend);
    }

    /// Moves the primary caret one word right; with `extend` the selection grows, else it
    /// collapses at the new place.
    pub fn move_word_right(&mut self, extend: bool)
        requires
            old(self).wf(),
        ensures
            final(self).wf(),
            final(self).cursors.sels() == moved_selections(old(self).cursors.sels(), old(self).cursors.primary_at(), Movement::WordRight, old(self).state@, extend),
            final(self).cursors.primary_at() == old(self).cursors.primary_at(),
            final(self).state == old(self).state,
            final(self).timeline == old(self).timeline,
            final(self).project == old(self).project,
    {
        self.cursors.move_word_right(&self.state, extend);
    }

    /// Moves the primary caret to the start of its line; with `extend` the selection grows, else it
    /// collapses at the new place.
    pub fn move_to_line_start(&mut self, extend: bool)
        requires
            old(self).wf(),
        ensures
            final(self).wf(),
            final(self).cursors.sels() == moved_selections(old(self).cursors.sels(), old(self).cursors.primary_at(), Movement::LineStart, old(self).state@, extend),
            final(self).cursors.primary_at() == old(self).cursors.primary_at(),
            final(self).state == old(self).state,
            final(self).timeline == old(self).timeline,
            final(self).project == old(self).project,
    {
        self.cursors.move_to_line_start(&self.state, extend);
    }

    /// Moves the primary caret to the end of its line; with `extend` the selection grows, else it
    /// collapses at the new place.
    pub fn move_to_line_end(&mut self, extend: bool)
        requires
            old(self).wf(),
        ensures
            final(self).wf(),
            final(self).cursors.sels() == moved_selections(old(self).cursors.sels(), old(self).cursors.primary_at(), Movement::LineEnd, old(self).state@, extend),
            final(self).cursors.primary_at() == old(self).cursors.primary_at(),
            final(self).state == old(self).state,
            final(self).timeline == old(self).timeline,
            final(self).project == old(self).project,
    {
        self.cursors.move_to_line_end(&self.state, extend);
    }

    /// Moves the primary caret to the start of the document; with `extend` the selection grows, else it
    /// collapses at the new place.
    pub fn move_to_file_start(&mut self, extend: bool)
        requires
            old(self).wf(),
        ensures
            final(self).wf(),
            final(self).cursors.sels() == moved_selections(old(self).cursors.sels(), old(self).cursors.primary_at(), Movement::FileStart, old(self).state@, extend),
            final(self).cursors.primary_at() == old(self).cursors.primary_at(),
            final(self).state == old(self).state,
            final(self).timeline == old(self).timeline,
            final(self).project == old(self).project,
    {
        self.cursors.move_to_file_start(&self.state, extend);
    }

    /// Moves the primary caret to the end of the document; with `extend` the selection grows, else it
    /// collapses at the new place.
    pub fn move_to_file_end(&mut self, extend: bool)
        requires
            old(self).wf(),
        ensures
            final(self).wf(),
            final(self).cursors.sels() == moved_selections(old(self).cursors.sels(), old(self).cursors.primary_at(), Movement::FileEnd, old(self).state@, extend),
            final(self).cursors.primary_at() == old(self).cursors.primary_at(),
            final(self).state == old(self).state,
            final(self).timeline == old(self).timeline,
            final(self).project == old(self).project,
    {
        self.cursors.move_to_file_end(&self.state, extend);
    }

    /// Selects the whole document.
    pub fn select_all(&mut self)
        requires
            old(self).wf(),
        ensures
            final(self).wf(),
            final(self).cursors.sels() == seq![Selection { anchor: 0, active: old(self).state@.len() as usize, preferred_x: None }],
            final(self).cursors.primary_at() == 0,
            final(self).state == old(self).state,
            final(self).timeline == old(self).timeline,
            final(self).project == old(self).project,
    {
        let n = self.state.len();
        self.cursors.select_all(n);
    }

    /// Selects the line holding the primary caret, up to the start of the next line.
    pub fn select_line(&mut self)
        requires
            old(self).wf(),
        ensures
            final(self).wf(),
            match line_index(old(self).state@, old(self).cursors.spec_primary().active as int) {
                Some(l) => {
                    &&& final(self).cursors.sels() == seq![Selection {
                        anchor: line_starts(old(self).state@)[l] as usize,
                        active: next_line_start(old(self).state@, l) as usize,
                        preferred_x: None,
                    }]
                    &&& final(self).cursors.primary_at() == 0
                },
                None => final(self).cursors.sels() == old(self).cursors.sels() && final(self).cursors.primary_at() == old(self).cursors.primary_at(),
            },
            final(self).state == old(self).state,
            final(self).timeline == old(self).timeline,
            final(self).project == old(self).project,
    {
        self.cursors.select_line(&self.state);
    }

    /// Adds a caret one line above the primary caret, unless that is where it is.
    pub fn add_cursor_above(&mut self)
        requires
            old(self).wf(),
        ensures
            final(self).wf(),
            final(self).cursors.primary_at() == old(self).cursors.primary_at(),
            ({
                let p = old(self).cursors.spec_primary().active;
                let np = vertical_pos(old(self).state@, p as int, false, old(self).cursors.spec_primary().preferred_x) as usize;
                final(self).cursors.sels() == if np != p {
                    old(self).cursors.sels().push(Selection { anchor: np, active: np, preferred_x: None })
                } else {
                    old(self).cursors.sels()
                }
            }),
            final(self).state == old(self).state,
            final(self).timeline == old(self).timeline,
            final(self).project == old(self).project,
    {
        self.cursors.add_cursor_above(&self.state);
    }

    /// Adds a caret one line below the primary caret, unless that is where it is.
    pub fn add_cursor_below(&mut self)
        requires
            old(self).wf(),
        ensures
            final(self).wf(),
            final(self).cursors.primary_at() == old(self).cursors.primary_at(),
            ({
                let p = old(self).cursors.spec_primary().active;
                let np = vertical_pos(old(self).state@, p as int, true, old(self).cursors.spec_primary().preferred_x) as usize;
                final(self).cursors.sels() == if np != p {
                    old(self).cursors.sels().push(Selection { anchor: np, active: np, preferred_x: None })
                } else {
                    old(self).cursors.sels()
                }
            }),
            final(self).state == old(self).state,
            final(self).timeline == old(self).timeline,
            final(self).project == old(self).project,
    {
        self.cursors.add_cursor_below(&self.state);
    }

    /// Splits every selection into one caret per line it covers.
    pub fn split_selection_into_lines(&mut self)
        requires
            old(self).wf(),
        ensures
            final(self).wf(),
            split_all(old(self).state@, old(self).cursors.sels()).len() == 0 ==> final(self).cursors.sels() == old(self).cursors.sels() && final(self).cursors.primary_at() == old(self).cursors.primary_at(),
            split_all(old(self).state@, old(self).cursors.sels()).len() > 0 ==> sorted_unique_of(final(self).cursors.sels(), split_all(old(self).state@, old(self).cursors.sels()), false)
                && final(self).cursors.primary_at() == 0,
            final(self).state == old(self).state,
            final(self).timeline == old(self).timeline,
            final(self).project == old(self).project,
    {
        self.cursors.split_selection_into_lines(&self.state);
    }

    /// The whole document.
    pub fn full_text(&self) -> (s: String)
        ensures
            s@ == self.state@,
    {
        self.state.full_text()
    }

    /// Number of characters of the document.
    pub fn len(&self) -> (n: usize)
        ensures
            n == self.state@.len(),
    {
        self.state.len()
    }

    /// Whether the document is empty.
    pub fn is_empty(&self) -> (b: bool)
        ensures
            b == (self.state@.len() == 0),
    {
        self.len() == 0
    }

    /// Offset of the primary caret.
    pub fn cursor_position(&self) -> (o: usize)
        requires
            self.wf(),
        ensures
            o == self.cursors.spec_primary().active,
    {
        self.cursors.position()
    }

    /// The `file://` URI of the open file, if there is one.
    pub fn document_uri(&self) -> (u: Option<String>)
        ensures
            opt_str_view(u) == match opt_str_view(self.project.current_file) {
                Some(p) => Some("file://"@ + p),
                None => None,
            },
    {
        match &self.project.current_file {
            Some(p) => {
                let mut u = String::new();
                u.append("file://");
                u.append(p.as_str());
                Some(u)
            },
            None => None,
        }
    }
}

impl Default for Editor {
    fn default() -> (e: Self)
        ensures
            e.wf(),
            e.state@ == Seq::<char>::empty(),
            e.cursors.sels().len() == 1,
            e.cursors.spec_primary().active == 0,
            e.timeline.records().len() == 0,
            !e.project.is_dirty,
    {
        Editor::new()
    }
}

} // verus!
