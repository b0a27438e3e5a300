//! Text editing on a piece table, with an undo/redo stack and a cache of
//! line starts.

use vstd::prelude::*;
use vstd::utf8::encode_utf8;
use std::collections::VecDeque;
use editor_core::PieceTable;
use crate::storage::{piece_table_text, table_new, table_empty, table_char_count, table_get_text, table_get_range, table_insert, table_delete};
use crate::text::{min_int, lemma_newline_count_prefix, newline_count, line_starts, line_of, lemma_line_starts, chars_of, line_start_at, line_index};

verus! {

/// Character range (start inclusive, end exclusive).
#[derive(Debug, Clone, Copy, PartialEq, Eq, Hash, Structural)]
pub struct Range {
    pub start: usize,
    pub end: usize,
}

impl Range {
    /// Creates a range; `start` must not exceed `end`.
    pub fn new(start: usize, end: usize) -> (r: Range)
        requires
            start <= end,
        ensures
            r == (Range { start, end }),
    {
        Range { start, end }
    }

    /// Creates an empty range at `offset`.
    pub fn collapsed(offset: usize) -> (r: Range)
        ensures
            r == (Range { start: offset, end: offset }),
    {
        Range { start: offset, end: offset }
    }

    /// The number of characters covered: `end - start`, or 0 when `end < start`.
    pub open spec fn spec_len(&self) -> usize {
        if self.end >= self.start { (self.end - self.start) as usize } else { 0 }
    }

    /// The number of characters covered: `end - start`, or 0 when `end < start`.
    #[verifier::when_used_as_spec(spec_len)]
    pub fn len(&self) -> (n: usize)
        ensures
            n == self.spec_len(),
    {
        self.end.saturating_sub(self.start)
    }

    /// Whether the range covers no character (`start == end`).
    pub fn is_collapsed(&self) -> (b: bool)
        ensures
            b == (self.start == self.end),
    {
        self.start == self.end
    }

    /// Whether `start <= offset < end`.
    pub fn contains(&self, offset: usize) -> (b: bool)
        ensures
            b == (self.start <= offset && offset < self.end),
    {
        offset >= self.start && offset < self.end
    }
}

/// One undoable edit: the range it covered, the text it inserted and the text
/// it deleted.
#[derive(Debug)]
pub struct StoredCmd {
    pub range: Range,
    pub inserted: String,
    pub deleted: String,
}

impl Clone for StoredCmd {
    fn clone(&self) -> (c: Self)
        ensures
            c.range == self.range,
            c.inserted@ == self.inserted@,
            c.deleted@ == self.deleted@,
    {
        StoredCmd { range: self.range, inserted: self.inserted.clone(), deleted: self.deleted.clone() }
    }
}

/// Whether `c` records `range`, inserted text `ins` and deleted text `del`.
pub open spec fn cmd_is(c: StoredCmd, range: Range, ins: Seq<char>, del: Seq<char>) -> bool {
    &&& c.range == range
    &&& c.inserted@ == ins
    &&& c.deleted@ == del
}

/// The undo stack after pushing `c` onto `undo` when at most `max` commands are kept:
/// the oldest command is dropped first when the stack is full.
pub open spec fn capped_push(undo: Seq<StoredCmd>, max: nat, c: StoredCmd) -> Seq<StoredCmd> {
    if undo.len() >= max && undo.len() > 0 {
        undo.drop_first().push(c)
    } else {
        undo.push(c)
    }
}

/// The undo and redo stacks of a buffer.
#[derive(Debug)]
pub struct UndoStack {
    undo: VecDeque<StoredCmd>,
    redo: VecDeque<StoredCmd>,
    max: usize,
}

/// `b` holds copies of the commands of `a`, in order.
pub open spec fn same_cmds(a: Seq<StoredCmd>, b: Seq<StoredCmd>) -> bool {
    &&& a.len() == b.len()
    &&& forall|i: int| 0 <= i < a.len() ==> cmd_is(#[trigger] b[i], a[i].range, a[i].inserted@, a[i].deleted@)
}

/// Copies of the commands of `q`, in order.
fn copy_cmds(q: &VecDeque<StoredCmd>) -> (r: VecDeque<StoredCmd>)
    ensures
        same_cmds(q@, r@),
{
    let mut r: VecDeque<StoredCmd> = VecDeque::new();
    let mut i: usize = 0;
    while i < q.len()
        invariant
            i <= q.len(),
            r@.len() == i,
            forall|k: int| 0 <= k < i ==> cmd_is(#[trigger] r@[k], q@[k].range, q@[k].inserted@, q@[k].deleted@),
        decreases q.len() - i,
    {
        let c = q[i].clone();
        r.push_back(c);
        i = i + 1;
    }
    r
}

impl Clone for UndoStack {
    /// Copies of both stacks, with the same bound.
    fn clone(&self) -> (s: Self)
        ensures
            same_cmds(self.undo_cmds(), s.undo_cmds()),
            same_cmds(self.redo_cmds(), s.redo_cmds()),
            s.max_len() == self.max_len(),
    {
        UndoStack { undo: copy_cmds(&self.undo), redo: copy_cmds(&self.redo), max: self.max }
    }
}

impl Default for UndoStack {
    /// An empty stack that keeps no bound of its own (`max` is 0).
    fn default() -> (s: Self)
        ensures
            s.undo_cmds().len() == 0,
            s.redo_cmds().len() == 0,
            s.max_len() == 0,
    {
        UndoStack { undo: VecDeque::new(), redo: VecDeque::new(), max: 0 }
    }
}

impl UndoStack {
    /// Commands that can be undone, oldest first.
    pub closed spec fn undo_cmds(&self) -> Seq<StoredCmd> {
        self.undo@
    }

    /// Commands that can be redone, the next one to redo last.
    pub closed spec fn redo_cmds(&self) -> Seq<StoredCmd> {
        self.redo@
    }

    /// How many commands the undo stack keeps.
    pub closed spec fn max_len(&self) -> nat {
        self.max as nat
    }

    /// An empty stack keeping at most 1000 commands.
    pub fn new() -> (s: Self)
        ensures
            s.undo_cmds().len() == 0,
            s.redo_cmds().len() == 0,
            s.max_len() == 1000,
    {
        UndoStack { undo: VecDeque::new(), redo: VecDeque::new(), max: 1000 }
    }

    /// Records a new edit: clears the redo stack and pushes the command, dropping
    /// the oldest command first when the stack is full.
    pub fn push(&mut self, range: Range, inserted: &str, deleted: &str)
        ensures
            final(self).redo_cmds().len() == 0,
            final(self).max_len() == old(self).max_len(),
            final(self).undo_cmds() == capped_push(
                old(self).undo_cmds(),
                old(self).max_len(),
                final(self).undo_cmds().last(),
            ),
            cmd_is(final(self).undo_cmds().last(), range, inserted@, deleted@),
    {
        self.redo.clear();
        if self.undo.len() >= self.max {
            self.undo.pop_front();
        }
        self.undo.push_back(StoredCmd { range, inserted: inserted.to_owned(), deleted: deleted.to_owned() });
    }

    /// Pops the most recent command to undo.
    pub fn pop_undo(&mut self) -> (c: Option<StoredCmd>)
        ensures
            final(self).redo_cmds() == old(self).redo_cmds(),
            final(self).max_len() == old(self).max_len(),
            old(self).undo_cmds().len() == 0 ==> c is None && final(self).undo_cmds() == old(self).undo_cmds(),
            old(self).undo_cmds().len() > 0 ==> c == Some(old(self).undo_cmds().last())
                && final(self).undo_cmds() == old(self).undo_cmds().drop_last(),
    {
        self.undo.pop_back()
    }

    /// Pushes a command onto the redo stack.
    pub fn push_redo(&mut self, c: StoredCmd)
        ensures
            final(self).undo_cmds() == old(self).undo_cmds(),
            final(self).max_len() == old(self).max_len(),
            final(self).redo_cmds() == old(self).redo_cmds().push(c),
    {
        self.redo.push_back(c);
    }

    /// Pops the most recent command to redo.
    pub fn pop_redo(&mut self) -> (c: Option<StoredCmd>)
        ensures
            final(self).undo_cmds() == old(self).undo_cmds(),
            final(self).max_len() == old(self).max_len(),
            old(self).redo_cmds().len() == 0 ==> c is None && final(self).redo_cmds() == old(self).redo_cmds(),
            old(self).redo_cmds().len() > 0 ==> c == Some(old(self).redo_cmds().last())
                && final(self).redo_cmds() == old(self).redo_cmds().drop_last(),
    {
        self.redo.pop_back()
    }

    /// Whether there is a command to undo.
    pub fn can_undo(&self) -> (b: bool)
        ensures
            b == (self.undo_cmds().len() > 0),
    {
        self.undo.len() != 0
    }

    /// Whether there is a command to redo.
    pub fn can_redo(&self) -> (b: bool)
        ensures
            b == (self.redo_cmds().len() > 0),
    {
        self.redo.len() != 0
    }

}

/// Errors of undo and redo.
#[derive(Debug, Clone, PartialEq, Eq, Structural)]
pub enum UndoRedoError {
    /// No operation to undo.
    NothingToUndo,
    /// No operation to redo.
    NothingToRedo,
}

impl UndoRedoError {
    /// The message of the error: `Nothing to undo` or `Nothing to redo`.
    pub fn message(&self) -> (s: String)
        ensures
            s@ == match self {
                UndoRedoError::NothingToUndo => "Nothing to undo"@,
                UndoRedoError::NothingToRedo => "Nothing to redo"@,
            },
    {
        match self {
            UndoRedoError::NothingToUndo => "Nothing to undo".to_owned(),
            UndoRedoError::NothingToRedo => "Nothing to redo".to_owned(),
        }
    }
}


/// Number of UTF-8 bytes that encode `s`.
pub open spec fn byte_len(s: Seq<char>) -> nat {
    encode_utf8(s).len()
}

/// `t` with `s` inserted before character `o`, or at the end when `o` lies past it.
pub open spec fn insert_chars(t: Seq<char>, o: int, s: Seq<char>) -> Seq<char> {
    let p = min_int(o, t.len() as int);
    t.take(p) + s + t.skip(p)
}

/// `t` without the characters from `start` up to `start + len`, both clamped to its length.
pub open spec fn remove_chars(t: Seq<char>, start: int, len: int) -> Seq<char> {
    t.take(min_int(start, t.len() as int)) + t.skip(min_int(start + len, t.len() as int))
}

/// `t` with the characters from `start` up to `start + len` (both clamped to its
/// length) replaced by `s`.
pub open spec fn replace_chars(t: Seq<char>, start: int, len: int, s: Seq<char>) -> Seq<char> {
    let b = min_int(start, t.len() as int);
    let l = min_int(len, t.len() - b);
    t.take(b) + s + t.skip(b + l)
}

/// The characters from `start` up to `start + len` of `t`, both clamped to its length.
pub open spec fn slice_chars(t: Seq<char>, start: int, len: int) -> Seq<char> {
    t.subrange(min_int(start, t.len() as int), min_int(start + len, t.len() as int))
}

/// `r` clamped to the characters of `t`: its start is at most the length, and it covers
/// no character past the end.
pub open spec fn clamped(t: Seq<char>, r: Range) -> Range {
    let s = min_int(r.start as int, t.len() as int);
    let l = min_int(r.spec_len() as int, t.len() - s);
    Range { start: s as usize, end: (s + l) as usize }
}

/// The text after undoing `c` on `t`: the inserted characters are removed and the
/// deleted text is put back.
pub open spec fn apply_undo(t: Seq<char>, c: StoredCmd) -> Seq<char> {
    let s = c.range.start as int;
    if c.inserted@.len() == 0 {
        insert_chars(t, s, c.deleted@)
    } else if c.deleted@.len() == 0 {
        remove_chars(t, s, c.inserted@.len() as int)
    } else {
        insert_chars(remove_chars(t, s, c.inserted@.len() as int), s, c.deleted@)
    }
}

/// The text after redoing `c` on `t`: the range is removed and the inserted text put back.
pub open spec fn apply_redo(t: Seq<char>, c: StoredCmd) -> Seq<char> {
    let s = c.range.start as int;
    if c.deleted@.len() == 0 {
        insert_chars(t, s, c.inserted@)
    } else if c.inserted@.len() == 0 {
        remove_chars(t, s, c.range.spec_len() as int)
    } else {
        insert_chars(remove_chars(t, s, c.range.spec_len() as int), s, c.inserted@)
    }
}

/// Whether the cached line starts `ls` are those of `t`.
pub open spec fn starts_match(ls: Seq<usize>, t: Seq<char>) -> bool {
    &&& ls.len() == line_starts(t).len()
    &&& forall|k: int| 0 <= k < ls.len() ==> ls[k] as int == #[trigger] line_starts(t)[k]
}

/// Number of UTF-8 bytes of a string.
pub fn str_byte_len(s: &str) -> (n: usize)
    ensures
        n == byte_len(s@),
{
    s.as_bytes().len()
}

/// Text buffer on a piece table, with undo/redo and a cache of line starts.
pub struct TextEdit {
    table: PieceTable,
    undo_stack: UndoStack,
    line_starts: Vec<usize>,
}

impl View for TextEdit {
    type V = Seq<char>;

    closed spec fn view(&self) -> Seq<char> {
        piece_table_text(self.table)
    }
}

impl TextEdit {
    /// The buffer's internal consistency: the line-start cache matches the text.
    pub closed spec fn wf(&self) -> bool {
        &&& starts_match(self.line_starts@, self@)
        &&& self@.len() <= usize::MAX
        &&& byte_len(self@) <= usize::MAX
    }

    /// A well-formed buffer's length and byte length fit in `usize`.
    pub proof fn lemma_wf_bounds(&self)
        requires
            self.wf(),
        ensures
            self@.len() <= usize::MAX,
            byte_len(self@) <= usize::MAX,
    {
    }

    /// Commands that can be undone, oldest first.
    pub closed spec fn undo_cmds(&self) -> Seq<StoredCmd> {
        self.undo_stack.undo_cmds()
    }

    /// Commands that can be redone, the next one to redo last.
    pub closed spec fn redo_cmds(&self) -> Seq<StoredCmd> {
        self.undo_stack.redo_cmds()
    }

    /// How many commands the undo stack keeps.
    pub closed spec fn undo_limit(&self) -> nat {
        self.undo_stack.max_len()
    }

    /// Recomputes the line-start cache from the text.
    fn rebuild_line_starts(&mut self)
        ensures
            final(self)@ == old(self)@,
            final(self).undo_stack == old(self).undo_stack,
            final(self).wf(),
    {
        let text = table_get_text(&self.table);
        let n = table_char_count(&self.table);
        let _bytes = str_byte_len(text.as_str());
        let chars = chars_of(text.as_str());
        self.line_starts.clear();
        self.line_starts.push(0);
        let mut i: usize = 0;
        while i < chars.len()
            invariant
                chars@ == self@,
                n == self@.len(),
                self.table == old(self).table,
                self.undo_stack == old(self).undo_stack,
                i <= chars.len(),
                starts_match(self.line_starts@, chars@.take(i as int)),
            decreases chars.len() - i,
        {
            assert(chars@.take(i + 1).drop_last() =~= chars@.take(i as int));
            if chars[i] == '\n' {
                self.line_starts.push(i + 1);
            }
            i = i + 1;
        }
        assert(chars@.take(i as int) =~= chars@);
    }

    /// An empty buffer.
    pub fn new() -> (t: Self)
        ensures
            t.wf(),
            t@ == Seq::<char>::empty(),
            t.undo_cmds().len() == 0,
            t.redo_cmds().len() == 0,
            t.undo_limit() == 1000,
    {
        let mut this = TextEdit { table: table_empty(), undo_stack: UndoStack::new(), line_starts: Vec::new() };
        this.rebuild_line_starts();
        this
    }

    /// A buffer holding `text`.
    pub fn from_str(text: &str) -> (t: Self)
        ensures
            t.wf(),
            t@ == text@,
            t.undo_cmds().len() == 0,
            t.redo_cmds().len() == 0,
            t.undo_limit() == 1000,
    {
        let mut this = TextEdit { table: table_new(text), undo_stack: UndoStack::new(), line_starts: Vec::new() };
        this.rebuild_line_starts();
        this
    }

    /// Number of characters.
    pub fn len(&self) -> (n: usize)
        ensures
            n == self@.len(),
    {
        table_char_count(&self.table)
    }

    /// Whether the buffer holds no character.
    pub fn is_empty(&self) -> (b: bool)
        ensures
            b == (self@.len() == 0),
    {
        self.len() == 0
    }

    /// The whole text.
    pub fn full_text(&self) -> (s: String)
        ensures
            s@ == self@,
    {
        table_get_text(&self.table)
    }

    /// Inserts `text` before character `offset` (clamped to the length) and records it.
    pub fn insert(&mut self, offset: usize, text: &str)
        requires
            old(self).wf(),
        ensures
            final(self).wf(),
            final(self)@ == insert_chars(old(self)@, offset as int, text@),
            final(self).redo_cmds().len() == 0,
            final(self).undo_limit() == old(self).undo_limit(),
            final(self).undo_cmds() == capped_push(old(self).undo_cmds(), old(self).undo_limit(), final(self).undo_cmds().last()),
            cmd_is(final(self).undo_cmds().last(), ({ let o = min_int(offset as int, old(self)@.len() as int) as usize; Range { start: o, end: o } }), text@, Seq::empty()),
            recorded_edit(old(self)@, final(self)@, final(self).undo_cmds().last()),
    {
        let n = self.len();
        let o = if offset < n { offset } else { n };
        table_insert(&mut self.table, o, text);
        proof {
            reveal_strlit("");
            assert(""@ =~= Seq::<char>::empty());
        }
        self.undo_stack.push(Range::collapsed(o), text, "");
        self.rebuild_line_starts();
        proof {
            let ghost t0 = old(self)@;
            assert(t0.subrange(o as int, o as int) =~= Seq::<char>::empty());
            assert(t0.skip(o as int + 0) =~= t0.skip(o as int));
        }
    }

    /// Deletes `length` characters from `start` (both clamped to the text) and records it;
    /// nothing happens when no character is covered.
    pub fn delete_range(&mut self, start: usize, length: usize)
        requires
            old(self).wf(),
        ensures
            final(self).wf(),
            final(self)@ == remove_chars(old(self)@, start as int, length as int),
            ({
                let s = min_int(start as int, old(self)@.len() as int);
                let l = min_int(length as int, old(self)@.len() - s);
                if l == 0 {
                    &&& final(self).undo_cmds() == old(self).undo_cmds()
                    &&& final(self).redo_cmds() == old(self).redo_cmds()
                } else {
                    &&& final(self).redo_cmds().len() == 0
                    &&& final(self).undo_cmds() == capped_push(old(self).undo_cmds(), old(self).undo_limit(), final(self).undo_cmds().last())
                    &&& cmd_is(final(self).undo_cmds().last(), Range { start: s as usize, end: (s + l) as usize }, Seq::empty(), old(self)@.subrange(s, s + l))
                    &&& recorded_edit(old(self)@, final(self)@, final(self).undo_cmds().last())
                }
            }),
            final(self).undo_limit() == old(self).undo_limit(),
    {
        let n = self.len();
        let s = if start < n { start } else { n };
        let l = if length < n - s { length } else { n - s };
        if l == 0 {
            assert(remove_chars(self@, start as int, length as int) =~= self@);
            return;
        }
        let deleted = table_get_range(&self.table, s, l);
        table_delete(&mut self.table, s, l);
        proof {
            reveal_strlit("");
            assert(""@ =~= Seq::<char>::empty());
        }
        self.undo_stack.push(Range::new(s, s + l), "", deleted.as_str());
        self.rebuild_line_starts();
        assert(final(self)@ =~= remove_chars(old(self)@, start as int, length as int));
        assert(final(self)@ =~= old(self)@.take(s as int) + Seq::<char>::empty() + old(self)@.skip(s + l));
    }

    /// Deletes the characters of `range` (clamped to the text) and records it; nothing
    /// is recorded when no character is covered.
    pub fn delete(&mut self, range: &Range)
        requires
            old(self).wf(),
        ensures
            final(self).wf(),
            final(self)@ == remove_chars(old(self)@, range.start as int, range.spec_len() as int),
            ({
                let s = min_int(range.start as int, old(self)@.len() as int);
                let l = min_int(range.spec_len() as int, old(self)@.len() - s);
                if l == 0 {
                    &&& final(self).undo_cmds() == old(self).undo_cmds()
                    &&& final(self).redo_cmds() == old(self).redo_cmds()
                } else {
                    &&& final(self).redo_cmds().len() == 0
                    &&& final(self).undo_cmds() == capped_push(old(self).undo_cmds(), old(self).undo_limit(), final(self).undo_cmds().last())
                    &&& cmd_is(final(self).undo_cmds().last(), Range { start: s as usize, end: (s + l) as usize }, Seq::empty(), old(self)@.subrange(s, s + l))
                    &&& recorded_edit(old(self)@, final(self)@, final(self).undo_cmds().last())
                }
            }),
            final(self).undo_limit() == old(self).undo_limit(),
    {
        self.delete_range(range.start, range.len());
    }

    /// Replaces the characters of `range` (clamped to the text) with `new_text` and records it.
    pub fn replace(&mut self, range: &Range, new_text: &str)
        requires
            old(self).wf(),
        ensures
            final(self).wf(),
            ({
                let s = min_int(range.start as int, old(self)@.len() as int);
                let l = min_int(range.spec_len() as int, old(self)@.len() - s);
                &&& final(self)@ == replace_chars(old(self)@, range.start as int, range.spec_len() as int, new_text@)
                &&& final(self).redo_cmds().len() == 0
                &&& final(self).undo_cmds() == capped_push(old(self).undo_cmds(), old(self).undo_limit(), final(self).undo_cmds().last())
                &&& cmd_is(final(self).undo_cmds().last(), Range { start: s as usize, end: (s + l) as usize }, new_text@, old(self)@.subrange(s, s + l))
                &&& recorded_edit(old(self)@, final(self)@, final(self).undo_cmds().last())
            }),
            final(self).undo_limit() == old(self).undo_limit(),
    {
        let n = self.len();
        let s = if range.start < n { range.start } else { n };
        let rl = range.len();
        let ol = if rl < n - s { rl } else { n - s };
        let deleted = if ol > 0 {
            table_get_range(&self.table, s, ol)
        } else {
            assert(self@.subrange(s as int, s as int) =~= Seq::<char>::empty());
            String::new()
        };
        let ghost before = self@;
        table_delete(&mut self.table, s, ol);
        table_insert(&mut self.table, s, new_text);
        self.undo_stack.push(Range::new(s, s + ol), new_text, deleted.as_str());
        self.rebuild_line_starts();
        assert(self@ =~= before.take(s as int) + new_text@ + before.skip(s + ol));
    }

    /// The characters of `range`, clamped to the text.
    pub fn get_text(&self, range: &Range) -> (s: String)
        ensures
            s@ == slice_chars(self@, range.start as int, range.spec_len() as int),
    {
        let n = self.len();
        let s = if range.start < n { range.start } else { n };
        let rl = range.len();
        let l = if rl < n - s { rl } else { n - s };
        if l == 0 {
            assert(slice_chars(self@, range.start as int, range.spec_len() as int) =~= Seq::<char>::empty());
            String::new()
        } else {
            table_get_range(&self.table, s, l)
        }
    }

    /// The character at `offset`, if there is one.
    pub fn char_at(&self, offset: usize) -> (c: Option<char>)
        ensures
            c == (if offset < self@.len() { Some(self@[offset as int]) } else { None::<char> }),
    {
        if offset >= self.len() {
            None
        } else {
            let s = table_get_range(&self.table, offset, 1);
            let v = chars_of(s.as_str());
            Some(v[0])
        }
    }

    /// Number of lines: one more than the number of newlines.
    pub fn line_count(&self) -> (n: usize)
        requires
            self.wf(),
        ensures
            n == newline_count(self@) + 1,
    {
        proof { lemma_line_starts(self@); }
        self.line_starts.len()
    }

    /// The offset at which line `line` starts, if the line exists.
    pub fn line_to_char(&self, line: usize) -> (o: Option<usize>)
        requires
            self.wf(),
        ensures
            o == (if line < line_starts(self@).len() {
                Some(line_starts(self@)[line as int] as usize)
            } else {
                None::<usize>
            }),
    {
        if line < self.line_starts.len() {
            Some(self.line_starts[line])
        } else {
            None
        }
    }

    /// The line holding offset `offset`: the number of newlines before it. Offsets at or
    /// past the end have no line, except offset 0 of an empty buffer.
    pub fn char_to_line(&self, offset: usize) -> (l: Option<usize>)
        requires
            self.wf(),
        ensures
            l == (if offset < self@.len() || (self@.len() == 0 && offset == 0) {
                Some(line_of(self@, offset as int) as usize)
            } else {
                None::<usize>
            }),
    {
        let len = self.len();
        if len == 0 {
            return if offset == 0 {
                assert(self@.take(0) =~= Seq::<char>::empty());
                Some(0)
            } else {
                None
            };
        }
        if offset > len {
            return None;
        }
        if offset == len {
            return None;
        }
        proof { lemma_line_starts(self@); }
        let ghost ls = line_starts(self@);
        let mut lo: usize = 0;
        let mut hi: usize = self.line_starts.len();
        while lo + 1 < hi
            invariant
                self.wf(),
                ls == line_starts(self@),
                0 <= lo < hi <= ls.len(),
                ls[lo as int] <= offset,
                hi < ls.len() ==> ls[hi as int] > offset,
                offset < self@.len(),
            decreases hi - lo,
        {
            let mid = lo + (hi - lo) / 2;
            if self.line_starts[mid] <= offset {
                lo = mid;
            } else {
                hi = mid;
            }
        }
        proof {
            let k = newline_count(self@.take(offset as int)) as int;
            lemma_newline_count_prefix(self@, offset as int);
            assert(ls[lo as int] <= offset);
            assert(lo <= k);
            if hi < ls.len() {
                assert(ls[hi as int] > offset);
                assert(!(hi <= k));
            }
            assert(lo == k);
        }
        Some(lo)
    }

    /// Undoes the most recent command, moving it to the redo stack.
    pub fn undo(&mut self) -> (r: Result<(), UndoRedoError>)
        requires
            old(self).wf(),
        ensures
            final(self).wf(),
            final(self).undo_limit() == old(self).undo_limit(),
            old(self).undo_cmds().len() == 0 ==> {
                &&& r == Err::<(), UndoRedoError>(UndoRedoError::NothingToUndo)
                &&& final(self)@ == old(self)@
                &&& final(self).undo_cmds() == old(self).undo_cmds()
                &&& final(self).redo_cmds() == old(self).redo_cmds()
            },
            old(self).undo_cmds().len() > 0 ==> {
                &&& r is Ok
                &&& final(self)@ == apply_undo(old(self)@, old(self).undo_cmds().last())
                &&& final(self).undo_cmds() == old(self).undo_cmds().drop_last()
                &&& final(self).redo_cmds() == old(self).redo_cmds().push(old(self).undo_cmds().last())
            },
    {
        let c = match self.undo_stack.pop_undo() {
            Some(c) => c,
            None => { return Err(UndoRedoError::NothingToUndo); }
        };
        let start = c.range.start;
        if c.inserted.as_str().is_empty() {
            table_insert(&mut self.table, start, c.deleted.as_str());
        } else if c.deleted.as_str().is_empty() {
            let n = c.inserted.as_str().unicode_len();
            table_delete(&mut self.table, start, n);
        } else {
            let n = c.inserted.as_str().unicode_len();
            table_delete(&mut self.table, start, n);
            table_insert(&mut self.table, start, c.deleted.as_str());
        }
        self.undo_stack.push_redo(c);
        self.rebuild_line_starts();
        Ok(())
    }

    /// Redoes the most recently undone command and records it again, unchanged, so that
    /// it can be undone and redone once more; recording a command clears the rest of the
    /// redo stack.
    pub fn redo(&mut self) -> (r: Result<(), UndoRedoError>)
        requires
            old(self).wf(),
        ensures
            final(self).wf(),
            final(self).undo_limit() == old(self).undo_limit(),
            old(self).redo_cmds().len() == 0 ==> {
                &&& r == Err::<(), UndoRedoError>(UndoRedoError::NothingToRedo)
                &&& final(self)@ == old(self)@
                &&& final(self).undo_cmds() == old(self).undo_cmds()
                &&& final(self).redo_cmds() == old(self).redo_cmds()
            },
            old(self).redo_cmds().len() > 0 ==> {
                let c = old(self).redo_cmds().last();
                &&& r is Ok
                &&& final(self)@ == apply_redo(old(self)@, c)
                &&& final(self).redo_cmds().len() == 0
                &&& final(self).undo_cmds() == capped_push(old(self).undo_cmds(), old(self).undo_limit(), final(self).undo_cmds().last())
                &&& cmd_is(final(self).undo_cmds().last(), c.range, c.inserted@, c.deleted@)
            },
    {
        let c = match self.undo_stack.pop_redo() {
            Some(c) => c,
            None => { return Err(UndoRedoError::NothingToRedo); }
        };
        let start = c.range.start;
        if c.deleted.as_str().is_empty() {
            table_insert(&mut self.table, start, c.inserted.as_str());
        } else if c.inserted.as_str().is_empty() {
            table_delete(&mut self.table, start, c.range.len());
        } else {
            table_delete(&mut self.table, start, c.range.len());
            table_insert(&mut self.table, start, c.inserted.as_str());
        }
        self.undo_stack.push(c.range, c.inserted.as_str(), c.deleted.as_str());
        self.rebuild_line_starts();
        Ok(())
    }

    /// Whether there is a command to undo.
    pub fn can_undo(&self) -> (b: bool)
        ensures
            b == (self.undo_cmds().len() > 0),
    {
        self.undo_stack.can_undo()
    }

    /// Whether there is a command to redo.
    pub fn can_redo(&self) -> (b: bool)
        ensures
            b == (self.redo_cmds().len() > 0),
    {
        self.undo_stack.can_redo()
    }
}

impl Clone for TextEdit {
    /// A copy built from a fresh piece table over the current text, with the same stacks.
    fn clone(&self) -> (t: Self)
        ensures
            t@ == self@,
            t.wf(),
            same_cmds(self.undo_cmds(), t.undo_cmds()),
            same_cmds(self.redo_cmds(), t.redo_cmds()),
            t.undo_limit() == self.undo_limit(),
    {
        let text = self.full_text();
        let mut t = TextEdit { table: table_new(text.as_str()), undo_stack: self.undo_stack.clone(), line_starts: Vec::new() };
        t.rebuild_line_starts();
        t
    }
}


/// Undo gives back the text before an insertion, and redo after it gives back the text
/// after the insertion.
pub proof fn law_undo_redo_insert(t: Seq<char>, offset: usize, s: Seq<char>, c: StoredCmd)
    requires
        t.len() <= usize::MAX,
        cmd_is(c, ({ let o = min_int(offset as int, t.len() as int) as usize; Range { start: o, end: o } }), s, Seq::empty()),
    ensures
        apply_undo(insert_chars(t, offset as int, s), c) == t,
        apply_redo(apply_undo(insert_chars(t, offset as int, s), c), c) == insert_chars(t, offset as int, s),
{
    let o = min_int(offset as int, t.len() as int);
    let t2 = insert_chars(t, offset as int, s);
    if s.len() == 0 {
        assert(t2 =~= t);
        assert(insert_chars(t2, o, Seq::empty()) =~= t);
    } else {
        assert(remove_chars(t2, o, s.len() as int) =~= t);
    }
}

/// Undo gives back the text before a deletion that removed at least one character,
/// and redo after it gives back the text after the deletion.
pub proof fn law_undo_redo_delete(t: Seq<char>, start: usize, length: usize, c: StoredCmd)
    requires
        t.len() <= usize::MAX,
        ({
            let s = min_int(start as int, t.len() as int);
            let l = min_int(length as int, t.len() - s);
            &&& l > 0
            &&& cmd_is(c, Range { start: s as usize, end: (s + l) as usize }, Seq::empty(), t.subrange(s, s + l))
        }),
    ensures
        apply_undo(remove_chars(t, start as int, length as int), c) == t,
        apply_redo(apply_undo(remove_chars(t, start as int, length as int), c), c) == remove_chars(t, start as int, length as int),
{
    let s = min_int(start as int, t.len() as int);
    let l = min_int(length as int, t.len() - s);
    let t2 = remove_chars(t, start as int, length as int);
    assert(t2 =~= t.take(s) + t.skip(s + l));
    assert(insert_chars(t2, s, t.subrange(s, s + l)) =~= t);
    assert(remove_chars(t, s, l) =~= t2);
}

/// Undo gives back the text before a replacement, and redo after it gives back the text
/// after the replacement.
pub proof fn law_undo_redo_replace(t: Seq<char>, start: usize, rlen: usize, s: Seq<char>, c: StoredCmd)
    requires
        t.len() <= usize::MAX,
        ({
            let b = min_int(start as int, t.len() as int);
            let l = min_int(rlen as int, t.len() - b);
            cmd_is(c, Range { start: b as usize, end: (b + l) as usize }, s, t.subrange(b, b + l))
        }),
    ensures
        ({
            let b = min_int(start as int, t.len() as int);
            let l = min_int(rlen as int, t.len() - b);
            let t2 = t.take(b) + s + t.skip(b + l);
            &&& apply_undo(t2, c) == t
            &&& apply_redo(apply_undo(t2, c), c) == t2
        }),
{
    let b = min_int(start as int, t.len() as int);
    let l = min_int(rlen as int, t.len() - b);
    let t2 = t.take(b) + s + t.skip(b + l);
    let d = t.subrange(b, b + l);
    assert(remove_chars(t2, b, s.len() as int) =~= t.take(b) + t.skip(b + l));
    assert(insert_chars(t.take(b) + t.skip(b + l), b, d) =~= t);
    assert(remove_chars(t, b, l) =~= t.take(b) + t.skip(b + l));
    assert(insert_chars(t.take(b) + t.skip(b + l), b, s) =~= t2);
    if s.len() == 0 {
        assert(t2 =~= t.take(b) + t.skip(b + l));
        if l == 0 {
            assert(insert_chars(t2, b, d) =~= t);
            assert(t =~= t2);
            assert(d =~= Seq::<char>::empty());
            assert(insert_chars(t, b, s) =~= t2);
        }
    } else if l == 0 {
        assert(d =~= Seq::<char>::empty());
        assert(remove_chars(t2, b, s.len() as int) =~= t);
        assert(insert_chars(t, b, s) =~= t2);
    }
}

/// Whether `c` was recorded by an edit that turned `before` into `after`: its range
/// covers the characters it deleted from `before`, and `after` holds the inserted
/// characters in their place.
pub open spec fn recorded_edit(before: Seq<char>, after: Seq<char>, c: StoredCmd) -> bool {
    let s = c.range.start as int;
    &&& s + c.deleted@.len() <= before.len()
    &&& c.range.spec_len() == c.deleted@.len()
    &&& c.range.start <= c.range.end
    &&& before.subrange(s, s + c.deleted@.len()) == c.deleted@
    &&& after == before.take(s) + c.inserted@ + before.skip(s + c.deleted@.len())
}

/// For a command recorded by an edit from `before` to `after`, undo gives back `before`
/// and redo gives back `after`; since redo records the same command again, undo and
/// redo can alternate any number of times.
pub proof fn law_undo_redo_cycle(before: Seq<char>, after: Seq<char>, c: StoredCmd)
    requires
        recorded_edit(before, after, c),
    ensures
        apply_undo(after, c) == before,
        apply_redo(before, c) == after,
{
    let s = c.range.start as int;
    let d = c.deleted@;
    let i = c.inserted@;
    let mid = before.take(s) + before.skip(s + d.len());
    assert(remove_chars(after, s, i.len() as int) =~= mid);
    assert(insert_chars(mid, s, d) =~= before);
    assert(remove_chars(before, s, c.range.spec_len() as int) =~= mid);
    assert(insert_chars(mid, s, i) =~= after);
    if i.len() == 0 {
        assert(after =~= mid);
    }
    if d.len() == 0 {
        assert(before =~= mid);
    }
}

/// Pushing onto an undo stack that keeps at most `max` commands (at least one) never
/// makes it hold more than `max`, and the pushed command is the one undone next.
pub proof fn law_capped_push_bounded(undo: Seq<StoredCmd>, max: nat, c: StoredCmd)
    requires
        undo.len() <= max,
        max > 0,
    ensures
        capped_push(undo, max, c).len() <= max,
        capped_push(undo, max, c).last() == c,
{
}

/// The undo stack after pushing the commands `cs` in order onto `undo`, keeping at most
/// `max`.
pub open spec fn pushed_all(undo: Seq<StoredCmd>, max: nat, cs: Seq<StoredCmd>) -> Seq<StoredCmd>
    decreases cs.len(),
{
    if cs.len() == 0 {
        undo
    } else {
        capped_push(pushed_all(undo, max, cs.drop_last()), max, cs.last())
    }
}

/// The last `n` elements of `s` (all of them when there are fewer).
pub open spec fn last_n(s: Seq<StoredCmd>, n: nat) -> Seq<StoredCmd> {
    if s.len() <= n { s } else { s.skip(s.len() - n) }
}

/// Pushing commands one after the other onto an empty undo stack that keeps `max` (at
/// least one) leaves the last `max` of them, oldest first; since undo pops from the end,
/// undoing gives them back newest first, and the older ones are gone.
pub proof fn law_pushes_keep_newest(max: nat, cs: Seq<StoredCmd>)
    requires
        max > 0,
    ensures
        pushed_all(Seq::empty(), max, cs) == last_n(cs, max),
    decreases cs.len(),
{
    if cs.len() > 0 {
        let pre = cs.drop_last();
        law_pushes_keep_newest(max, pre);
        let u = last_n(pre, max);
        if pre.len() < max {
            assert(u.push(cs.last()) =~= last_n(cs, max));
        } else {
            assert(u.len() == max);
            assert(u.drop_first().push(cs.last()) =~= last_n(cs, max));
        }
    } else {
        assert(last_n(cs, max) =~= Seq::<StoredCmd>::empty());
    }
}

/// The line found for an offset inside the text starts at or before the offset, and
/// the next line, if any, starts after it.
pub proof fn law_line_of_between_starts(t: Seq<char>, o: int)
    requires
        0 <= o < t.len(),
    ensures
        0 <= line_of(t, o) < line_starts(t).len(),
        line_starts(t)[line_of(t, o)] <= o,
        line_of(t, o) + 1 < line_starts(t).len() ==> o < line_starts(t)[line_of(t, o) + 1],
{
    lemma_line_starts(t);
    lemma_newline_count_prefix(t, o);
    let k = line_of(t, o);
    assert(newline_count(t.take(o)) == k);
    assert(line_starts(t)[k] <= o);
    if k + 1 < line_starts(t).len() {
        assert(!(k + 1 <= newline_count(t.take(o))));
    }
}

/// The line found for the start of a line is that line, for every line that starts
/// inside the text (and line 0 of the empty text).
pub proof fn law_line_start_roundtrip(t: Seq<char>, l: int)
    requires
        0 <= l < line_starts(t).len(),
        line_starts(t)[l] < t.len() || t.len() == 0,
    ensures
        line_start_at(t, l) == Some(line_starts(t)[l]),
        line_index(t, line_starts(t)[l]) == Some(l),
{
    lemma_line_starts(t);
    let st = line_starts(t)[l];
    lemma_newline_count_prefix(t, st);
    if t.len() == 0 {
        assert(t.take(st) =~= Seq::<char>::empty());
    } else {
        assert(l <= newline_count(t.take(st)));
        if l + 1 < line_starts(t).len() {
            assert(!(line_starts(t)[l + 1] <= st));
        }
    }
}

} // verus!
