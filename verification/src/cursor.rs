//! Cursor movement and multi-cursor selection management.
//! Word boundaries come from `unicode_segmentation`, scanning only the current line.

use vstd::prelude::*;
use unicode_segmentation::UnicodeSegmentation;
use crate::edit::{Range, TextEdit};
use crate::text::{line_index, line_start_at, or_default, line_starts, line_of, min_int, lemma_line_starts, lemma_newline_count_prefix, lemma_newline_count_step, lemma_newline_count_mono, newline_count, lemma_line_index_valid, lemma_newline_count_le_len};

verus! {

/// Movement direction for cursor actions.
#[derive(Debug, Clone, Copy, PartialEq, Eq, Structural)]
pub enum Movement {
    Up,
    Down,
    Left,
    Right,
    WordLeft,
    WordRight,
    LineStart,
    LineEnd,
    FileStart,
    FileEnd,
}

/// The mode of the cursor (reserved for future use).
#[derive(Debug, Clone, Copy, PartialEq, Eq, Structural)]
pub enum CursorMode {
    Insert,
    Select,
}

/// A single selection (or caret) given by an anchor and an active position.
#[derive(Debug, Clone, Copy, PartialEq, Eq, Structural)]
pub struct Selection {
    pub anchor: usize,
    pub active: usize,
    pub preferred_x: Option<usize>,
}

impl Selection {
    /// The smaller of anchor and active.
    pub open spec fn spec_start(&self) -> usize {
        if self.anchor <= self.active { self.anchor } else { self.active }
    }

    /// The larger of anchor and active.
    pub open spec fn spec_end(&self) -> usize {
        if self.anchor >= self.active { self.anchor } else { self.active }
    }

    /// A collapsed selection at offset `o`.
    pub fn caret(o: usize) -> (s: Self)
        ensures
            s == (Selection { anchor: o, active: o, preferred_x: None }),
    {
        Selection { anchor: o, active: o, preferred_x: None }
    }

    /// A selection from anchor `a` to active `b`.
    pub fn new(a: usize, b: usize) -> (s: Self)
        ensures
            s == (Selection { anchor: a, active: b, preferred_x: None }),
    {
        Selection { anchor: a, active: b, preferred_x: None }
    }

    /// The normalized range (start <= end).
    pub fn range(&self) -> (r: Range)
        ensures
            r == (Range { start: self.spec_start(), end: self.spec_end() }),
    {
        let s = if self.anchor <= self.active { self.anchor } else { self.active };
        let e = if self.anchor >= self.active { self.anchor } else { self.active };
        Range::new(s, e)
    }

    /// Whether anchor and active coincide.
    pub fn is_collapsed(&self) -> (b: bool)
        ensures
            b == (self.anchor == self.active),
    {
        self.anchor == self.active
    }

    /// The active offset (the caret position).
    pub fn cursor(&self) -> (o: usize)
        ensures
            o == self.active,
    {
        self.active
    }

    /// The smaller of anchor and active.
    #[verifier::when_used_as_spec(spec_start)]
    pub fn start(&self) -> (o: usize)
        ensures
            o == self.spec_start(),
    {
        if self.anchor <= self.active { self.anchor } else { self.active }
    }

    /// The larger of anchor and active.
    #[verifier::when_used_as_spec(spec_end)]
    pub fn end(&self) -> (o: usize)
        ensures
            o == self.spec_end(),
    {
        if self.anchor >= self.active { self.anchor } else { self.active }
    }
}

/// The pieces into which `unicode_segmentation` splits `text` on UAX#29 word bounds.
pub uninterp spec fn word_pieces(text: Seq<char>) -> Seq<Seq<char>>;

/// The pieces of `ps` joined in order.
pub open spec fn joined(ps: Seq<Seq<char>>) -> Seq<char>
    decreases ps.len(),
{
    if ps.len() == 0 {
        Seq::empty()
    } else {
        joined(ps.drop_last()) + ps.last()
    }
}

/// The character offset at which each piece of `ps` starts within `joined(ps)`.
pub open spec fn piece_starts(ps: Seq<Seq<char>>) -> Seq<int> {
    Seq::new(ps.len(), |k: int| joined(ps.take(k)).len() as int)
}

/// `UnicodeSegmentation::split_word_bounds`, each piece copied into a `String`: its
/// documentation promises that the pieces joined in order give back `text`.
#[verifier::external_body]
fn word_bounds(text: &str) -> (v: Vec<String>)
    ensures
        pieces_view(v@) == word_pieces(text@),
        joined(pieces_view(v@)) == text@,
{
    text.split_word_bounds().map(|p| p.to_owned()).collect()
}

/// Joining a prefix of the pieces gives no more characters than joining them all, and
/// one more piece adds its characters.
proof fn lemma_joined_prefix(ps: Seq<Seq<char>>, k: int)
    requires
        0 <= k <= ps.len(),
    ensures
        joined(ps.take(k)).len() <= joined(ps).len(),
        k < ps.len() ==> joined(ps.take(k + 1)) == joined(ps.take(k)) + ps[k],
    decreases ps.len(),
{
    if k < ps.len() {
        assert(ps.take(k + 1).drop_last() =~= ps.take(k));
        assert(ps.take(k + 1).last() == ps[k]);
        lemma_joined_prefix(ps.drop_last(), k);
        assert(ps.drop_last().take(k) =~= ps.take(k));
    } else {
        assert(ps.take(k) =~= ps);
    }
}

/// The word pieces of `line`: those of `unicode_segmentation`, which join back to the
/// line (the line as one piece should they not).
pub open spec fn line_pieces(line: Seq<char>) -> Seq<Seq<char>> {
    if joined(word_pieces(line)) == line { word_pieces(line) } else { seq![line] }
}

/// The characters of each piece.
pub open spec fn pieces_view(v: Seq<String>) -> Seq<Seq<char>> {
    v.map_values(|p: String| p@)
}

/// Offset within a line reached by moving one word left from `p`, for the pieces `ps`
/// of the line: the last bound before the first bound at or past `p` (the end of the
/// line counts as a bound).
pub open spec fn word_left_local(ps: Seq<Seq<char>>, p: int) -> int {
    let bs = piece_starts(ps).push(joined(ps).len() as int);
    let j = first_at_least(bs, p);
    if j == 0 { 0 } else { bs[j - 1] }
}

/// Offset within a line reached by moving one word right from `p`, for the pieces `ps`
/// of the line: the first bound after `p`, if any.
pub open spec fn word_right_local(ps: Seq<Seq<char>>, p: int) -> Option<int> {
    let bs = piece_starts(ps);
    let j = first_above(bs, p);
    if j < bs.len() { Some(bs[j]) } else { None }
}

/// The pieces of a line join back to it.
pub proof fn lemma_line_pieces_join(line: Seq<char>)
    ensures
        joined(line_pieces(line)) == line,
{
    if joined(word_pieces(line)) != line {
        let ps = seq![line];
        assert(ps.drop_last() =~= Seq::<Seq<char>>::empty());
        assert(joined(ps.drop_last()) =~= Seq::<char>::empty());
        assert(joined(ps) =~= line);
    }
}

/// Every piece starts within the joined pieces.
pub proof fn lemma_piece_starts_bound(ps: Seq<Seq<char>>)
    ensures
        forall|k: int| 0 <= k < ps.len() ==> 0 <= #[trigger] piece_starts(ps)[k] <= joined(ps).len(),
{
    assert forall|k: int| 0 <= k < ps.len() implies 0 <= #[trigger] piece_starts(ps)[k] <= joined(ps).len() by {
        lemma_joined_prefix(ps, k);
    }
}

/// Moving a word left or right within a line stays within the line.
pub proof fn lemma_word_local_bounds(ps: Seq<Seq<char>>, p: int)
    ensures
        0 <= word_left_local(ps, p) <= joined(ps).len(),
        word_right_local(ps, p) matches Some(b) ==> 0 <= b <= joined(ps).len(),
{
    lemma_piece_starts_bound(ps);
    let bs = piece_starts(ps).push(joined(ps).len() as int);
    lemma_first_at_least_range(bs, p);
    lemma_first_above_range(piece_starts(ps), p);
    let j = first_at_least(bs, p);
    if j > 0 {
        if j - 1 < ps.len() {
            assert(bs[j - 1] == piece_starts(ps)[j - 1]);
        }
    }
}

/// `first_at_least` is an index from 0 to the length.
proof fn lemma_first_at_least_range(bs: Seq<int>, p: int)
    ensures
        0 <= first_at_least(bs, p) <= bs.len(),
    decreases bs.len(),
{
    if bs.len() > 0 && bs[0] < p {
        lemma_first_at_least_range(bs.drop_first(), p);
    }
}

/// `first_above` is an index from 0 to the length.
proof fn lemma_first_above_range(bs: Seq<int>, p: int)
    ensures
        0 <= first_above(bs, p) <= bs.len(),
    decreases bs.len(),
{
    if bs.len() > 0 && bs[0] <= p {
        lemma_first_above_range(bs.drop_first(), p);
    }
}

/// The character offsets at which `pieces` start when joined, and their joined length.
fn offsets_of(pieces: &Vec<String>) -> (r: (Vec<usize>, usize))
    requires
        joined(pieces_view(pieces@)).len() <= usize::MAX,
    ensures
        r.0@.len() == pieces@.len(),
        forall|k: int| 0 <= k < r.0@.len() ==> r.0@[k] as int == #[trigger] piece_starts(pieces_view(pieces@))[k],
        r.1 as int == joined(pieces_view(pieces@)).len(),
{
    let ghost ps = pieces_view(pieces@);
    let mut v: Vec<usize> = Vec::new();
    let mut acc: usize = 0;
    let mut k: usize = 0;
    assert(ps.take(0) =~= Seq::<Seq<char>>::empty());
    while k < pieces.len()
        invariant
            ps == pieces_view(pieces@),
            ps.len() == pieces@.len(),
            joined(ps).len() <= usize::MAX,
            k <= pieces@.len(),
            v@.len() == k,
            acc as int == joined(ps.take(k as int)).len(),
            forall|j: int| 0 <= j < k ==> v@[j] as int == #[trigger] piece_starts(ps)[j],
        decreases pieces.len() - k,
    {
        proof {
            lemma_joined_prefix(ps, k as int);
            lemma_joined_prefix(ps, k + 1);
            assert(ps[k as int] == pieces@[k as int]@);
        }
        v.push(acc);
        let n = pieces[k].as_str().unicode_len();
        acc = acc + n;
        k = k + 1;
    }
    assert(ps.take(k as int) =~= ps);
    (v, acc)
}

/// Offset within a line reached by moving one word left from `local`, for the word
/// pieces of the line.
pub fn word_left_in(pieces: &Vec<String>, local: usize) -> (o: usize)
    requires
        joined(pieces_view(pieces@)).len() <= usize::MAX,
    ensures
        o as int == word_left_local(pieces_view(pieces@), local as int),
{
    let (mut bounds, total) = offsets_of(pieces);
    let ghost ps = pieces_view(pieces@);
    bounds.push(total);
    let ghost bs = bounds@;
    let ghost ib = piece_starts(ps).push(joined(ps).len() as int);
    assert forall|j: int| 0 <= j < ib.len() implies ib[j] == bs[j] as int by {
        if j < ib.len() - 1 {
            assert(bs[j] as int == piece_starts(ps)[j]);
        }
    }
    let mut prev: usize = 0;
    let mut i: usize = 0;
    while i < bounds.len() && bounds[i] < local
        invariant
            bs == bounds@,
            ib.len() == bs.len(),
            forall|j: int| 0 <= j < ib.len() ==> ib[j] == bs[j] as int,
            i <= bs.len(),
            forall|j: int| 0 <= j < i ==> ib[j] < local,
            prev == (if i == 0 { 0 } else { bs[i - 1] as int }),
        decreases bs.len() - i,
    {
        prev = bounds[i];
        i = i + 1;
    }
    proof {
        lemma_first_at_least(ib, local as int, i as int);
    }
    prev
}

/// Offset within a line reached by moving one word right from `local`, for the word
/// pieces of the line; none when no bound follows.
pub fn word_right_in(pieces: &Vec<String>, local: usize) -> (r: Option<usize>)
    requires
        joined(pieces_view(pieces@)).len() <= usize::MAX,
    ensures
        match word_right_local(pieces_view(pieces@), local as int) {
            Some(b) => r == Some(b as usize),
            None => r is None,
        },
{
    let (bs, _total) = offsets_of(pieces);
    let ghost ib = piece_starts(pieces_view(pieces@));
    proof { lemma_piece_starts_bound(pieces_view(pieces@)); }
    let mut i: usize = 0;
    while i < bs.len()
        invariant
            ib == piece_starts(pieces_view(pieces@)),
            bs@.len() == ib.len(),
            forall|k: int| 0 <= k < bs@.len() ==> bs@[k] as int == #[trigger] ib[k],
            i <= bs.len(),
            forall|j: int| 0 <= j < i ==> ib[j] <= local,
        decreases bs.len() - i,
    {
        if bs[i] > local {
            proof { lemma_first_above(ib, local as int, i as int); }
            return Some(bs[i]);
        }
        i = i + 1;
    }
    proof { lemma_first_above(ib, local as int, i as int); }
    None
}

/// The line on which a caret at `pos` stands: the number of newlines before it, for
/// every position up to and including the end of the text.
pub open spec fn caret_line(t: Seq<char>, pos: int) -> Option<int> {
    if 0 <= pos <= t.len() {
        Some(line_of(t, pos))
    } else {
        None
    }
}

/// Start of the line after line `l`, or the end of the text.
pub open spec fn next_line_start(t: Seq<char>, l: int) -> int {
    or_default(line_start_at(t, l + 1), t.len() as int)
}

/// Column of `pos` within its line (0 when `pos` lies past the text).
pub open spec fn column_of(t: Seq<char>, pos: int) -> int {
    match caret_line(t, pos) {
        Some(l) => pos - line_starts(t)[l],
        None => 0,
    }
}

/// Start of the line holding `pos` (0 when `pos` lies past the text).
pub open spec fn line_start_pos(t: Seq<char>, pos: int) -> int {
    match caret_line(t, pos) {
        Some(l) => line_starts(t)[l],
        None => 0,
    }
}

/// End of the line holding `pos`, before its newline (the end of the text when `pos` has no line).
pub open spec fn line_end_pos(t: Seq<char>, pos: int) -> int {
    match line_index(t, pos) {
        Some(l) => {
            let nx = next_line_start(t, l);
            if nx > 0 && t[nx - 1] == '\n' { nx - 1 } else { nx }
        },
        None => t.len() as int,
    }
}

/// Offset reached from `pos` by moving one line up or down, keeping the preferred column
/// `pref` (or the column of `pos`) clamped to the target line.
pub open spec fn vertical_pos(t: Seq<char>, pos: int, down: bool, pref: Option<usize>) -> int {
    if t.len() == 0 {
        0
    } else {
        let cl = or_default(caret_line(t, pos), 0);
        let tl0 = if down { cl + 1 } else if cl > 0 { cl - 1 } else { 0 };
        let lc = line_starts(t).len() as int;
        let tl = min_int(tl0, lc - 1);
        let s = line_starts(t)[tl];
        let ll = next_line_start(t, tl) - s;
        let ho = match pref {
            Some(x) => x as int,
            None => column_of(t, pos),
        };
        if ll == 0 { s } else { min_int(s + min_int(ho, ll - 1), t.len() as int) }
    }
}

/// Index of the first element of `bs` that is at least `p` (or the length).
pub open spec fn first_at_least(bs: Seq<int>, p: int) -> int
    decreases bs.len(),
{
    if bs.len() == 0 || bs[0] >= p { 0 } else { 1 + first_at_least(bs.drop_first(), p) }
}

/// Index of the first element of `bs` above `p` (or the length).
pub open spec fn first_above(bs: Seq<int>, p: int) -> int
    decreases bs.len(),
{
    if bs.len() == 0 || bs[0] > p { 0 } else { 1 + first_above(bs.drop_first(), p) }
}

/// Offset reached from `pos` by moving one word left within its line: the last word
/// bound of the line before the first bound at or past `pos`.
pub open spec fn word_left_pos(t: Seq<char>, pos: int) -> int {
    if pos == 0 {
        0
    } else {
        let li = or_default(caret_line(t, pos), 0);
        let s = line_starts(t)[li];
        let e = next_line_start(t, li);
        if pos == s {
            s
        } else {
            let line = t.subrange(s, e);
            s + word_left_local(line_pieces(line), pos - s)
        }
    }
}

/// Offset reached from `pos` by moving one word right within its line: the first word
/// bound of the line after `pos`, or the line's end.
pub open spec fn word_right_pos(t: Seq<char>, pos: int) -> int {
    if pos >= t.len() {
        t.len() as int
    } else {
        let li = line_of(t, pos);
        let s = line_starts(t)[li];
        let e = next_line_start(t, li);
        if pos == e {
            e
        } else {
            match word_right_local(line_pieces(t.subrange(s, e)), pos - s) {
                Some(b) => s + b,
                None => e,
            }
        }
    }
}

/// Offset reached by movement `m` from the selection `sel`.
pub open spec fn movement_target(m: Movement, t: Seq<char>, sel: Selection) -> int {
    let pos = sel.active as int;
    match m {
        Movement::Left => if pos > 0 { pos - 1 } else { 0 },
        Movement::Right => if pos < t.len() { pos + 1 } else { t.len() as int },
        Movement::Up => vertical_pos(t, pos, false, sel.preferred_x),
        Movement::Down => vertical_pos(t, pos, true, sel.preferred_x),
        Movement::WordLeft => word_left_pos(t, pos),
        Movement::WordRight => word_right_pos(t, pos),
        Movement::LineStart => line_start_pos(t, pos),
        Movement::LineEnd => line_end_pos(t, pos),
        Movement::FileStart => 0,
        Movement::FileEnd => t.len() as int,
    }
}

/// The start of a line lies within the text, and the next line starts after it.
proof fn lemma_line_span(t: Seq<char>, l: int)
    requires
        0 <= l < line_starts(t).len(),
    ensures
        0 <= line_starts(t)[l] <= next_line_start(t, l) <= t.len(),
{
    lemma_line_starts(t);
}

/// The line of a caret within the text is a line of the text.
proof fn lemma_caret_line_valid(t: Seq<char>, pos: int)
    requires
        0 <= pos <= t.len(),
    ensures
        0 <= line_of(t, pos) < line_starts(t).len(),
{
    lemma_line_starts(t);
    lemma_newline_count_prefix(t, pos);
}

/// Every movement from a caret within the text lands within the text.
pub proof fn lemma_movement_target_bound(m: Movement, t: Seq<char>, sel: Selection)
    requires
        sel.active <= t.len(),
    ensures
        0 <= movement_target(m, t, sel) <= t.len(),
{
    let pos = sel.active as int;
    lemma_line_starts(t);
    lemma_caret_line_valid(t, pos);
    match m {
        Movement::Up | Movement::Down => {
            if t.len() > 0 {
                let cl = or_default(caret_line(t, pos), 0);
                let down = m is Down;
                let tl0 = if down { cl + 1 } else if cl > 0 { cl - 1 } else { 0 };
                let tl = min_int(tl0, line_starts(t).len() - 1);
                lemma_line_span(t, tl);
            }
        },
        Movement::WordLeft => {
            if pos != 0 {
                let li = or_default(caret_line(t, pos), 0);
                lemma_line_span(t, li);
                let s = line_starts(t)[li];
                let e = next_line_start(t, li);
                let line = t.subrange(s, e);
                lemma_line_pieces_join(line);
                lemma_word_local_bounds(line_pieces(line), pos - s);
            }
        },
        Movement::WordRight => {
            if pos < t.len() {
                let li = line_of(t, pos);
                lemma_line_span(t, li);
                let s = line_starts(t)[li];
                let e = next_line_start(t, li);
                let line = t.subrange(s, e);
                lemma_line_pieces_join(line);
                lemma_word_local_bounds(line_pieces(line), pos - s);
            }
        },
        Movement::LineEnd => {
            if line_index(t, pos) is Some {
                lemma_line_index_valid(t, pos);
                lemma_line_span(t, line_of(t, pos));
            }
        },
        _ => {},
    }
}

/// Moving to the line end from a caret within the text goes to the first newline at
/// or after the caret, or to the end of the text when no newline follows: no character
/// between the caret and the target is a newline, and the target is a newline or the
/// end of the text.
pub proof fn law_line_end_is_next_newline(t: Seq<char>, pos: int)
    requires
        0 <= pos <= t.len(),
    ensures
        pos <= line_end_pos(t, pos) <= t.len(),
        line_end_pos(t, pos) == t.len() || t[line_end_pos(t, pos)] == '\n',
        forall|k: int| pos <= k < line_end_pos(t, pos) ==> t[k] != '\n',
{
    lemma_line_starts(t);
    if line_index(t, pos) is Some {
        lemma_line_index_valid(t, pos);
        let l = line_of(t, pos);
        let lc = line_starts(t).len();
        let nx = next_line_start(t, l);
        if l + 1 < lc {
            let s1 = line_starts(t)[l + 1];
            assert(nx == s1);
            assert(pos < s1 <= t.len());
            assert(l + 1 <= newline_count(t.take(s1)));
            assert(!(line_starts(t)[l + 1] <= s1 - 1));
            assert(newline_count(t.take(s1 - 1)) < l + 1);
            lemma_newline_count_step(t, s1 - 1);
            assert(t[s1 - 1] == '\n');
            assert forall|k: int| pos <= k < s1 - 1 implies t[k] != '\n' by {
                if t[k] == '\n' {
                    lemma_newline_count_step(t, k);
                    lemma_newline_count_mono(t, pos, k);
                    assert(line_starts(t)[l + 1] <= k + 1);
                }
            }
        } else {
            assert(nx == t.len());
            if t.len() > 0 {
                if t[t.len() - 1] == '\n' {
                    lemma_newline_count_step(t, t.len() - 1);
                    lemma_newline_count_mono(t, pos, t.len() - 1);
                    assert(t.take(t.len() as int) =~= t);
                    assert(false);
                }
                assert forall|k: int| pos <= k < t.len() implies t[k] != '\n' by {
                    if t[k] == '\n' {
                        lemma_newline_count_step(t, k);
                        lemma_newline_count_mono(t, pos, k);
                        lemma_newline_count_mono(t, k + 1, t.len() as int);
                        assert(t.take(t.len() as int) =~= t);
                    }
                }
            }
        }
    }
}

/// Splitting a selection with a preferred column puts each line's caret on that line at
/// the preferred column, or on the line's last character (its newline, if it has one)
/// when the line is shorter; the caret is collapsed.
pub proof fn law_split_caret_keeps_column(t: Seq<char>, sel: Selection, k: int)
    requires
        sel.anchor != sel.active,
        sel.preferred_x is Some,
        t.len() <= usize::MAX,
        0 <= k < split_pieces(t, sel).len(),
        ({
            let l = or_default(line_index(t, sel.spec_start() as int), 0) + k;
            0 <= l < line_starts(t).len() && next_line_start(t, l) > line_starts(t)[l]
        }),
    ensures
        ({
            let l = or_default(line_index(t, sel.spec_start() as int), 0) + k;
            let ls = line_starts(t)[l];
            let len = next_line_start(t, l) - ls;
            let c = split_pieces(t, sel)[k];
            &&& c.anchor == c.active
            &&& c.active == ls + min_int(sel.preferred_x->0 as int, len - 1)
            &&& line_of(t, c.active as int) == l
        }),
{
    let l = or_default(line_index(t, sel.spec_start() as int), 0) + k;
    lemma_line_span(t, l);
    lemma_line_starts(t);
    let ls = line_starts(t)[l];
    let e = next_line_start(t, l);
    let c = ls + min_int(sel.preferred_x->0 as int, e - ls - 1);
    assert(ls <= c < e);
    assert(line_start_at(t, l) == Some(ls));
    assert(split_pieces(t, sel)[k] == line_caret(t, sel, l));
    assert(line_caret(t, sel, l).active == c as usize);
    assert(line_starts(t)[l] <= c);
    assert(l <= newline_count(t.take(c)));
    if l + 1 < line_starts(t).len() {
        assert(!(line_starts(t)[l + 1] <= c));
    } else {
        lemma_newline_count_prefix(t, c);
    }
}

/// `first_at_least` is the index where the elements below `p` end.
proof fn lemma_first_at_least(bs: Seq<int>, p: int, i: int)
    requires
        0 <= i <= bs.len(),
        forall|k: int| 0 <= k < i ==> bs[k] < p,
        i == bs.len() || bs[i] >= p,
    ensures
        first_at_least(bs, p) == i,
    decreases bs.len(),
{
    if i > 0 {
        lemma_first_at_least(bs.drop_first(), p, i - 1);
    }
}

/// `first_above` is the index where the elements at most `p` end.
proof fn lemma_first_above(bs: Seq<int>, p: int, i: int)
    requires
        0 <= i <= bs.len(),
        forall|k: int| 0 <= k < i ==> bs[k] <= p,
        i == bs.len() || bs[i] > p,
    ensures
        first_above(bs, p) == i,
    decreases bs.len(),
{
    if i > 0 {
        lemma_first_above(bs.drop_first(), p, i - 1);
    }
}

/// The selections after moving the primary one (at `idx`) by `m`: its caret goes to the
/// movement's target and remembers that target's column; the anchor stays when
/// extending, and follows the caret otherwise.
pub open spec fn moved_selections(sels: Seq<Selection>, idx: int, m: Movement, t: Seq<char>, extend: bool) -> Seq<Selection> {
    let sel = sels[idx];
    let np = movement_target(m, t, sel) as usize;
    let px = column_of(t, np as int) as usize;
    sels.update(idx, Selection { anchor: if extend { sel.anchor } else { np }, active: np, preferred_x: Some(px) })
}

/// The key by which selections are ordered: their start, or their caret.
pub open spec fn sel_key(s: Selection, by_start: bool) -> int {
    if by_start { s.spec_start() as int } else { s.active as int }
}

/// Keys strictly increase along `r`.
pub open spec fn keys_increasing(r: Seq<Selection>, by_start: bool) -> bool {
    forall|i: int, j: int| 0 <= i < j < r.len() ==> sel_key(r[i], by_start) < sel_key(r[j], by_start)
}

/// `input[k]` is the first element of `input` with its key.
pub open spec fn first_with_key(input: Seq<Selection>, k: int, by_start: bool) -> bool {
    &&& 0 <= k < input.len()
    &&& forall|k2: int| 0 <= k2 < k ==> sel_key(input[k2], by_start) != sel_key(input[k], by_start)
}

/// `v` is the first element of `input` with its key.
pub open spec fn is_first_of(input: Seq<Selection>, v: Selection, by_start: bool) -> bool {
    exists|k: int| #[trigger] first_with_key(input, k, by_start) && input[k] == v
}

/// Every element of `r` is the first element of `input` with its key.
pub open spec fn all_first(r: Seq<Selection>, input: Seq<Selection>, by_start: bool) -> bool {
    forall|i: int| 0 <= i < r.len() ==> #[trigger] is_first_of(input, r[i], by_start)
}

/// Every key of `input` is the key of some element of `r`.
pub open spec fn all_kept(r: Seq<Selection>, input: Seq<Selection>, by_start: bool) -> bool {
    forall|k: int| #![trigger input[k]] 0 <= k < input.len() ==> exists|i: int| 0 <= i < r.len() && #[trigger] sel_key(r[i], by_start) == sel_key(input[k], by_start)
}

/// `r` is `input` sorted by key, keeping only the first element of each key: what a
/// stable sort followed by removing repeated keys gives.
pub open spec fn sorted_unique_of(r: Seq<Selection>, input: Seq<Selection>, by_start: bool) -> bool {
    &&& keys_increasing(r, by_start)
    &&& all_first(r, input, by_start)
    &&& all_kept(r, input, by_start)
}

/// Index of the first range of `r` that starts before `v` (or the length).
pub open spec fn first_starting_before(r: Seq<Range>, v: int) -> int
    decreases r.len(),
{
    if r.len() == 0 || r[0].start < v { 0 } else { 1 + first_starting_before(r.drop_first(), v) }
}

/// The stable sort of `s` by decreasing start, by insertion: each range goes after every
/// earlier range that starts at or after it.
pub open spec fn sorted_by_start_desc(s: Seq<Range>) -> Seq<Range>
    decreases s.len(),
{
    if s.len() == 0 {
        Seq::empty()
    } else {
        let r = sorted_by_start_desc(s.drop_last());
        r.insert(first_starting_before(r, s.last().start as int), s.last())
    }
}

/// `first_starting_before` is an index from 0 to the length.
proof fn lemma_first_starting_before_range(r: Seq<Range>, v: int)
    ensures
        0 <= first_starting_before(r, v) <= r.len(),
    decreases r.len(),
{
    if r.len() > 0 && r[0].start >= v {
        lemma_first_starting_before_range(r.drop_first(), v);
    }
}

/// Sorting ranges by decreasing start keeps every range, as often as it occurs: the
/// result is a permutation of the input.
pub proof fn law_sorted_is_permutation(s: Seq<Range>)
    ensures
        sorted_by_start_desc(s).len() == s.len(),
        sorted_by_start_desc(s).to_multiset() == s.to_multiset(),
    decreases s.len(),
{
    if s.len() > 0 {
        let pre = s.drop_last();
        law_sorted_is_permutation(pre);
        let r = sorted_by_start_desc(pre);
        let idx = first_starting_before(r, s.last().start as int);
        lemma_first_starting_before_range(r, s.last().start as int);
        vstd::seq_lib::to_multiset_insert(r, idx, s.last());
        vstd::seq_lib::to_multiset_build(pre, s.last());
        assert(pre.push(s.last()) =~= s);
        assert(sorted_by_start_desc(s) == r.insert(idx, s.last()));
        assert(sorted_by_start_desc(s).to_multiset() == pre.to_multiset().insert(s.last()));
    } else {
        assert(s =~= Seq::<Range>::empty());
        assert(sorted_by_start_desc(s) =~= s);
    }
}

/// Caret for line `line` when splitting `sel`: the line start plus the preferred
/// column (or 0), kept before the line's last character and within the text.
pub open spec fn line_caret(t: Seq<char>, sel: Selection, line: int) -> Selection {
    let ls = or_default(line_start_at(t, line), 0);
    let le = next_line_start(t, line);
    let ll = if le > ls { le - ls } else { 0 };
    let pref = match sel.preferred_x { Some(x) => x as int, None => 0 };
    let ho = min_int(pref, if ll > 0 { ll - 1 } else { 0 });
    let pos = min_int(ls + ho, t.len() as int) as usize;
    Selection { anchor: pos, active: pos, preferred_x: None }
}

/// The carets `sel` splits into: itself when collapsed, otherwise one per line from the
/// line of its start to the line of its end (a position without a line counts as line 0).
pub open spec fn split_pieces(t: Seq<char>, sel: Selection) -> Seq<Selection> {
    if sel.anchor == sel.active {
        seq![sel]
    } else {
        let l0 = or_default(line_index(t, sel.spec_start() as int), 0);
        let l1 = or_default(line_index(t, sel.spec_end() as int), 0);
        Seq::new(if l1 >= l0 { (l1 - l0 + 1) as nat } else { 0 }, |k: int| line_caret(t, sel, l0 + k))
    }
}

/// The carets all of `sels` split into, in order.
pub open spec fn split_all(t: Seq<char>, sels: Seq<Selection>) -> Seq<Selection>
    decreases sels.len(),
{
    if sels.len() == 0 {
        Seq::empty()
    } else {
        split_all(t, sels.drop_last()) + split_pieces(t, sels.last())
    }
}

/// Multiple selections with one of them primary.
#[derive(Debug)]
pub struct Cursor {
    selections: Vec<Selection>,
    primary_index: usize,
}

impl Clone for Cursor {
    /// The same selections with the same one primary.
    fn clone(&self) -> (c: Self)
        ensures
            c.sels() == self.sels(),
            c.primary_at() == self.primary_at(),
    {
        let mut v: Vec<Selection> = Vec::new();
        let mut i: usize = 0;
        while i < self.selections.len()
            invariant
                i <= self.selections.len(),
                v@ == self.selections@.take(i as int),
            decreases self.selections.len() - i,
        {
            v.push(self.selections[i]);
            assert(self.selections@.take(i + 1) =~= self.selections@.take(i as int).push(self.selections@[i as int]));
            i = i + 1;
        }
        assert(self.selections@.take(i as int) =~= self.selections@);
        Cursor { selections: v, primary_index: self.primary_index }
    }
}

impl Cursor {
    /// All selections.
    pub closed spec fn sels(&self) -> Seq<Selection> {
        self.selections@
    }

    /// Index of the primary selection.
    pub closed spec fn primary_at(&self) -> int {
        self.primary_index as int
    }

    /// There is at least one selection and the primary index points at one.
    pub open spec fn wf(&self) -> bool {
        0 <= self.primary_at() < self.sels().len()
    }

    /// The primary selection.
    pub open spec fn spec_primary(&self) -> Selection {
        self.sels()[self.primary_at()]
    }

    /// A single caret at offset 0.
    pub fn new() -> (c: Self)
        ensures
            c.wf(),
            c.sels() == seq![Selection { anchor: 0, active: 0, preferred_x: None }],
            c.primary_at() == 0,
    {
        let mut v = Vec::new();
        v.push(Selection::caret(0));
        Cursor { selections: v, primary_index: 0 }
    }

    /// A single caret at offset `o`.
    pub fn at(o: usize) -> (c: Self)
        ensures
            c.wf(),
            c.sels() == seq![Selection { anchor: o, active: o, preferred_x: None }],
            c.primary_at() == 0,
    {
        let mut v = Vec::new();
        v.push(Selection::caret(o));
        Cursor { selections: v, primary_index: 0 }
    }

    /// The selections `selections` with the one at `primary_index` primary; none when
    /// that index points at no selection.
    pub fn from_parts(selections: Vec<Selection>, primary_index: usize) -> (c: Option<Self>)
        ensures
            primary_index < selections@.len() ==> (c matches Some(k) && k.wf() && k.sels() == selections@ && k.primary_at() == primary_index),
            primary_index >= selections@.len() ==> c is None,
    {
        if primary_index < selections.len() {
            Some(Cursor { selections, primary_index })
        } else {
            None
        }
    }

    /// The index of the primary selection.
    pub fn primary_index(&self) -> (i: usize)
        ensures
            i == self.primary_at(),
    {
        self.primary_index
    }

    /// All selections.
    pub fn selections(&self) -> (s: &[Selection])
        ensures
            s@ == self.sels(),
    {
        self.selections.as_slice()
    }

    /// The primary selection.
    pub fn primary(&self) -> (s: &Selection)
        requires
            self.wf(),
        ensures
            *s == self.spec_primary(),
    {
        &self.selections[self.primary_index]
    }

    /// The primary selection, for changing it in place.
    pub fn primary_mut(&mut self) -> (s: &mut Selection)
        requires
            old(self).wf(),
        ensures
            *s == old(self).spec_primary(),
            final(self).sels() == old(self).sels().update(old(self).primary_at(), *final(s)),
            final(self).primary_at() == old(self).primary_at(),
    {
        &mut self.selections[self.primary_index]
    }

    /// Offset of the primary caret.
    pub fn position(&self) -> (o: usize)
        requires
            self.wf(),
        ensures
            o == self.spec_primary().active,
    {
        self.primary().cursor()
    }

    /// Whether some selection is not collapsed.
    pub fn has_selection(&self) -> (b: bool)
        ensures
            b == exists|i: int| 0 <= i < self.sels().len() && self.sels()[i].anchor != self.sels()[i].active,
    {
        let mut i: usize = 0;
        while i < self.selections.len()
            invariant
                i <= self.selections.len(),
                forall|k: int| 0 <= k < i ==> self.sels()[k].anchor == self.sels()[k].active,
            decreases self.selections.len() - i,
        {
            if !self.selections[i].is_collapsed() {
                return true;
            }
            i = i + 1;
        }
        false
    }

    /// Selects the whole document of `doc_len` characters.
    pub fn select_all(&mut self, doc_len: usize)
        ensures
            final(self).wf(),
            final(self).sels() == seq![Selection { anchor: 0, active: doc_len, preferred_x: None }],
            final(self).primary_at() == 0,
    {
        let mut v = Vec::new();
        v.push(Selection::new(0, doc_len));
        self.selections = v;
        self.primary_index = 0;
    }
}

impl Cursor {
    /// The line on which a caret at `pos` stands, up to and including the end of the text.
    fn caret_line_of(pos: usize, t: &TextEdit) -> (l: Option<usize>)
        requires
            t.wf(),
        ensures
            caret_line(t@, pos as int) is Some <==> l is Some,
            l is Some ==> caret_line(t@, pos as int) == Some(l->0 as int),
            l is Some ==> (l->0 as int) < line_starts(t@).len(),
    {
        proof { lemma_line_starts(t@); t.lemma_wf_bounds(); }
        let n = t.len();
        if pos < n {
            let r = t.char_to_line(pos);
            proof { lemma_line_index_valid(t@, pos as int); }
            r
        } else if pos == n {
            proof { assert(t@.take(n as int) =~= t@); }
            Some(t.line_count() - 1)
        } else {
            None
        }
    }

    /// Column of `pos` within its line.
    fn h_offset(&self, pos: usize, t: &TextEdit) -> (c: usize)
        requires
            t.wf(),
        ensures
            c == column_of(t@, pos as int),
    {
        match Self::caret_line_of(pos, t) {
            Some(l) => {
                proof {
                    lemma_line_starts(t@);
                    assert(caret_line(t@, pos as int) == Some(l as int));
                    assert(0 <= line_starts(t@)[l as int] <= t@.len());
                }
                let r = t.line_to_char(l);
                let s = match r { Some(x) => x, None => 0 };
                proof {
                    lemma_newline_count_prefix(t@, pos as int);
                    assert(line_starts(t@)[l as int] <= pos);
                }
                pos - s
            },
            None => 0,
        }
    }

    /// Start of the line holding `pos`.
    fn line_start(&self, pos: usize, t: &TextEdit) -> (o: usize)
        requires
            t.wf(),
        ensures
            o == line_start_pos(t@, pos as int),
    {
        match Self::caret_line_of(pos, t) {
            Some(l) => {
                assert(caret_line(t@, pos as int) == Some(l as int));
                proof {
                    lemma_line_starts(t@);
                    t.lemma_wf_bounds();
                    assert(0 <= line_starts(t@)[l as int] <= t@.len());
                }
                match t.line_to_char(l) { Some(x) => x, None => 0 }
            },
            None => 0,
        }
    }

    /// End of the line holding `pos`, before its newline.
    fn line_end(&self, pos: usize, t: &TextEdit) -> (o: usize)
        requires
            t.wf(),
        ensures
            o == line_end_pos(t@, pos as int),
    {
        let dl = t.len();
        match t.char_to_line(pos) {
            Some(l) => {
                proof { lemma_line_index_valid(t@, pos as int); lemma_line_starts(t@); }
                let nx = match t.line_to_char(l + 1) { Some(x) => x, None => dl };
                if nx > 0 && t.char_at(nx.saturating_sub(1)) == Some('\n') {
                    nx.saturating_sub(1)
                } else {
                    nx
                }
            },
            None => dl,
        }
    }

    /// Offset one line up or down from `pos`, keeping the primary selection's
    /// preferred column (or the column of `pos`).
    fn vert(&self, pos: usize, down: bool, t: &TextEdit) -> (o: usize)
        requires
            self.wf(),
            t.wf(),
        ensures
            o == vertical_pos(t@, pos as int, down, self.spec_primary().preferred_x),
    {
        let dl = t.len();
        if dl == 0 {
            return 0;
        }
        proof { lemma_line_starts(t@); }
        let cl = match Self::caret_line_of(pos, t) {
            Some(l) => l,
            None => 0,
        };
        let lc = t.line_count();
        let tl = if down {
            if cl < lc - 1 { cl + 1 } else { lc - 1 }
        } else if cl > 0 {
            if cl - 1 < lc - 1 { cl - 1 } else { lc - 1 }
        } else {
            0
        };
        let ls = match t.line_to_char(tl) { Some(x) => x, None => 0 };
        let nx = match t.line_to_char(tl + 1) { Some(x) => x, None => dl };
        let ll = nx.saturating_sub(ls);
        let ho = match self.primary().preferred_x {
            Some(x) => x,
            None => self.h_offset(pos, t),
        };
        if ll == 0 {
            ls
        } else {
            let m = if ho < ll - 1 { ho } else { ll - 1 };
            let a = ls + m;
            if a < dl { a } else { dl }
        }
    }

    /// Previous word bound on the line of `pos`.
    fn word_left(&self, pos: usize, t: &TextEdit) -> (o: usize)
        requires
            t.wf(),
        ensures
            o == word_left_pos(t@, pos as int),
    {
        if pos == 0 {
            return 0;
        }
        proof { lemma_line_starts(t@); t.lemma_wf_bounds(); }
        let lc = t.line_count();
        let line_idx = match Self::caret_line_of(pos, t) {
            Some(l) => l,
            None => 0,
        };
        let line_start = match t.line_to_char(line_idx) { Some(x) => x, None => 0 };
        let line_end = match t.line_to_char(line_idx + 1) { Some(x) => x, None => t.len() };
        assert(line_start <= line_end);
        if pos == line_start {
            if line_idx == 0 {
                return 0;
            }
            return line_start;
        }
        let line_text = t.get_text(&Range::new(line_start, line_end));
        proof {
            assert(line_text@ =~= t@.subrange(line_start as int, line_end as int));
        }
        let pieces = word_bounds(line_text.as_str());
        proof {
            assert(pieces_view(pieces@) == word_pieces(line_text@));
            assert(line_pieces(line_text@) == pieces_view(pieces@));
            lemma_word_local_bounds(pieces_view(pieces@), (pos - line_start) as int);
        }
        line_start + word_left_in(&pieces, pos - line_start)
    }

    /// Next word bound on the line of `pos`, or the line's end.
    fn word_right(&self, pos: usize, t: &TextEdit) -> (o: usize)
        requires
            t.wf(),
        ensures
            o == word_right_pos(t@, pos as int),
    {
        let dl = t.len();
        if pos >= dl {
            return dl;
        }
        proof {
            lemma_line_starts(t@);
            lemma_line_index_valid(t@, pos as int);
            t.lemma_wf_bounds();
        }
        let line_idx = match t.char_to_line(pos) { Some(l) => l, None => 0 };
        let line_start = match t.line_to_char(line_idx) { Some(x) => x, None => 0 };
        let line_end = match t.line_to_char(line_idx + 1) { Some(x) => x, None => dl };
        assert(line_idx == line_of(t@, pos as int));
        assert(line_start == line_starts(t@)[line_idx as int]);
        assert(line_end == next_line_start(t@, line_idx as int));
        if pos == line_end {
            return match t.line_to_char(line_idx + 1) { Some(x) => x, None => dl };
        }
        let line_text = t.get_text(&Range::new(line_start, line_end));
        proof {
            assert(line_text@ =~= t@.subrange(line_start as int, line_end as int));
        }
        let pieces = word_bounds(line_text.as_str());
        proof {
            assert(pieces_view(pieces@) == word_pieces(line_text@));
            assert(line_pieces(line_text@) == pieces_view(pieces@));
            lemma_word_local_bounds(pieces_view(pieces@), (pos - line_start) as int);
        }
        match word_right_in(&pieces, pos - line_start) {
            Some(b) => line_start + b,
            None => line_end,
        }
    }

    /// Moves the primary caret by `m`; with `extend` the anchor stays, otherwise the
    /// selection collapses onto the new caret. The caret remembers its new column.
    pub fn move_cursor(&mut self, m: Movement, text: &TextEdit, extend: bool)
        requires
            old(self).wf(),
            text.wf(),
        ensures
            final(self).wf(),
            final(self).primary_at() == old(self).primary_at(),
            final(self).sels() == moved_selections(old(self).sels(), old(self).primary_at(), m, text@, extend),
            old(self).spec_primary().active <= text@.len() ==> final(self).spec_primary().active <= text@.len(),
    {
        proof {
            if self.spec_primary().active <= text@.len() {
                lemma_movement_target_bound(m, text@, self.spec_primary());
            }
        }
        let dl = text.len();
        let pos = self.primary().cursor();
        let np = match m {
            Movement::Left => pos.saturating_sub(1),
            Movement::Right => if pos < dl { pos + 1 } else { dl },
            Movement::Up => self.vert(pos, false, text),
            Movement::Down => self.vert(pos, true, text),
            Movement::WordLeft => self.word_left(pos, text),
            Movement::WordRight => self.word_right(pos, text),
            Movement::LineStart => self.line_start(pos, text),
            Movement::LineEnd => self.line_end(pos, text),
            Movement::FileStart => 0,
            Movement::FileEnd => dl,
        };
        let px = self.h_offset(np, text);
        if extend {
            let s = self.primary_mut();
            s.active = np;
            s.preferred_x = Some(px);
        } else {
            let mut s = Selection::caret(np);
            s.preferred_x = Some(px);
            self.selections.set(self.primary_index, s);
        }
    }
}

/// The key of a selection: its start, or its caret.
fn key_of(s: &Selection, by_start: bool) -> (k: usize)
    ensures
        k == sel_key(*s, by_start),
{
    if by_start { s.start() } else { s.cursor() }
}

/// Adds `x` to the key-sorted `r` unless an element with its key is there already.
fn insert_by_key(r: &mut Vec<Selection>, x: Selection, by_start: bool)
    requires
        keys_increasing(old(r)@, by_start),
    ensures
        keys_increasing(final(r)@, by_start),
        (exists|i: int| 0 <= i < old(r)@.len() && sel_key(old(r)@[i], by_start) == sel_key(x, by_start))
            ==> final(r)@ == old(r)@,
        !(exists|i: int| 0 <= i < old(r)@.len() && sel_key(old(r)@[i], by_start) == sel_key(x, by_start))
            ==> exists|p: int| 0 <= p <= old(r)@.len() && final(r)@ == old(r)@.insert(p, x),
{
    let kx = key_of(&x, by_start);
    let mut i: usize = 0;
    while i < r.len() && key_of(&r[i], by_start) < kx
        invariant
            i <= r.len(),
            forall|j: int| 0 <= j < i ==> sel_key(r@[j], by_start) < kx,
        decreases r.len() - i,
    {
        i = i + 1;
    }
    if i < r.len() && key_of(&r[i], by_start) == kx {
        return;
    }
    proof {
        assert forall|j: int| 0 <= j < r@.len() implies sel_key(r@[j], by_start) != kx by {
            if j >= i {
                assert(i < r@.len());
                if j > i {
                    assert(sel_key(r@[i as int], by_start) < sel_key(r@[j], by_start));
                }
            }
        }
    }
    let ghost before = r@;
    r.insert(i, x);
    proof {
        assert forall|a: int, b: int| 0 <= a < b < r@.len() implies sel_key(r@[a], by_start) < sel_key(r@[b], by_start) by {
            if b < i {
            } else if a < i && b == i {
            } else if a < i {
                assert(r@[b] == before[b - 1]);
                if a < i {
                    assert(sel_key(before[a], by_start) < kx);
                    assert(i < before.len());
                    if b - 1 > i {
                        assert(sel_key(before[i as int], by_start) < sel_key(before[b - 1], by_start));
                    }
                }
            } else if a == i {
                assert(r@[b] == before[b - 1]);
                assert(sel_key(before[b - 1], by_start) >= kx);
            } else {
                assert(r@[a] == before[a - 1]);
                assert(r@[b] == before[b - 1]);
            }
        }
    }
}

/// The first element with its key stays so when an element is appended.
proof fn lemma_first_with_key_push(pre: Seq<Selection>, x: Selection, k: int, by_start: bool)
    requires
        first_with_key(pre, k, by_start),
    ensures
        first_with_key(pre.push(x), k, by_start),
{
    let post = pre.push(x);
    assert forall|k2: int| 0 <= k2 < k implies sel_key(post[k2], by_start) != sel_key(post[k], by_start) by {
        assert(post[k2] == pre[k2]);
        assert(post[k] == pre[k]);
    }
}

/// Appending an element keeps every kept element first.
proof fn lemma_all_first_push(r: Seq<Selection>, pre: Seq<Selection>, x: Selection, by_start: bool)
    requires
        all_first(r, pre, by_start),
    ensures
        all_first(r, pre.push(x), by_start),
{
    let post = pre.push(x);
    assert forall|j: int| 0 <= j < r.len() implies #[trigger] is_first_of(post, r[j], by_start) by {
        assert(is_first_of(pre, r[j], by_start));
        let k = choose|k: int| #[trigger] first_with_key(pre, k, by_start) && pre[k] == r[j];
        assert(post[k] == pre[k]);
        lemma_first_with_key_push(pre, x, k, by_start);
    }
}

/// Appending an element whose key is already kept keeps every key represented.
proof fn lemma_all_kept_push(r: Seq<Selection>, pre: Seq<Selection>, x: Selection, j0: int, by_start: bool)
    requires
        all_kept(r, pre, by_start),
        0 <= j0 < r.len(),
        sel_key(r[j0], by_start) == sel_key(x, by_start),
    ensures
        all_kept(r, pre.push(x), by_start),
{
    let post = pre.push(x);
    assert forall|k: int| #![trigger post[k]] 0 <= k < post.len() implies exists|j: int| 0 <= j < r.len() && #[trigger] sel_key(r[j], by_start) == sel_key(post[k], by_start) by {
        if k < pre.len() {
            assert(post[k] == pre[k]);
            assert(exists|j: int| 0 <= j < r.len() && #[trigger] sel_key(r[j], by_start) == sel_key(pre[k], by_start));
        } else {
            assert(post[k] == x);
            assert(sel_key(r[j0], by_start) == sel_key(post[k], by_start));
        }
    }
}

/// Adding an element whose key is already kept leaves the kept elements as they are.
proof fn lemma_unique_step_present(r: Seq<Selection>, pre: Seq<Selection>, x: Selection, j0: int, by_start: bool)
    requires
        sorted_unique_of(r, pre, by_start),
        0 <= j0 < r.len(),
        sel_key(r[j0], by_start) == sel_key(x, by_start),
    ensures
        sorted_unique_of(r, pre.push(x), by_start),
{
    lemma_all_first_push(r, pre, x, by_start);
    lemma_all_kept_push(r, pre, x, j0, by_start);
}

/// Adding an element with a new key keeps it, at its place in key order.
proof fn lemma_unique_step_absent(old_r: Seq<Selection>, r: Seq<Selection>, pre: Seq<Selection>, x: Selection, p: int, by_start: bool)
    requires
        sorted_unique_of(old_r, pre, by_start),
        keys_increasing(r, by_start),
        !(exists|j: int| 0 <= j < old_r.len() && sel_key(old_r[j], by_start) == sel_key(x, by_start)),
        0 <= p <= old_r.len(),
        r == old_r.insert(p, x),
    ensures
        sorted_unique_of(r, pre.push(x), by_start),
{
    let post = pre.push(x);
    let n = pre.len() as int;
    assert forall|k2: int| 0 <= k2 < n implies sel_key(post[k2], by_start) != sel_key(x, by_start) by {
        assert(post[k2] == pre[k2]);
        if sel_key(pre[k2], by_start) == sel_key(x, by_start) {
            let j = choose|j: int| 0 <= j < old_r.len() && #[trigger] sel_key(old_r[j], by_start) == sel_key(pre[k2], by_start);
            assert(sel_key(old_r[j], by_start) == sel_key(x, by_start));
        }
    }
    assert(post[n] == x);
    assert(first_with_key(post, n, by_start));
    assert forall|j: int| 0 <= j < r.len() implies #[trigger] is_first_of(post, r[j], by_start) by {
        if j == p {
            assert(r[j] == x);
            assert(first_with_key(post, n, by_start) && post[n] == r[j]);
        } else {
            let jj = if j < p { j } else { j - 1 };
            assert(r[j] == old_r[jj]);
            assert(is_first_of(pre, old_r[jj], by_start));
            let k = choose|k: int| #[trigger] first_with_key(pre, k, by_start) && pre[k] == old_r[jj];
            assert(post[k] == pre[k]);
            lemma_first_with_key_push(pre, x, k, by_start);
            assert(first_with_key(post, k, by_start) && post[k] == r[j]);
        }
    }
    assert forall|k: int| #![trigger post[k]] 0 <= k < post.len() implies exists|j: int| 0 <= j < r.len() && #[trigger] sel_key(r[j], by_start) == sel_key(post[k], by_start) by {
        if k < n {
            assert(post[k] == pre[k]);
            let j = choose|j: int| 0 <= j < old_r.len() && #[trigger] sel_key(old_r[j], by_start) == sel_key(pre[k], by_start);
            let jj = if j < p { j } else { j + 1 };
            assert(r[jj] == old_r[j]);
            assert(sel_key(r[jj], by_start) == sel_key(post[k], by_start));
        } else {
            assert(r[p] == x);
            assert(sel_key(r[p], by_start) == sel_key(post[k], by_start));
        }
    }
}

/// `input` sorted by key with only the first element of each key kept.
fn sort_unique(input: &Vec<Selection>, by_start: bool) -> (r: Vec<Selection>)
    ensures
        sorted_unique_of(r@, input@, by_start),
        input@.len() > 0 ==> r@.len() > 0,
{
    let mut r: Vec<Selection> = Vec::new();
    let mut i: usize = 0;
    while i < input.len()
        invariant
            i <= input.len(),
            sorted_unique_of(r@, input@.take(i as int), by_start),
            i > 0 ==> r@.len() > 0,
        decreases input.len() - i,
    {
        let x = input[i];
        let ghost old_r = r@;
        let ghost pre = input@.take(i as int);
        insert_by_key(&mut r, x, by_start);
        proof {
            assert(input@.take(i + 1) =~= pre.push(x));
            if exists|j: int| 0 <= j < old_r.len() && sel_key(old_r[j], by_start) == sel_key(x, by_start) {
                let j0 = choose|j: int| 0 <= j < old_r.len() && sel_key(old_r[j], by_start) == sel_key(x, by_start);
                lemma_unique_step_present(old_r, pre, x, j0, by_start);
            } else {
                let p = choose|p: int| 0 <= p <= old_r.len() && r@ == old_r.insert(p, x);
                lemma_unique_step_absent(old_r, r@, pre, x, p, by_start);
            }
        }
        i = i + 1;
    }
    assert(input@.take(i as int) =~= input@);
    r
}

/// `first_starting_before` is the index where the ranges starting at or after `v` end.
proof fn lemma_first_starting_before(r: Seq<Range>, v: int, i: int)
    requires
        0 <= i <= r.len(),
        forall|k: int| 0 <= k < i ==> r[k].start >= v,
        i == r.len() || r[i].start < v,
    ensures
        first_starting_before(r, v) == i,
    decreases r.len(),
{
    if i > 0 {
        lemma_first_starting_before(r.drop_first(), v, i - 1);
    }
}

/// Starts do not increase along `r`.
pub open spec fn starts_descending(r: Seq<Range>) -> bool {
    forall|i: int, j: int| 0 <= i < j < r.len() ==> r[i].start >= r[j].start
}

/// The ranges of the selections `sels`, in order.
pub open spec fn ranges_of(sels: Seq<Selection>) -> Seq<Range> {
    Seq::new(sels.len(), |i: int| Range { start: sels[i].spec_start(), end: sels[i].spec_end() })
}

/// The selections that ranges become, anchored at their start.
pub open spec fn selections_of(ranges: Seq<Range>) -> Seq<Selection> {
    Seq::new(ranges.len(), |i: int| Selection { anchor: ranges[i].start, active: ranges[i].end, preferred_x: None })
}

impl Cursor {
    /// Moves the primary caret up.
    pub fn move_up(&mut self, t: &TextEdit, e: bool)
        requires old(self).wf(), t.wf(),
        ensures final(self).wf(), final(self).primary_at() == old(self).primary_at(),
            final(self).sels() == moved_selections(old(self).sels(), old(self).primary_at(), Movement::Up, t@, e),
            old(self).spec_primary().active <= t@.len() ==> final(self).spec_primary().active <= t@.len(),
    {
        self.move_cursor(Movement::Up, t, e);
    }

    /// Moves the primary caret down.
    pub fn move_down(&mut self, t: &TextEdit, e: bool)
        requires old(self).wf(), t.wf(),
        ensures final(self).wf(), final(self).primary_at() == old(self).primary_at(),
            final(self).sels() == moved_selections(old(self).sels(), old(self).primary_at(), Movement::Down, t@, e),
            old(self).spec_primary().active <= t@.len() ==> final(self).spec_primary().active <= t@.len(),
    {
        self.move_cursor(Movement::Down, t, e);
    }

    /// Moves the primary caret left.
    pub fn move_left(&mut self, t: &TextEdit, e: bool)
        requires old(self).wf(), t.wf(),
        ensures final(self).wf(), final(self).primary_at() == old(self).primary_at(),
            final(self).sels() == moved_selections(old(self).sels(), old(self).primary_at(), Movement::Left, t@, e),
            old(self).spec_primary().active <= t@.len() ==> final(self).spec_primary().active <= t@.len(),
    {
        self.move_cursor(Movement::Left, t, e);
    }

    /// Moves the primary caret right.
    pub fn move_right(&mut self, t: &TextEdit, e: bool)
        requires old(self).wf(), t.wf(),
        ensures final(self).wf(), final(self).primary_at() == old(self).primary_at(),
            final(self).sels() == moved_selections(old(self).sels(), old(self).primary_at(), Movement::Right, t@, e),
            old(self).spec_primary().active <= t@.len() ==> final(self).spec_primary().active <= t@.len(),
    {
        self.move_cursor(Movement::Right, t, e);
    }

    /// Moves the primary caret one word left.
    pub fn move_word_left(&mut self, t: &TextEdit, e: bool)
        requires old(self).wf(), t.wf(),
        ensures final(self).wf(), final(self).primary_at() == old(self).primary_at(),
            final(self).sels() == moved_selections(old(self).sels(), old(self).primary_at(), Movement::WordLeft, t@, e),
            old(self).spec_primary().active <= t@.len() ==> final(self).spec_primary().active <= t@.len(),
    {
        self.move_cursor(Movement::WordLeft, t, e);
    }

    /// Moves the primary caret one word right.
    pub fn move_word_right(&mut self, t: &TextEdit, e: bool)
        requires old(self).wf(), t.wf(),
        ensures final(self).wf(), final(self).primary_at() == old(self).primary_at(),
            final(self).sels() == moved_selections(old(self).sels(), old(self).primary_at(), Movement::WordRight, t@, e),
            old(self).spec_primary().active <= t@.len() ==> final(self).spec_primary().active <= t@.len(),
    {
        self.move_cursor(Movement::WordRight, t, e);
    }

    /// Moves the primary caret to the start of its line.
    pub fn move_to_line_start(&mut self, t: &TextEdit, e: bool)
        requires old(self).wf(), t.wf(),
        ensures final(self).wf(), final(self).primary_at() == old(self).primary_at(),
            final(self).sels() == moved_selections(old(self).sels(), old(self).primary_at(), Movement::LineStart, t@, e),
            old(self).spec_primary().active <= t@.len() ==> final(self).spec_primary().active <= t@.len(),
    {
        self.move_cursor(Movement::LineStart, t, e);
    }

    /// Moves the primary caret to the end of its line.
    pub fn move_to_line_end(&mut self, t: &TextEdit, e: bool)
        requires old(self).wf(), t.wf(),
        ensures final(self).wf(), final(self).primary_at() == old(self).primary_at(),
            final(self).sels() == moved_selections(old(self).sels(), old(self).primary_at(), Movement::LineEnd, t@, e),
            old(self).spec_primary().active <= t@.len() ==> final(self).spec_primary().active <= t@.len(),
    {
        self.move_cursor(Movement::LineEnd, t, e);
    }

    /// Moves the primary caret to the start of the file.
    pub fn move_to_file_start(&mut self, t: &TextEdit, e: bool)
        requires old(self).wf(), t.wf(),
        ensures final(self).wf(), final(self).primary_at() == old(self).primary_at(),
            final(self).sels() == moved_selections(old(self).sels(), old(self).primary_at(), Movement::FileStart, t@, e),
            old(self).spec_primary().active <= t@.len() ==> final(self).spec_primary().active <= t@.len(),
    {
        self.move_cursor(Movement::FileStart, t, e);
    }

    /// Moves the primary caret to the end of the file.
    pub fn move_to_file_end(&mut self, t: &TextEdit, e: bool)
        requires old(self).wf(), t.wf(),
        ensures final(self).wf(), final(self).primary_at() == old(self).primary_at(),
            final(self).sels() == moved_selections(old(self).sels(), old(self).primary_at(), Movement::FileEnd, t@, e),
            old(self).spec_primary().active <= t@.len() ==> final(self).spec_primary().active <= t@.len(),
    {
        self.move_cursor(Movement::FileEnd, t, e);
    }

    /// Extends the primary selection one line up.
    pub fn extend_selection_up(&mut self, t: &TextEdit)
        requires old(self).wf(), t.wf(),
        ensures final(self).wf(), final(self).primary_at() == old(self).primary_at(),
            final(self).sels() == moved_selections(old(self).sels(), old(self).primary_at(), Movement::Up, t@, true),
            old(self).spec_primary().active <= t@.len() ==> final(self).spec_primary().active <= t@.len(),
    {
        self.move_cursor(Movement::Up, t, true);
    }

    /// Extends the primary selection one line down.
    pub fn extend_selection_down(&mut self, t: &TextEdit)
        requires old(self).wf(), t.wf(),
        ensures final(self).wf(), final(self).primary_at() == old(self).primary_at(),
            final(self).sels() == moved_selections(old(self).sels(), old(self).primary_at(), Movement::Down, t@, true),
            old(self).spec_primary().active <= t@.len() ==> final(self).spec_primary().active <= t@.len(),
    {
        self.move_cursor(Movement::Down, t, true);
    }

    /// Extends the primary selection one character left.
    pub fn extend_selection_left(&mut self, t: &TextEdit)
        requires old(self).wf(), t.wf(),
        ensures final(self).wf(), final(self).primary_at() == old(self).primary_at(),
            final(self).sels() == moved_selections(old(self).sels(), old(self).primary_at(), Movement::Left, t@, true),
            old(self).spec_primary().active <= t@.len() ==> final(self).spec_primary().active <= t@.len(),
    {
        self.move_cursor(Movement::Left, t, true);
    }

    /// Extends the primary selection one character right.
    pub fn extend_selection_right(&mut self, t: &TextEdit)
        requires old(self).wf(), t.wf(),
        ensures final(self).wf(), final(self).primary_at() == old(self).primary_at(),
            final(self).sels() == moved_selections(old(self).sels(), old(self).primary_at(), Movement::Right, t@, true),
            old(self).spec_primary().active <= t@.len() ==> final(self).spec_primary().active <= t@.len(),
    {
        self.move_cursor(Movement::Right, t, true);
    }

    /// Adds a caret one line above the primary caret, unless that is where it already is.
    pub fn add_cursor_above(&mut self, t: &TextEdit)
        requires old(self).wf(), t.wf(),
        ensures
            final(self).wf(),
            final(self).primary_at() == old(self).primary_at(),
            ({
                let p = old(self).spec_primary().active;
                let np = vertical_pos(t@, p as int, false, old(self).spec_primary().preferred_x) as usize;
                final(self).sels() == if np != p {
                    old(self).sels().push(Selection { anchor: np, active: np, preferred_x: None })
                } else {
                    old(self).sels()
                }
            }),
    {
        let p = self.position();
        let np = self.vert(p, false, t);
        if np != p {
            self.selections.push(Selection::caret(np));
        }
    }

    /// Adds a caret one line below the primary caret, unless that is where it already is.
    pub fn add_cursor_below(&mut self, t: &TextEdit)
        requires old(self).wf(), t.wf(),
        ensures
            final(self).wf(),
            final(self).primary_at() == old(self).primary_at(),
            ({
                let p = old(self).spec_primary().active;
                let np = vertical_pos(t@, p as int, true, old(self).spec_primary().preferred_x) as usize;
                final(self).sels() == if np != p {
                    old(self).sels().push(Selection { anchor: np, active: np, preferred_x: None })
                } else {
                    old(self).sels()
                }
            }),
    {
        let p = self.position();
        let np = self.vert(p, true, t);
        if np != p {
            self.selections.push(Selection::caret(np));
        }
    }

    /// Selects the whole line holding the primary caret, up to the start of the next line
    /// (or the end of the text); nothing changes when the caret has no line.
    pub fn select_line(&mut self, text: &TextEdit)
        requires old(self).wf(), text.wf(),
        ensures
            final(self).wf(),
            match line_index(text@, old(self).spec_primary().active as int) {
                Some(l) => {
                    &&& final(self).sels() == seq![Selection {
                        anchor: line_starts(text@)[l] as usize,
                        active: next_line_start(text@, l) as usize,
                        preferred_x: None,
                    }]
                    &&& final(self).primary_at() == 0
                },
                None => final(self).sels() == old(self).sels() && final(self).primary_at() == old(self).primary_at(),
            },
    {
        let pos = self.position();
        if let Some(line) = text.char_to_line(pos) {
            proof {
                lemma_line_index_valid(text@, pos as int);
                lemma_line_starts(text@);
                text.lemma_wf_bounds();
            }
            let a = match text.line_to_char(line) { Some(x) => x, None => 0 };
            let b = match text.line_to_char(line + 1) { Some(x) => x, None => text.len() };
            let mut v = Vec::new();
            v.push(Selection::new(a, b));
            self.selections = v;
            self.primary_index = 0;
        }
    }

    /// Replaces all selections by the given ranges (anchored at their start), sorted by
    /// start, keeping the first of those that share a start; the first becomes primary.
    /// Nothing changes when `ranges` is empty.
    pub fn set_selections(&mut self, ranges: Vec<Range>)
        requires old(self).wf(),
        ensures
            final(self).wf(),
            ranges@.len() == 0 ==> final(self).sels() == old(self).sels() && final(self).primary_at() == old(self).primary_at(),
            ranges@.len() > 0 ==> sorted_unique_of(final(self).sels(), selections_of(ranges@), true) && final(self).primary_at() == 0,
    {
        if ranges.len() == 0 {
            return;
        }
        let mut sels: Vec<Selection> = Vec::new();
        let mut i: usize = 0;
        while i < ranges.len()
            invariant
                i <= ranges.len(),
                sels@ == selections_of(ranges@).take(i as int),
            decreases ranges.len() - i,
        {
            sels.push(Selection::new(ranges[i].start, ranges[i].end));
            assert(selections_of(ranges@).take(i + 1) =~= selections_of(ranges@).take(i as int).push(Selection { anchor: ranges@[i as int].start, active: ranges@[i as int].end, preferred_x: None }));
            i = i + 1;
        }
        assert(selections_of(ranges@).take(i as int) =~= selections_of(ranges@));
        let sorted = sort_unique(&sels, true);
        self.selections = sorted;
        self.primary_index = 0;
    }

    /// The ranges of all selections, sorted by decreasing start (stable), so that edits
    /// applied in this order leave the offsets of later ranges valid.
    pub fn edit_ranges(&self) -> (r: Vec<Range>)
        ensures
            r@ == sorted_by_start_desc(ranges_of(self.sels())),
            r@.len() == self.sels().len(),
            starts_descending(r@),
            r@.to_multiset() == ranges_of(self.sels()).to_multiset(),
    {
        proof { law_sorted_is_permutation(ranges_of(self.sels())); }
        let ghost input = ranges_of(self.sels());
        let mut r: Vec<Range> = Vec::new();
        let mut i: usize = 0;
        while i < self.selections.len()
            invariant
                i <= self.selections.len(),
                input == ranges_of(self.sels()),
                r@ == sorted_by_start_desc(input.take(i as int)),
                r@.len() == i,
                starts_descending(r@),
            decreases self.selections.len() - i,
        {
            let x = self.selections[i].range();
            let mut p: usize = 0;
            while p < r.len() && r[p].start >= x.start
                invariant
                    p <= r.len(),
                    forall|k: int| 0 <= k < p ==> r@[k].start >= x.start,
                decreases r.len() - p,
            {
                p = p + 1;
            }
            proof {
                lemma_first_starting_before(r@, x.start as int, p as int);
                assert(input.take(i + 1).drop_last() =~= input.take(i as int));
                assert(input.take(i + 1).last() == x);
            }
            let ghost before = r@;
            r.insert(p, x);
            proof {
                assert forall|a: int, b: int| 0 <= a < b < r@.len() implies r@[a].start >= r@[b].start by {
                    if b < p {
                    } else if a < p && b == p {
                    } else if a < p {
                        assert(r@[b] == before[b - 1]);
                    } else if a == p {
                        assert(r@[b] == before[b - 1]);
                        assert(p < before.len());
                        assert(before[p as int].start < x.start);
                        if b - 1 > p {
                            assert(before[p as int].start >= before[b - 1].start);
                        }
                    } else {
                        assert(r@[a] == before[a - 1]);
                        assert(r@[b] == before[b - 1]);
                    }
                }
            }
            i = i + 1;
        }
        assert(input.take(i as int) =~= input);
        r
    }

    /// Splits every selection into one caret per line it covers (collapsed selections
    /// stay), each at the selection's preferred column clamped to its line; the carets,
    /// sorted by position with repeats dropped, replace the selections and the first is
    /// primary. Nothing changes when no caret results.
    pub fn split_selection_into_lines(&mut self, t: &TextEdit)
        requires old(self).wf(), t.wf(),
        ensures
            final(self).wf(),
            split_all(t@, old(self).sels()).len() == 0 ==> final(self).sels() == old(self).sels() && final(self).primary_at() == old(self).primary_at(),
            split_all(t@, old(self).sels()).len() > 0 ==> sorted_unique_of(final(self).sels(), split_all(t@, old(self).sels()), false)
                && final(self).primary_at() == 0,
    {
        let ghost sels = self.sels();
        let mut new_selections: Vec<Selection> = Vec::new();
        let mut i: usize = 0;
        proof { lemma_line_starts(t@); t.lemma_wf_bounds(); }
        while i < self.selections.len()
            invariant
                i <= self.selections.len(),
                sels == self.sels(),
                t.wf(),
                t@.len() <= usize::MAX,
                line_starts(t@).len() == newline_count(t@) + 1,
                new_selections@ == split_all(t@, sels.take(i as int)),
            decreases self.selections.len() - i,
        {
            let sel = self.selections[i];
            proof {
                assert(sels.take(i + 1).drop_last() =~= sels.take(i as int));
                assert(sels.take(i + 1).last() == sel);
            }
            if sel.is_collapsed() {
                new_selections.push(sel);
                assert(split_pieces(t@, sel) =~= seq![sel]);
            } else {
                let r = sel.range();
                let l0 = match t.char_to_line(r.start) {
                    Some(l) => {
                        proof { lemma_line_index_valid(t@, r.start as int); }
                        l
                    },
                    None => 0,
                };
                let l1 = match t.char_to_line(r.end) {
                    Some(l) => {
                        proof { lemma_line_index_valid(t@, r.end as int); }
                        l
                    },
                    None => 0,
                };
                let ghost pieces = split_pieces(t@, sel);
                let ghost base = new_selections@;
                proof { lemma_newline_count_le_len(t@); }
                assert(l1 < usize::MAX);
                let mut line = l0;
                while l0 <= l1 && line <= l1
                    invariant
                        l1 < usize::MAX,
                        l0 <= l1 ==> line <= l1 + 1,
                        l0 > l1 ==> line == l0,
                        l0 <= line,
                        l1 < line_starts(t@).len(),
                        line_starts(t@).len() == newline_count(t@) + 1,
                        newline_count(t@) <= t@.len(),
                        t@.len() <= usize::MAX,
                        t.wf(),
                        pieces == split_pieces(t@, sel),
                        sel.anchor != sel.active,
                        l0 == or_default(line_index(t@, sel.spec_start() as int), 0),
                        l1 == or_default(line_index(t@, sel.spec_end() as int), 0),
                        new_selections@ == base + pieces.take(line - l0),
                    decreases l1 + 1 - line,
                {
                    proof { lemma_line_starts(t@); }
                    let ls = match t.line_to_char(line) { Some(x) => x, None => 0 };
                    let le = match t.line_to_char(line + 1) { Some(x) => x, None => t.len() };
                    let ll = le.saturating_sub(ls);
                    let pref = match sel.preferred_x { Some(x) => x, None => 0 };
                    let lim = ll.saturating_sub(1);
                    let ho = if pref < lim { pref } else { lim };
                    let a = ls + ho;
                    let caret_pos = if a < t.len() { a } else { t.len() };
                    new_selections.push(Selection::caret(caret_pos));
                    proof {
                        assert(pieces[line - l0] == line_caret(t@, sel, line as int));
                        assert(pieces.take(line + 1 - l0) =~= pieces.take(line - l0).push(pieces[line - l0]));
                    }
                    line = line + 1;
                }
                proof {
                    if l1 >= l0 {
                        assert(pieces.take(line - l0) =~= pieces);
                    } else {
                        assert(pieces.take(line - l0) =~= pieces);
                    }
                }
            }
            i = i + 1;
        }
        assert(sels.take(i as int) =~= sels);
        if new_selections.len() != 0 {
            let sorted = sort_unique(&new_selections, false);
            self.selections = sorted;
            self.primary_index = 0;
        }
    }
}

} // verus!
