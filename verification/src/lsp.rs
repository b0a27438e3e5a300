//! Conversion between character offsets and LSP positions (line, UTF-16 column), and
//! the plain data exchanged with a language server.

use vstd::prelude::*;
use vstd::utf8::{encode_utf8, encode_scalar};
use crate::edit::Range;
use crate::edit::{byte_len, str_byte_len};
use crate::project::{lowercase, to_lowercase, all_ascii, ascii_lowercase};
use crate::text::{str_eq, lemma_encode_utf8_append, lemma_slice_bytes_bound, chars_of, push_char, push_decimal, decimal, digit_char, min_int, string_of_chars};

verus! {

/// Number of UTF-16 code units of `c`: 2 above the Basic Multilingual Plane, else 1.
pub open spec fn utf16_width(c: char) -> int {
    if c as u32 >= 0x10000 { 2 } else { 1 }
}

/// Number of UTF-16 code units of `s`.
pub open spec fn utf16_len(s: Seq<char>) -> int
    decreases s.len(),
{
    if s.len() == 0 { 0 } else { utf16_len(s.drop_last()) + utf16_width(s.last()) }
}

/// Length of the first piece of `t` when splitting after each newline: up to and
/// including the first `\n`, or all of `t`.
pub open spec fn first_piece_len(t: Seq<char>) -> int
    decreases t.len(),
{
    if t.len() == 0 {
        0
    } else if t[0] == '\n' {
        1
    } else {
        1 + first_piece_len(t.drop_first())
    }
}

/// The lines of `t`: the pieces between newlines, without the newlines. A text with
/// `n` newlines has `n + 1` lines; after a final newline comes an empty line.
pub open spec fn lines_of(t: Seq<char>) -> Seq<Seq<char>>
    decreases t.len(),
{
    let k = first_piece_len(t);
    if 0 < k <= t.len() && t[k - 1] == '\n' {
        seq![t.take(k - 1)] + lines_of(t.skip(k))
    } else {
        seq![t]
    }
}

/// Line and UTF-16 column of the `rem`-th character counted over `ls`, where each line
/// is followed by one separator character; line -1 when `rem` lies past every line.
pub open spec fn position_in_lines(ls: Seq<Seq<char>>, rem: int) -> (int, int)
    decreases ls.len(),
{
    if ls.len() == 0 {
        (-1, 0)
    } else if rem <= ls[0].len() {
        (0, utf16_len(ls[0].take(rem)))
    } else {
        let (l, c) = position_in_lines(ls.drop_first(), rem - ls[0].len() - 1);
        if l < 0 { (l, c) } else { (l + 1, c) }
    }
}

/// The LSP position of character offset `o` (clamped to the text) in `t`: its line and
/// UTF-16 column within that line (the end of the text lies after the last character
/// of the last line).
pub open spec fn offset_to_position_spec(t: Seq<char>, o: int) -> (int, int) {
    let ls = lines_of(t);
    let (l, c) = position_in_lines(ls, min_int(o, t.len() as int));
    if l < 0 { (if ls.len() > 0 { ls.len() - 1 } else { 0 }, 0) } else { (l, c) }
}

/// Number of leading characters of `s` that start before UTF-16 column `col`.
pub open spec fn chars_before_column(s: Seq<char>, col: int) -> int
    decreases s.len(),
{
    if s.len() == 0 || col <= 0 { 0 } else { 1 + chars_before_column(s.drop_first(), col - utf16_width(s[0])) }
}

/// Character offset of LSP position (`line`, `col`) over `ls`, where each line but the
/// last is followed by one separator character; a column past the end of its line
/// stops at that end, and a line past the last gives the end of the last line.
pub open spec fn offset_in_lines(ls: Seq<Seq<char>>, line: int, col: int) -> int
    decreases ls.len(),
{
    if ls.len() == 0 {
        0
    } else if line == 0 {
        chars_before_column(ls[0], col)
    } else if ls.len() == 1 {
        ls[0].len() as int
    } else {
        ls[0].len() + 1 + offset_in_lines(ls.drop_first(), line - 1, col)
    }
}

/// The character offset of LSP position (`line`, `col`) in `t`.
pub open spec fn position_to_offset_spec(t: Seq<char>, line: int, col: int) -> int {
    offset_in_lines(lines_of(t), line, col)
}

/// Total of `|line| + 1` over the first `k` lines of `ls`.
pub open spec fn lines_total(ls: Seq<Seq<char>>, k: int) -> int
    decreases k,
{
    if k <= 0 || ls.len() == 0 { 0 } else { lines_total(ls, k - 1) + ls[k - 1].len() + 1 }
}

/// `first_piece_len` is one past the first newline, or the length.
proof fn lemma_first_piece_len(s: Seq<char>, m: int)
    requires
        0 <= m <= s.len(),
        forall|k: int| 0 <= k < m ==> s[k] != '\n',
        m == s.len() || s[m] == '\n',
    ensures
        first_piece_len(s) == if m < s.len() { m + 1 } else { m },
    decreases m,
{
    if m > 0 {
        lemma_first_piece_len(s.drop_first(), m - 1);
    }
}

/// `first_piece_len` of a non-empty text lies in `1..=len`.
proof fn lemma_first_piece_len_bounds(s: Seq<char>)
    requires
        s.len() > 0,
    ensures
        1 <= first_piece_len(s) <= s.len(),
        first_piece_len(s) < s.len() ==> s[first_piece_len(s) - 1] == '\n',
        s[first_piece_len(s) - 1] != '\n' ==> first_piece_len(s) == s.len(),
        forall|k: int| 0 <= k < first_piece_len(s) - 1 ==> s[k] != '\n',
    decreases s.len(),
{
    if s[0] == '\n' {
        assert(first_piece_len(s) == 1);
    } else if s.len() == 1 {
        assert(s.drop_first().len() == 0);
        assert(first_piece_len(s.drop_first()) == 0);
        assert(first_piece_len(s) == 1);
    } else {
        let d = s.drop_first();
        lemma_first_piece_len_bounds(d);
        assert(first_piece_len(s) == 1 + first_piece_len(d));
        assert(s[first_piece_len(s) - 1] == d[first_piece_len(d) - 1]);
        assert forall|k: int| 0 <= k < first_piece_len(s) - 1 implies s[k] != '\n' by {
            if k > 0 {
                assert(s[k] == d[k - 1]);
            }
        }
    }
}

/// A text has at least one line, and its lines with one separator after each add up
/// to one past the text.
proof fn lemma_lines_total_of_text(t: Seq<char>)
    ensures
        lines_of(t).len() >= 1,
        lines_total(lines_of(t), lines_of(t).len() as int) == t.len() + 1,
    decreases t.len(),
{
    let ls = lines_of(t);
    let k0 = first_piece_len(t);
    if t.len() > 0 {
        lemma_first_piece_len_bounds(t);
    }
    if 0 < k0 <= t.len() && t[k0 - 1] == '\n' {
        let rest = t.skip(k0);
        let l0 = t.take(k0 - 1);
        assert(ls == seq![l0] + lines_of(rest));
        lemma_lines_total_of_text(rest);
        lemma_lines_total_shift(l0, lines_of(rest), ls.len() as int);
    } else {
        assert(ls == seq![t]);
        assert(lines_total(ls, 0) == 0);
    }
}

/// Running totals of line lengths plus separators grow with the number of lines.
proof fn lemma_lines_total_mono(ls: Seq<Seq<char>>, k: int, m: int)
    requires
        0 <= k <= m <= ls.len(),
    ensures
        lines_total(ls, k) <= lines_total(ls, m),
    decreases m - k,
{
    if k < m {
        lemma_lines_total_mono(ls, k, m - 1);
    }
}

/// Every line is no longer than the text, and the running totals of line lengths plus
/// separators stay within one past the text.
proof fn lemma_lines_bounds(t: Seq<char>, k: int)
    requires
        0 <= k <= lines_of(t).len(),
    ensures
        lines_of(t).len() >= 1,
        lines_total(lines_of(t), k) <= t.len() + 1,
        k < lines_of(t).len() ==> lines_total(lines_of(t), k) + lines_of(t)[k].len() <= t.len(),
        forall|i: int| 0 <= i < lines_of(t).len() ==> #[trigger] lines_of(t)[i].len() <= t.len(),
{
    let ls = lines_of(t);
    lemma_lines_total_of_text(t);
    lemma_lines_total_mono(ls, k, ls.len() as int);
    if k < ls.len() {
        lemma_lines_total_mono(ls, k + 1, ls.len() as int);
    }
    assert forall|i: int| 0 <= i < ls.len() implies #[trigger] ls[i].len() <= t.len() by {
        lemma_lines_total_mono(ls, i + 1, ls.len() as int);
        lemma_lines_total_mono(ls, 0, i);
        assert(lines_total(ls, 0) == 0);
    }
}

/// Totals over a sequence with a line put in front shift by that line's length plus one.
proof fn lemma_lines_total_shift(l0: Seq<char>, rest: Seq<Seq<char>>, k: int)
    requires
        1 <= k <= rest.len() + 1,
    ensures
        lines_total(seq![l0] + rest, k) == l0.len() + 1 + lines_total(rest, k - 1),
    decreases k,
{
    let ls = seq![l0] + rest;
    assert(ls[0] == l0);
    assert(lines_total(ls, 0) == 0);
    assert(lines_total(rest, 0) == 0);
    assert(lines_total(ls, k) == lines_total(ls, k - 1) + ls[k - 1].len() + 1);
    if k > 1 {
        lemma_lines_total_shift(l0, rest, k - 1);
        assert(ls[k - 1] == rest[k - 2]);
        assert(lines_total(rest, k - 1) == lines_total(rest, k - 2) + rest[k - 2].len() + 1);
    }
}

/// The lines of `text`: the pieces between newlines.
pub fn lines_vec(text: &str) -> (v: Vec<Vec<char>>)
    ensures
        v@.map_values(|l: Vec<char>| l@) == lines_of(text@),
{
    let chars = chars_of(text);
    let n = chars.len();
    let ghost t = text@;
    let mut out: Vec<Vec<char>> = Vec::new();
    let mut i: usize = 0;
    let mut done = false;
    assert(t.skip(0) =~= t);
    while !done
        invariant
            chars@ == t,
            n == t.len(),
            i <= n,
            !done ==> out@.map_values(|l: Vec<char>| l@) + lines_of(t.skip(i as int)) == lines_of(t),
            done ==> out@.map_values(|l: Vec<char>| l@) == lines_of(t),
        decreases n - i + if done { 0int } else { 1int },
    {
        let ghost s = t.skip(i as int);
        let mut j = i;
        while j < n && chars[j] != '\n'
            invariant
                i <= j <= n,
                chars@ == t,
                n == t.len(),
                forall|k: int| i <= k < j ==> t[k] != '\n',
            decreases n - j,
        {
            j = j + 1;
        }
        proof {
            lemma_first_piece_len(s, (j - i) as int);
        }
        let mut line: Vec<char> = Vec::new();
        let mut k = i;
        while k < j
            invariant
                i <= k <= j <= n,
                n == t.len(),
                chars@ == t,
                line@ == t.subrange(i as int, k as int),
            decreases j - k,
        {
            line.push(chars[k]);
            assert(t.subrange(i as int, k + 1) =~= t.subrange(i as int, k as int).push(t[k as int]));
            k = k + 1;
        }
        let ghost before = out@;
        out.push(line);
        proof {
            assert(out@.map_values(|l: Vec<char>| l@) =~= before.map_values(|l: Vec<char>| l@).push(t.subrange(i as int, j as int)));
        }
        if j == n {
            proof {
                assert(s =~= t.subrange(i as int, j as int));
                assert(lines_of(s) == seq![s]);
                let ov = out@.map_values(|l: Vec<char>| l@);
                let bv = before.map_values(|l: Vec<char>| l@);
                assert(ov =~= bv + lines_of(s));
                assert(bv + lines_of(s) == lines_of(t));
                assert(ov == lines_of(t));
            }
            done = true;
        } else {
            proof {
                let k0 = first_piece_len(s);
                assert(k0 == j + 1 - i);
                assert(s.take(k0 - 1) =~= t.subrange(i as int, j as int));
                assert(s.skip(k0) =~= t.skip(j + 1));
                assert(lines_of(s) == seq![s.take(k0 - 1)] + lines_of(s.skip(k0)));
                assert(out@.map_values(|l: Vec<char>| l@) + lines_of(t.skip(j + 1)) =~= before.map_values(|l: Vec<char>| l@) + lines_of(s));
            }
            i = j + 1;
        }
    }
    out
}


/// A prefix one longer adds the UTF-16 width of its last character; the UTF-16 length
/// is at most twice the number of characters.
proof fn lemma_utf16_len_step(s: Seq<char>, k: int)
    requires
        0 <= k < s.len(),
    ensures
        utf16_len(s.take(k + 1)) == utf16_len(s.take(k)) + utf16_width(s[k]),
{
    assert(s.take(k + 1).drop_last() =~= s.take(k));
}

/// The UTF-16 length of `s` lies between its length and twice its length.
proof fn lemma_utf16_len_bounds(s: Seq<char>)
    ensures
        s.len() <= utf16_len(s) <= 2 * s.len(),
    decreases s.len(),
{
    if s.len() > 0 {
        lemma_utf16_len_bounds(s.drop_last());
    }
}

/// `chars_before_column` never exceeds the number of characters.
proof fn lemma_chars_before_column_bound(s: Seq<char>, col: int)
    ensures
        0 <= chars_before_column(s, col) <= s.len(),
    decreases s.len(),
{
    if s.len() > 0 && col > 0 {
        lemma_chars_before_column_bound(s.drop_first(), col - utf16_width(s[0]));
    }
}

/// Moves a line and its UTF-16 column up by `k` lines; past-the-end stays as it is.
pub open spec fn shift_line(p: (int, int), k: int) -> (int, int) {
    if p.0 < 0 { p } else { (p.0 + k, p.1) }
}

/// A character takes at least as many UTF-8 bytes as UTF-16 units, so a text's UTF-16
/// length is at most its byte length.
pub proof fn lemma_utf16_le_bytes(s: Seq<char>)
    ensures
        utf16_len(s) <= byte_len(s),
    decreases s.len(),
{
    if s.len() > 0 {
        lemma_utf16_le_bytes(s.drop_last());
        let one = seq![s.last()];
        assert(s =~= s.drop_last() + one);
        lemma_encode_utf8_append(s.drop_last(), one);
        assert(one.drop_first() =~= Seq::<char>::empty());
        assert(encode_utf8(one.drop_first()) =~= Seq::<u8>::empty());
        assert(encode_utf8(one) =~= encode_scalar(s.last() as u32));
    }
}

/// A prefix has at most the UTF-16 length of the whole.
proof fn lemma_utf16_prefix_le(s: Seq<char>, k: int)
    requires
        0 <= k <= s.len(),
    ensures
        utf16_len(s.take(k)) <= utf16_len(s),
{
    assert(s =~= s.take(k) + s.skip(k));
    lemma_utf16_len_append(s.take(k), s.skip(k));
    lemma_utf16_len_bounds(s.skip(k));
}

/// Every line of a text takes at most the bytes of the text.
proof fn lemma_lines_bytes(t: Seq<char>)
    ensures
        forall|i: int| 0 <= i < lines_of(t).len() ==> #[trigger] byte_len(lines_of(t)[i]) <= byte_len(t),
    decreases t.len(),
{
    let ls = lines_of(t);
    let k0 = first_piece_len(t);
    if t.len() > 0 {
        lemma_first_piece_len_bounds(t);
    }
    if 0 < k0 <= t.len() && t[k0 - 1] == '\n' {
        let rest = t.skip(k0);
        let l0 = t.take(k0 - 1);
        assert(ls == seq![l0] + lines_of(rest));
        lemma_slice_bytes_bound(t, 0, k0 - 1);
        assert(t.subrange(0, k0 - 1) =~= l0);
        lemma_slice_bytes_bound(t, k0, t.len() as int);
        assert(t.subrange(k0, t.len() as int) =~= rest);
        lemma_lines_bytes(rest);
        assert forall|i: int| 0 <= i < ls.len() implies #[trigger] byte_len(ls[i]) <= byte_len(t) by {
            if i > 0 {
                assert(ls[i] == lines_of(rest)[i - 1]);
            }
        }
    } else {
        assert(ls == seq![t]);
    }
}

/// The UTF-16 length of the first `n` characters of `line`.
fn utf16_prefix_len(line: &Vec<char>, n: usize) -> (w: usize)
    requires
        n <= line.len(),
        utf16_len(line@) <= usize::MAX,
    ensures
        w == utf16_len(line@.take(n as int)),
{
    let mut w: usize = 0;
    let mut j: usize = 0;
    while j < n
        invariant
            j <= n <= line.len(),
            utf16_len(line@) <= usize::MAX,
            w == utf16_len(line@.take(j as int)),
        decreases n - j,
    {
        proof {
            lemma_utf16_len_step(line@, j as int);
            lemma_utf16_prefix_le(line@, j + 1);
        }
        let c = line[j];
        if c as u32 >= 0x10000 {
            w = w + 2;
        } else {
            w = w + 1;
        }
        j = j + 1;
    }
    w
}

/// Converts a character offset to an LSP position: the line of the offset (clamped to
/// the text) and its column in UTF-16 code units.
pub fn offset_to_position(text: &str, char_offset: usize) -> (r: (usize, usize))
    ensures
        (r.0 as int, r.1 as int) == offset_to_position_spec(text@, char_offset as int),
{
    let _bytes = str_byte_len(text);
    let ghost t = text@;
    let n = chars_of(text).len();
    let co = if char_offset < n { char_offset } else { n };
    let lines = lines_vec(text);
    let ghost ls = lines_of(t);
    proof {
        lemma_lines_bounds(t, 0);
        lemma_lines_bytes(t);
    }
    let mut remaining = co;
    let mut idx: usize = 0;
    let mut found = false;
    let mut result: (usize, usize) = (0, 0);
    assert(ls.skip(0) =~= ls);
    while idx < lines.len() && !found
        invariant
            lines@.map_values(|l: Vec<char>| l@) == ls,
            ls == lines_of(t),
            byte_len(t) <= usize::MAX,
            forall|i: int| 0 <= i < ls.len() ==> #[trigger] byte_len(ls[i]) <= byte_len(t),
            idx <= lines.len(),
            forall|i: int| 0 <= i < ls.len() ==> #[trigger] ls[i].len() <= t.len(),
            !found ==> position_in_lines(ls, co as int) == shift_line(position_in_lines(ls.skip(idx as int), remaining as int), idx as int),
            found ==> (result.0 as int, result.1 as int) == position_in_lines(ls, co as int),
        decreases lines.len() - idx + if found { 0int } else { 1int },
    {
        let lc = lines[idx].len();
        assert(lines@[idx as int]@ == ls[idx as int]);
        let ghost rest = ls.skip(idx as int);
        assert(rest[0] == ls[idx as int]);
        if remaining <= lc {
            proof {
                lemma_utf16_le_bytes(ls[idx as int]);
            }
            let w = utf16_prefix_len(&lines[idx], remaining);
            result = (idx, w);
            found = true;
        } else {
            assert(rest.drop_first() =~= ls.skip(idx + 1));
            remaining = remaining - (lc + 1);
            idx = idx + 1;
        }
    }
    if found {
        result
    } else {
        assert(ls.skip(idx as int).len() == 0);
        let count = lines.len();
        if count > 0 { (count - 1, 0) } else { (0, 0) }
    }
}

/// Converts an LSP position (line, UTF-16 column) to a character offset: a column past
/// the end of its line stops at that end, and a line past the last gives the end of the
/// text.
pub fn position_to_offset(text: &str, line: usize, utf16_col: usize) -> (r: usize)
    ensures
        r as int == position_to_offset_spec(text@, line as int, utf16_col as int),
        r <= text@.len(),
{
    let ghost t = text@;
    let _n = text.unicode_len();
    let lines = lines_vec(text);
    let ghost ls = lines_of(t);
    proof {
        lemma_lines_bounds(t, 0);
        assert(lines@.map_values(|l: Vec<char>| l@).len() == lines@.len());
    }
    let mut offset: usize = 0;
    let mut idx: usize = 0;
    let mut found = false;
    let mut result: usize = 0;
    assert(ls.skip(0) =~= ls);
    while idx < lines.len() && !found
        invariant
            lines@.map_values(|l: Vec<char>| l@) == ls,
            ls == lines_of(t),
            t.len() <= usize::MAX,
            lines@.len() == ls.len(),
            ls.len() >= 1,
            idx <= lines.len(),
            !found ==> idx < lines.len(),
            offset as int == lines_total(ls, idx as int),
            idx <= line,
            !found ==> offset_in_lines(ls, line as int, utf16_col as int) == offset + offset_in_lines(ls.skip(idx as int), line - idx, utf16_col as int),
            found ==> result as int == offset_in_lines(ls, line as int, utf16_col as int),
            found ==> result <= t.len(),
        decreases lines.len() - idx + if found { 0int } else { 1int },
    {
        proof {
            lemma_lines_bounds(t, idx as int);
        }
        let ghost rest = ls.skip(idx as int);
        assert(lines@[idx as int]@ == ls[idx as int]);
        assert(rest[0] == ls[idx as int]);
        let lc = lines[idx].len();
        if idx == line {
            let cnt = chars_before(&lines[idx], utf16_col);
            proof {
                lemma_chars_before_column_bound(ls[idx as int], utf16_col as int);
            }
            result = offset + cnt;
            found = true;
        } else if idx + 1 == lines.len() {
            assert(rest.len() == 1);
            result = offset + lc;
            found = true;
        } else {
            proof {
                lemma_lines_bounds(t, idx + 1);
            }
            assert(rest.drop_first() =~= ls.skip(idx + 1));
            assert(lines_total(ls, idx + 1) == lines_total(ls, idx as int) + ls[idx as int].len() + 1);
            offset = offset + lc + 1;
            idx = idx + 1;
        }
    }
    if found {
        result
    } else {
        offset
    }
}

/// Number of leading characters of `line` that start before UTF-16 column `col`.
fn chars_before(line: &Vec<char>, col: usize) -> (n: usize)
    ensures
        n as int == chars_before_column(line@, col as int),
{
    let mut count: usize = 0;
    let mut left = col;
    assert(line@.skip(0) =~= line@);
    while count < line.len() && left > 0
        invariant
            count <= line.len(),
            count + chars_before_column(line@.skip(count as int), left as int) == chars_before_column(line@, col as int),
        decreases line.len() - count,
    {
        let ghost rest = line@.skip(count as int);
        assert(rest[0] == line@[count as int]);
        assert(rest.drop_first() =~= line@.skip(count + 1));
        let c = line[count];
        let w: usize = if c as u32 >= 0x10000 { 2 } else { 1 };
        assert(w as int == utf16_width(c));
        assert(chars_before_column(rest, left as int) == 1 + chars_before_column(rest.drop_first(), left - w));
        left = if left > w { left - w } else { 0 };
        assert(chars_before_column(rest.drop_first(), left as int) == chars_before_column(line@.skip(count + 1), left as int));
        count = count + 1;
    }
    count
}


/// UTF-16 length distributes over concatenation.
pub proof fn lemma_utf16_len_append(a: Seq<char>, b: Seq<char>)
    ensures
        utf16_len(a + b) == utf16_len(a) + utf16_len(b),
    decreases b.len(),
{
    if b.len() == 0 {
        assert(a + b =~= a);
    } else {
        assert((a + b).drop_last() =~= a + b.drop_last());
        lemma_utf16_len_append(a, b.drop_last());
    }
}

/// The column of the `r`-th character, read back as a character count, is `r`.
proof fn lemma_chars_before_utf16_prefix(s: Seq<char>, r: int)
    requires
        0 <= r <= s.len(),
    ensures
        chars_before_column(s, utf16_len(s.take(r))) == r,
    decreases r,
{
    if r > 0 {
        let d = s.drop_first();
        assert(s.take(r) =~= seq![s[0]] + d.take(r - 1));
        lemma_utf16_len_append(seq![s[0]], d.take(r - 1));
        let one = seq![s[0]];
        assert(one.drop_last() =~= Seq::<char>::empty());
        assert(utf16_len(one.drop_last()) == 0);
        assert(one.last() == s[0]);
        assert(utf16_len(seq![s[0]]) == utf16_width(s[0]));
        lemma_utf16_len_bounds(d.take(r - 1));
        lemma_chars_before_utf16_prefix(d, r - 1);
    } else {
        assert(s.take(0).len() == 0);
    }
}

/// Reading back a position that lies on a line gives the character count it came from.
proof fn lemma_position_in_lines_back(ls: Seq<Seq<char>>, rem: int)
    requires
        0 <= rem,
        position_in_lines(ls, rem).0 >= 0,
    ensures
        offset_in_lines(ls, position_in_lines(ls, rem).0, position_in_lines(ls, rem).1) == rem,
    decreases ls.len(),
{
    if rem <= ls[0].len() {
        lemma_chars_before_utf16_prefix(ls[0], rem);
    } else {
        lemma_position_in_lines_back(ls.drop_first(), rem - ls[0].len() - 1);
    }
}

/// A count lands on a line exactly when it is below the total of the lines and their
/// separators.
proof fn lemma_position_in_lines_on_line(ls: Seq<Seq<char>>, rem: int)
    requires
        0 <= rem < lines_total(ls, ls.len() as int),
    ensures
        position_in_lines(ls, rem).0 >= 0,
    decreases ls.len(),
{
    assert(ls =~= seq![ls[0]] + ls.drop_first());
    lemma_lines_total_shift(ls[0], ls.drop_first(), ls.len() as int);
    if rem > ls[0].len() {
        lemma_position_in_lines_on_line(ls.drop_first(), rem - ls[0].len() - 1);
    }
}

/// Converting a character offset to an LSP position and back gives the offset again,
/// for every offset within the text.
pub proof fn law_position_roundtrip(t: Seq<char>, o: int)
    requires
        0 <= o <= t.len(),
    ensures
        position_to_offset_spec(t, offset_to_position_spec(t, o).0, offset_to_position_spec(t, o).1) == o,
{
    let ls = lines_of(t);
    lemma_lines_total_of_text(t);
    lemma_position_in_lines_on_line(ls, o);
    lemma_position_in_lines_back(ls, o);
}


/// `s` with every backslash turned into a forward slash.
pub open spec fn forward_slashes(s: Seq<char>) -> Seq<char> {
    s.map_values(|c: char| if c == '\\' { '/' } else { c })
}

/// The `file://` URI of a directory path: the path with forward slashes, after
/// `file://` when it starts with `/` and after `file:///` otherwise.
pub open spec fn file_uri(root: Seq<char>) -> Seq<char> {
    let path = forward_slashes(root);
    if path.len() > 0 && path[0] == '/' {
        "file://"@ + path
    } else {
        "file:///"@ + path
    }
}

/// How to start a language server and what it serves.
#[derive(Debug, Clone)]
pub struct LspConfig {
    pub command: String,
    pub args: Vec<String>,
    pub root_uri: String,
    pub language_id: String,
}

impl LspConfig {
    /// The configuration for rust-analyzer serving the project at `root`.
    pub fn rust_analyzer(root: &str) -> (c: Self)
        ensures
            c.command@ == "rust-analyzer"@,
            c.args@.len() == 0,
            c.root_uri@ == file_uri(root@),
            c.language_id@ == "rust"@,
    {
        let chars = chars_of(root);
        let mut path = String::new();
        let mut i: usize = 0;
        while i < chars.len()
            invariant
                i <= chars.len(),
                chars@ == root@,
                path@ == forward_slashes(root@.take(i as int)),
            decreases chars.len() - i,
        {
            let c = chars[i];
            let d = if c == '\\' { '/' } else { c };
            push_char(&mut path, d);
            assert(forward_slashes(root@.take(i + 1)) =~= forward_slashes(root@.take(i as int)).push(d));
            i = i + 1;
        }
        assert(root@.take(chars.len() as int) =~= root@);
        let absolute = chars.len() > 0 && (chars[0] == '/' || chars[0] == '\\');
        let mut root_uri = String::new();
        if absolute {
            root_uri.append("file://");
        } else {
            root_uri.append("file:///");
        }
        root_uri.append(path.as_str());
        LspConfig {
            command: String::from_str("rust-analyzer"),
            args: Vec::new(),
            root_uri,
            language_id: String::from_str("rust"),
        }
    }
}

/// A place in a document: its URI and a character range.
#[derive(Debug, Clone)]
pub struct Location {
    pub uri: String,
    pub range: Range,
}

/// A completion offered by a language server.
#[derive(Debug, Clone)]
pub struct CompletionItem {
    pub label: String,
    pub kind: Option<String>,
    pub detail: Option<String>,
    pub insert_text: Option<String>,
    pub additional_edits: Vec<(Range, String)>,
}

/// The characters held by an optional string.
pub open spec fn opt_chars(o: Option<String>) -> Option<Seq<char>> {
    match o {
        Some(s) => Some(s@),
        None => None,
    }
}

impl CompletionItem {
    /// The completion a server reported with these fields: an absent label is empty, the
    /// kind is written in decimal, the text to insert defaults to the label, and there
    /// are no additional edits.
    pub fn from_fields(label: Option<String>, kind: Option<u64>, detail: Option<String>, insert_text: Option<String>) -> (c: Self)
        ensures
            c.label@ == match label { Some(l) => l@, None => Seq::<char>::empty() },
            opt_chars(c.kind) == match kind { Some(k) => Some(decimal(k as nat)), None => None },
            opt_chars(c.detail) == opt_chars(detail),
            opt_chars(c.insert_text) == match insert_text { Some(t) => Some(t@), None => opt_chars(label) },
            c.additional_edits@.len() == 0,
    {
        let label_text = match &label {
            Some(l) => l.clone(),
            None => String::new(),
        };
        let kind_text = match kind {
            Some(k) => {
                let mut s = String::new();
                push_decimal(&mut s, k as u128);
                Some(s)
            },
            None => None,
        };
        let insert = match insert_text {
            Some(t) => Some(t),
            None => label,
        };
        CompletionItem { label: label_text, kind: kind_text, detail, insert_text: insert, additional_edits: Vec::new() }
    }
}

/// Hover text and the character range it is about.
#[derive(Debug, Clone)]
pub struct HoverInfo {
    pub contents: String,
    pub range: Option<Range>,
}

/// A message as it is sent to a language server: a `Content-Length` header with the
/// body's length in bytes, a blank line, then the body.
pub open spec fn framed(body: Seq<char>) -> Seq<char> {
    "Content-Length: "@ + decimal(byte_len(body)) + "\r\n\r\n"@ + body
}

/// Frames `body` as a message for a language server.
pub fn frame_message(body: &str) -> (s: String)
    ensures
        s@ == framed(body@),
{
    let n = str_byte_len(body);
    let mut s = String::new();
    s.append("Content-Length: ");
    push_decimal(&mut s, n as u128);
    s.append("\r\n\r\n");
    s.append(body);
    s
}

/// Whether `c` has the Unicode `White_Space` property, the whitespace of `str::trim`.
pub open spec fn is_white_space(c: char) -> bool {
    let u = c as int;
    ||| 0x9 <= u <= 0xD
    ||| u == 0x20 || u == 0x85 || u == 0xA0 || u == 0x1680
    ||| 0x2000 <= u <= 0x200A
    ||| u == 0x2028 || u == 0x2029 || u == 0x202F || u == 0x205F || u == 0x3000
}

/// `s` without its leading whitespace.
pub open spec fn trim_start_ws(s: Seq<char>) -> Seq<char>
    decreases s.len(),
{
    if s.len() > 0 && is_white_space(s[0]) { trim_start_ws(s.drop_first()) } else { s }
}

/// `s` without its trailing whitespace.
pub open spec fn trim_end_ws(s: Seq<char>) -> Seq<char>
    decreases s.len(),
{
    if s.len() > 0 && is_white_space(s.last()) { trim_end_ws(s.drop_last()) } else { s }
}

/// `s` with leading and trailing whitespace removed, as `str::trim` gives it.
pub open spec fn trim_whitespace(s: Seq<char>) -> Seq<char> {
    trim_end_ws(trim_start_ws(s))
}

/// Whether `c` is whitespace in the sense of `str::trim`.
fn white_space(c: char) -> (b: bool)
    ensures
        b == is_white_space(c),
{
    let u = c as u32;
    (0x9 <= u && u <= 0xD) || u == 0x20 || u == 0x85 || u == 0xA0 || u == 0x1680 || (0x2000 <= u && u <= 0x200A)
        || u == 0x2028 || u == 0x2029 || u == 0x202F || u == 0x205F || u == 0x3000
}

/// `s` with leading and trailing whitespace removed.
pub fn trim(s: &str) -> (r: String)
    ensures
        r@ == trim_whitespace(s@),
{
    let chars = chars_of(s);
    let n = chars.len();
    let mut a: usize = 0;
    assert(s@.skip(0) =~= s@);
    while a < n && white_space(chars[a])
        invariant
            a <= n,
            n == s@.len(),
            chars@ == s@,
            trim_start_ws(s@) == trim_start_ws(s@.skip(a as int)),
        decreases n - a,
    {
        assert(s@.skip(a as int).drop_first() =~= s@.skip(a + 1));
        a = a + 1;
    }
    let ghost front = s@.skip(a as int);
    assert(trim_start_ws(s@) == front);
    let mut b: usize = n;
    assert(front.take(n - a) =~= front);
    while b > a && white_space(chars[b - 1])
        invariant
            a <= b <= n,
            n == s@.len(),
            chars@ == s@,
            front == s@.skip(a as int),
            trim_end_ws(front) == trim_end_ws(front.take(b - a)),
        decreases b - a,
    {
        assert(front.take(b - a).drop_last() =~= front.take(b - 1 - a));
        assert(front.take(b - a).last() == chars@[b - 1]);
        b = b - 1;
    }
    assert(trim_end_ws(front.take(b - a)) == front.take(b - a)) by {
        if b > a {
            assert(front.take(b - a).last() == chars@[b - 1]);
        }
    }
    assert(front.take(b - a) =~= chars@.subrange(a as int, b as int));
    string_of_chars(&chars, a, b)
}

/// Whether `s` begins with `p`.
pub open spec fn has_prefix(s: Seq<char>, p: Seq<char>) -> bool {
    s.len() >= p.len() && s.take(p.len() as int) == p
}

/// `s` with every leading repetition of the non-empty pattern `p` removed.
pub open spec fn strip_prefixes(s: Seq<char>, p: Seq<char>) -> Seq<char>
    decreases s.len(),
{
    if p.len() > 0 && has_prefix(s, p) {
        strip_prefixes(s.skip(p.len() as int), p)
    } else {
        s
    }
}

/// Whether every character of `d` is an ASCII digit.
pub open spec fn all_digits(d: Seq<char>) -> bool {
    forall|i: int| 0 <= i < d.len() ==> '0' <= #[trigger] d[i] <= '9'
}

/// The value of the decimal digits `d`.
pub open spec fn digits_value(d: Seq<char>) -> nat
    decreases d.len(),
{
    if d.len() == 0 {
        0
    } else {
        digits_value(d.drop_last()) * 10 + (d.last() as nat - '0' as nat) as nat
    }
}

/// `s` read as a `usize` the way `str::parse` reads it: an optional `+`, then one or
/// more decimal digits whose value fits.
pub open spec fn parsed_usize(s: Seq<char>) -> Option<usize> {
    let d = if s.len() > 0 && s[0] == '+' { s.drop_first() } else { s };
    if d.len() > 0 && all_digits(d) && digits_value(d) <= usize::MAX {
        Some(digits_value(d) as usize)
    } else {
        None
    }
}

/// The value of digits only grows as digits are added.
proof fn lemma_digits_value_mono(d: Seq<char>, k: int)
    requires
        0 <= k <= d.len(),
        all_digits(d),
    ensures
        digits_value(d.take(k)) <= digits_value(d),
    decreases d.len() - k,
{
    if k < d.len() {
        lemma_digits_value_mono(d, k + 1);
        assert(d.take(k + 1).drop_last() =~= d.take(k));
        assert('0' <= d[k] <= '9');
    } else {
        assert(d.take(k) =~= d);
    }
}

/// Whether `s` begins with `p`.
fn starts_with(s: &Vec<char>, p: &Vec<char>) -> (b: bool)
    ensures
        b == has_prefix(s@, p@),
{
    if s.len() < p.len() {
        return false;
    }
    let mut i: usize = 0;
    while i < p.len()
        invariant
            i <= p.len() <= s.len(),
            forall|k: int| 0 <= k < i ==> s@[k] == p@[k],
        decreases p.len() - i,
    {
        if s[i] != p[i] {
            assert(s@.take(p.len() as int)[i as int] != p@[i as int]);
            return false;
        }
        i = i + 1;
    }
    assert(s@.take(p.len() as int) =~= p@);
    true
}

/// Removes every leading repetition of the non-empty pattern `p` from `s`.
fn strip_all(s: &Vec<char>, p: &Vec<char>) -> (r: Vec<char>)
    requires
        p.len() > 0,
    ensures
        r@ == strip_prefixes(s@, p@),
{
    let mut start: usize = 0;
    let mut done = false;
    assert(s@.skip(0) =~= s@);
    while !done && p.len() <= s.len() - start
        invariant
            start <= s.len(),
            p.len() > 0,
            strip_prefixes(s@, p@) == if done { s@.skip(start as int) } else { strip_prefixes(s@.skip(start as int), p@) },
        decreases s.len() - start + if done { 0int } else { 1int },
    {
        let mut i: usize = 0;
        let mut same = true;
        while i < p.len() && same
            invariant
                start + p.len() <= s.len(),
                i <= p.len(),
                same ==> forall|k: int| 0 <= k < i ==> s@[start + k] == p@[k],
                !same ==> s@.skip(start as int).take(p.len() as int) != p@,
            decreases p.len() - i + if same { 1int } else { 0int },
        {
            if s[start + i] != p[i] {
                same = false;
                assert(s@.skip(start as int).take(p.len() as int)[i as int] != p@[i as int]);
            } else {
                i = i + 1;
            }
        }
        let ghost rest = s@.skip(start as int);
        if same {
            assert(rest.take(p.len() as int) =~= p@);
            assert(rest.skip(p.len() as int) =~= s@.skip(start + p.len()));
            start = start + p.len();
        } else {
            done = true;
        }
    }
    if !done {
        let ghost rest = s@.skip(start as int);
        assert(!has_prefix(rest, p@));
    }
    let mut r: Vec<char> = Vec::new();
    let mut j: usize = start;
    while j < s.len()
        invariant
            start <= j <= s.len(),
            r@ == s@.subrange(start as int, j as int),
        decreases s.len() - j,
    {
        r.push(s[j]);
        assert(s@.subrange(start as int, j + 1) =~= s@.subrange(start as int, j as int).push(s@[j as int]));
        j = j + 1;
    }
    assert(s@.subrange(start as int, j as int) =~= s@.skip(start as int));
    r
}

/// Reads `s` as a `usize` the way `str::parse` does.
pub fn parse_usize(s: &Vec<char>) -> (r: Option<usize>)
    ensures
        r == parsed_usize(s@),
{
    let from: usize = if s.len() > 0 && s[0] == '+' { 1 } else { 0 };
    let ghost d = if s@.len() > 0 && s@[0] == '+' { s@.drop_first() } else { s@ };
    assert(d =~= s@.skip(from as int));
    if from >= s.len() {
        return None;
    }
    let mut v: usize = 0;
    let mut i: usize = from;
    assert(d.take(0) =~= Seq::<char>::empty());
    while i < s.len()
        invariant
            from <= i <= s.len(),
            d == s@.skip(from as int),
            d == (if s@.len() > 0 && s@[0] == '+' { s@.drop_first() } else { s@ }),
            d.len() > 0,
            all_digits(d.take(i - from)),
            v as nat == digits_value(d.take(i - from)),
        decreases s.len() - i,
    {
        let c = s[i];
        assert(d[i - from] == c);
        if c < '0' || c > '9' {
            assert(!('0' <= d[i - from] <= '9'));
            assert(!all_digits(d));
            return None;
        }
        assert(d.take(i - from + 1).drop_last() =~= d.take(i - from));
        assert(digits_value(d.take(i - from + 1)) == digits_value(d.take(i - from)) * 10 + (c as nat - '0' as nat) as nat);
        let digit = (c as u32 - '0' as u32) as usize;
        match v.checked_mul(10) {
            None => {
                proof {
                    assert(d.take(i - from + 1).last() == c);
                    if all_digits(d) {
                        lemma_digits_value_mono(d, i - from + 1);
                    }
                }
                return None;
            },
            Some(m) => match m.checked_add(digit) {
                None => {
                    proof {
                        assert(d.take(i - from + 1).last() == c);
                        if all_digits(d) {
                            lemma_digits_value_mono(d, i - from + 1);
                        }
                    }
                    return None;
                },
                Some(w) => {
                    v = w;
                },
            },
        }
        assert(d.take(i - from + 1).last() == c);
        i = i + 1;
    }
    assert(d.take(i - from) =~= d);
    Some(v)
}

/// The content length known after reading header line `line` with `cl` known before:
/// none at the blank line that ends the headers, the length read from a
/// `Content-Length` line (0 when it does not parse), else `cl` unchanged.
pub open spec fn header_step(cl: usize, line: Seq<char>) -> Option<usize> {
    let t = trim_whitespace(line);
    if t.len() == 0 {
        None
    } else if has_prefix(lowercase(t), "content-length:"@) {
        let v = trim_whitespace(strip_prefixes(strip_prefixes(t, "Content-Length:"@), "content-length:"@));
        Some(match parsed_usize(v) { Some(n) => n, None => 0 })
    } else {
        Some(cl)
    }
}

/// Reads one header line of a language server's reply.
pub fn read_header_line(cl: usize, line: &str) -> (r: Option<usize>)
    ensures
        r == header_step(cl, line@),
{
    let t = trim(line);
    if t.as_str().is_empty() {
        return None;
    }
    let low = chars_of(to_lowercase(t.as_str()).as_str());
    let key = chars_of("content-length:");
    if starts_with(&low, &key) {
        let tc = chars_of(t.as_str());
        let upper = chars_of("Content-Length:");
        proof {
            reveal_strlit("Content-Length:");
            reveal_strlit("content-length:");
        }
        let a = strip_all(&tc, &upper);
        let b = strip_all(&a, &key);
        let bs = string_of_chars(&b, 0, b.len());
        assert(b@.subrange(0, b.len() as int) =~= b@);
        let v = trim(bs.as_str());
        let vc = chars_of(v.as_str());
        match parse_usize(&vc) {
            Some(n) => Some(n),
            None => Some(0),
        }
    } else {
        Some(cl)
    }
}

/// A decimal numeral consists of digits and reads back as its number.
proof fn lemma_decimal_digits(n: nat)
    ensures
        decimal(n).len() > 0,
        all_digits(decimal(n)),
        digits_value(decimal(n)) == n,
        decimal(n)[0] != '+',
        forall|i: int| 0 <= i < decimal(n).len() ==> !is_white_space(#[trigger] decimal(n)[i]) && (decimal(n)[i] as int) < 0x80,
    decreases n,
{
    if n < 10 {
        let d = decimal(n);
        assert(d =~= seq![digit_char(n)]);
        assert(d.drop_last() =~= Seq::<char>::empty());
        assert(digits_value(d.drop_last()) == 0);
    } else {
        lemma_decimal_digits(n / 10);
        let p = decimal(n / 10);
        let d = decimal(n);
        assert(d == p.push(digit_char(n % 10)));
        assert(d.drop_last() =~= p);
        assert forall|i: int| 0 <= i < d.len() implies '0' <= #[trigger] d[i] <= '9' by {
            if i < p.len() {
                assert(d[i] == p[i]);
            }
        }
        assert forall|i: int| 0 <= i < d.len() implies !is_white_space(#[trigger] d[i]) && (d[i] as int) < 0x80 by {
            if i < p.len() {
                assert(d[i] == p[i]);
            }
        }
        assert(d[0] == p[0]);
    }
}

/// The header line of a message whose body takes `n` bytes, with its line ending.
pub open spec fn header_line(n: nat) -> Seq<char> {
    "Content-Length: "@ + decimal(n) + "\r\n"@
}

/// Trailing whitespace after text that ends in a non-whitespace character is dropped
/// exactly.
proof fn lemma_trim_end_suffix(x: Seq<char>, w: Seq<char>)
    requires
        x.len() > 0,
        !is_white_space(x.last()),
        forall|i: int| 0 <= i < w.len() ==> is_white_space(#[trigger] w[i]),
    ensures
        trim_end_ws(x + w) == x,
    decreases w.len(),
{
    if w.len() == 0 {
        assert(x + w =~= x);
    } else {
        assert((x + w).drop_last() =~= x + w.drop_last());
        assert((x + w).last() == w.last());
        lemma_trim_end_suffix(x, w.drop_last());
    }
}

/// A framed message is its header line, a blank line and the body; reading the header
/// line back gives the body's length in bytes, and the blank line ends the headers.
pub proof fn law_header_reads_back(body: Seq<char>, cl: usize)
    requires
        byte_len(body) <= usize::MAX,
    ensures
        framed(body) == header_line(byte_len(body)) + "\r\n"@ + body,
        header_step(cl, header_line(byte_len(body))) == Some(byte_len(body) as usize),
        header_step(cl, "\r\n"@) == None::<usize>,
{
    let n = byte_len(body);
    let d = decimal(n);
    reveal_strlit("Content-Length: ");
    reveal_strlit("Content-Length:");
    reveal_strlit("content-length:");
    reveal_strlit("\r\n");
    reveal_strlit("\r\n\r\n");
    lemma_decimal_digits(n);
    let head = "Content-Length: "@;
    let crlf = "\r\n"@;
    assert("\r\n\r\n"@ =~= crlf + crlf);
    assert(framed(body) =~= header_line(n) + crlf + body);
    let line = header_line(n);
    let t = head + d;
    assert(line =~= t + crlf);
    // trimming the header line
    assert(trim_start_ws(line) == line);
    assert(t.last() == d.last());
    assert(!is_white_space(d[d.len() - 1]));
    lemma_trim_end_suffix(t, crlf);
    assert(trim_whitespace(line) == t);
    // the lowercase form of the trimmed line
    assert forall|i: int| 0 <= i < t.len() implies (#[trigger] t[i] as int) < 0x80 by {
        if i >= head.len() {
            assert(t[i] == d[i - head.len()]);
        }
    }
    assert(all_ascii(t));
    let low = ascii_lowercase(t);
    let key = "content-length:"@;
    assert(low.take(key.len() as int) =~= key);
    assert(has_prefix(lowercase(t), key));
    // stripping the key and trimming leaves the digits
    let upper = "Content-Length:"@;
    assert(t.take(upper.len() as int) =~= upper);
    let rest = t.skip(upper.len() as int);
    assert(rest =~= seq![' '] + d);
    if rest.len() >= upper.len() {
        assert(rest.take(upper.len() as int)[0] != upper[0]);
    }
    assert(!has_prefix(rest, upper));
    assert(strip_prefixes(rest, upper) == rest);
    assert(strip_prefixes(t, upper) == rest);
    if rest.len() >= key.len() {
        assert(rest.take(key.len() as int)[0] != key[0]);
    }
    assert(!has_prefix(rest, key));
    assert(strip_prefixes(rest, key) == rest);
    assert(rest.drop_first() =~= d);
    assert(trim_start_ws(d) == d);
    assert(trim_start_ws(rest) == d);
    assert(trim_end_ws(d) == d) by {
        assert(d.len() > 0);
    }
    assert(trim_whitespace(rest) == d);
    // the blank line
    let nl = crlf.drop_first();
    assert(nl.drop_first() =~= Seq::<char>::empty());
    assert(is_white_space(crlf[0]));
    assert(is_white_space(nl[0]));
    assert(trim_start_ws(nl.drop_first()) =~= Seq::<char>::empty());
    assert(trim_start_ws(nl) =~= Seq::<char>::empty());
    assert(trim_start_ws(crlf) =~= Seq::<char>::empty());
}


/// A JSON value as a language server sends it. A number keeps the text that serde_json
/// prints for it; object members keep their order.
#[derive(Debug)]
pub enum JsonValue {
    Null,
    Bool(bool),
    Num(String),
    Str(String),
    Array(Vec<JsonValue>),
    Object(Vec<(String, JsonValue)>),
}

/// What `serde_json::from_slice` reads from the bytes `body`: the value, or nothing when
/// the bytes are not JSON.
pub uninterp spec fn json_of_body(body: Seq<u8>) -> Option<JsonValue>;

/// `serde_json::from_slice` into a `serde_json::Value`, turned variant for variant into
/// a `JsonValue`; no JSON gives none.
#[verifier::external_body]
fn parse_json(body: &[u8]) -> (r: Option<JsonValue>)
    ensures
        r == json_of_body(body@),
{
    serde_json::from_slice::<serde_json::Value>(body).ok().map(json_from_serde)
}

/// `serde_json::Value`, read by `parse_json`.
#[verifier::external_type_specification]
#[verifier::external_body]
pub struct ExSerdeValue(serde_json::Value);

/// The variant-for-variant conversion that `parse_json` applies to what serde_json read;
/// numbers become the text serde_json prints for them.
#[verifier::external_body]
fn json_from_serde(v: serde_json::Value) -> JsonValue {
    match v {
        serde_json::Value::Null => JsonValue::Null,
        serde_json::Value::Bool(b) => JsonValue::Bool(b),
        serde_json::Value::Number(n) => JsonValue::Num(n.to_string()),
        serde_json::Value::String(s) => JsonValue::Str(s),
        serde_json::Value::Array(a) => JsonValue::Array(a.into_iter().map(json_from_serde).collect()),
        serde_json::Value::Object(o) => JsonValue::Object(o.into_iter().map(|(k, x)| (k, json_from_serde(x))).collect()),
    }
}

/// Reads the body of a language server's reply as JSON.
pub fn parse_reply(body: &[u8]) -> (r: Option<JsonValue>)
    ensures
        r == json_of_body(body@),
{
    parse_json(body)
}

/// The value of the first member named `key` among `es`.
pub open spec fn entry_value(es: Seq<(String, JsonValue)>, key: Seq<char>) -> Option<JsonValue>
    decreases es.len(),
{
    if es.len() == 0 {
        None
    } else if es[0].0@ == key {
        Some(es[0].1)
    } else {
        entry_value(es.drop_first(), key)
    }
}

/// The member `key` of `v`, when `v` is an object that has one.
pub open spec fn json_get(v: JsonValue, key: Seq<char>) -> Option<JsonValue> {
    match v {
        JsonValue::Object(es) => entry_value(es@, key),
        _ => None,
    }
}

/// The member `key` of an optional value.
pub open spec fn json_get_opt(v: Option<JsonValue>, key: Seq<char>) -> Option<JsonValue> {
    match v {
        Some(x) => json_get(x, key),
        None => None,
    }
}

/// The characters of an optional value that is a string.
pub open spec fn json_str(v: Option<JsonValue>) -> Option<Seq<char>> {
    match v {
        Some(JsonValue::Str(s)) => Some(s@),
        _ => None,
    }
}

/// An optional value that is a number written as an unsigned integer that fits `usize`.
pub open spec fn json_usize(v: Option<JsonValue>) -> Option<usize> {
    match v {
        Some(JsonValue::Num(s)) => parsed_usize(s@),
        _ => None,
    }
}

/// The elements of an optional value that is an array.
pub open spec fn json_elems(v: Option<JsonValue>) -> Option<Seq<JsonValue>> {
    match v {
        Some(JsonValue::Array(a)) => Some(a@),
        _ => None,
    }
}

/// The value behind an optional reference.
pub open spec fn deref_opt(r: Option<&JsonValue>) -> Option<JsonValue> {
    match r {
        Some(x) => Some(*x),
        None => None,
    }
}

/// The member `key` of `v`.
fn member<'a>(v: &'a JsonValue, key: &str) -> (r: Option<&'a JsonValue>)
    ensures
        deref_opt(r) == json_get(*v, key@),
{
    match v {
        JsonValue::Object(es) => {
            let mut i: usize = 0;
            assert(es@.skip(0) =~= es@);
            #[verifier::loop_isolation(false)]
            while i < es.len()
                invariant
                    i <= es@.len(),
                    entry_value(es@, key@) == entry_value(es@.skip(i as int), key@),
                decreases es.len() - i,
            {
                assert(es@.skip(i as int)[0] == es@[i as int]);
                assert(es@.skip(i as int).drop_first() =~= es@.skip(i + 1));
                if str_eq(es[i].0.as_str(), key) {
                    return Some(&es[i].1);
                }
                i = i + 1;
            }
            assert(es@.skip(i as int).len() == 0);
            None
        },
        _ => None,
    }
}

/// The member `key` of an optional value.
fn member_opt<'a>(v: Option<&'a JsonValue>, key: &str) -> (r: Option<&'a JsonValue>)
    ensures
        deref_opt(r) == json_get_opt(deref_opt(v), key@),
{
    match v {
        Some(x) => member(x, key),
        None => None,
    }
}

/// The string held by an optional value, copied.
fn str_of(v: Option<&JsonValue>) -> (r: Option<String>)
    ensures
        opt_chars(r) == json_str(deref_opt(v)),
{
    match v {
        Some(JsonValue::Str(s)) => Some(s.clone()),
        _ => None,
    }
}

/// The unsigned integer held by an optional value.
fn usize_of(v: Option<&JsonValue>) -> (r: Option<usize>)
    ensures
        r == json_usize(deref_opt(v)),
{
    match v {
        Some(JsonValue::Num(s)) => parse_usize(&chars_of(s.as_str())),
        _ => None,
    }
}

/// The character range of an optional LSP range in `text`: both bounds need a line and
/// a character.
pub open spec fn lsp_range_spec(r: Option<JsonValue>, text: Seq<char>) -> Option<Range> {
    let s = json_get_opt(r, "start"@);
    let e = json_get_opt(r, "end"@);
    match (json_usize(json_get_opt(s, "line"@)), json_usize(json_get_opt(s, "character"@)),
           json_usize(json_get_opt(e, "line"@)), json_usize(json_get_opt(e, "character"@))) {
        (Some(sl), Some(sc), Some(el), Some(ec)) => Some(Range {
            start: position_to_offset_spec(text, sl as int, sc as int) as usize,
            end: position_to_offset_spec(text, el as int, ec as int) as usize,
        }),
        _ => None,
    }
}

/// The character range of an optional LSP range in `text`.
fn lsp_range(r: Option<&JsonValue>, text: &str) -> (g: Option<Range>)
    ensures
        g == lsp_range_spec(deref_opt(r), text@),
{
    proof {
        reveal_strlit("start");
        reveal_strlit("end");
        reveal_strlit("line");
        reveal_strlit("character");
    }
    let s = member_opt(r, "start");
    let e = member_opt(r, "end");
    let sl = usize_of(member_opt(s, "line"));
    let sc = usize_of(member_opt(s, "character"));
    let el = usize_of(member_opt(e, "line"));
    let ec = usize_of(member_opt(e, "character"));
    match (sl, sc, el, ec) {
        (Some(a), Some(b), Some(c), Some(d)) => {
            let start = position_to_offset(text, a, b);
            let end = position_to_offset(text, c, d);
            Some(Range { start, end })
        },
        _ => None,
    }
}


/// The completion entries of a reply: the result when it is an array, else the `items`
/// of the result.
pub open spec fn completion_items(resp: JsonValue) -> Seq<JsonValue> {
    match json_get(resp, "result"@) {
        Some(JsonValue::Array(a)) => a@,
        Some(obj) => match json_elems(json_get(obj, "items"@)) {
            Some(a) => a,
            None => Seq::empty(),
        },
        None => Seq::empty(),
    }
}

/// `c` is the completion that the entry `item` describes: its label (empty when
/// missing), its kind in decimal, its detail, and the text to insert (the label when
/// missing).
pub open spec fn completion_is(c: CompletionItem, item: JsonValue) -> bool {
    let label = json_str(json_get(item, "label"@));
    &&& c.label@ == match label { Some(l) => l, None => Seq::<char>::empty() }
    &&& opt_chars(c.kind) == match json_usize(json_get(item, "kind"@)) {
        Some(k) => Some(decimal(k as nat)),
        None => None::<Seq<char>>,
    }
    &&& opt_chars(c.detail) == json_str(json_get(item, "detail"@))
    &&& opt_chars(c.insert_text) == match json_str(json_get(item, "insertText"@)) {
        Some(t) => Some(t),
        None => label,
    }
    &&& c.additional_edits@.len() == 0
}

/// The completions of a `textDocument/completion` reply.
pub fn completions_of_response(resp: &JsonValue) -> (v: Vec<CompletionItem>)
    ensures
        v@.len() == completion_items(*resp).len(),
        forall|i: int| 0 <= i < v@.len() ==> completion_is(#[trigger] v@[i], completion_items(*resp)[i]),
{
    proof {
        reveal_strlit("result");
        reveal_strlit("items");
        reveal_strlit("label");
        reveal_strlit("kind");
        reveal_strlit("detail");
        reveal_strlit("insertText");
    }
    let empty: Vec<JsonValue> = Vec::new();
    let items: &Vec<JsonValue> = match member(resp, "result") {
        Some(JsonValue::Array(a)) => a,
        Some(obj) => match member(obj, "items") {
            Some(JsonValue::Array(a)) => a,
            _ => &empty,
        },
        None => &empty,
    };
    assert(items@ == completion_items(*resp));
    let mut v: Vec<CompletionItem> = Vec::new();
    let mut i: usize = 0;
    while i < items.len()
        invariant
            i <= items@.len(),
            v@.len() == i,
            forall|k: int| 0 <= k < i ==> completion_is(#[trigger] v@[k], items@[k]),
        decreases items.len() - i,
    {
        let it = &items[i];
        let kind = match usize_of(member(it, "kind")) {
            Some(k) => Some(k as u64),
            None => None,
        };
        let c = CompletionItem::from_fields(
            str_of(member(it, "label")),
            kind,
            str_of(member(it, "detail")),
            str_of(member(it, "insertText")),
        );
        v.push(c);
        i = i + 1;
    }
    v
}

/// The text and range of a hover, as plain values.
pub open spec fn hover_view(h: Option<HoverInfo>) -> Option<(Seq<char>, Option<Range>)> {
    match h {
        Some(x) => Some((x.contents@, x.range)),
        None => None,
    }
}

/// The hover a `textDocument/hover` reply describes: none when the result is missing
/// or null; else the `value` of its contents, or the contents when they are a string
/// (empty otherwise), and its range.
pub open spec fn hover_spec(resp: JsonValue, text: Seq<char>) -> Option<(Seq<char>, Option<Range>)> {
    match json_get(resp, "result"@) {
        None => None,
        Some(JsonValue::Null) => None,
        Some(res) => {
            let contents = json_get(res, "contents"@);
            let t = match json_str(json_get_opt(contents, "value"@)) {
                Some(s) => s,
                None => match json_str(contents) {
                    Some(s) => s,
                    None => Seq::<char>::empty(),
                },
            };
            Some((t, lsp_range_spec(json_get(res, "range"@), text)))
        },
    }
}

/// The hover of a `textDocument/hover` reply.
pub fn hover_of_response(resp: &JsonValue, text: &str) -> (h: Option<HoverInfo>)
    ensures
        hover_view(h) == hover_spec(*resp, text@),
{
    proof {
        reveal_strlit("result");
        reveal_strlit("contents");
        reveal_strlit("value");
        reveal_strlit("range");
    }
    match member(resp, "result") {
        None => None,
        Some(JsonValue::Null) => None,
        Some(res) => {
            let contents = member(res, "contents");
            let t = match str_of(member_opt(contents, "value")) {
                Some(s) => s,
                None => match str_of(contents) {
                    Some(s) => s,
                    None => String::new(),
                },
            };
            let range = lsp_range(member(res, "range"), text);
            Some(HoverInfo { contents: t, range })
        },
    }
}

/// Edits as plain values: each range with the characters of its new text.
pub open spec fn edits_view(v: Seq<(Range, String)>) -> Seq<(Range, Seq<char>)> {
    v.map_values(|p: (Range, String)| (p.0, p.1@))
}

/// The text edits among `items`: each that has a range, with its new text (empty when
/// missing).
pub open spec fn edits_in(items: Seq<JsonValue>, text: Seq<char>) -> Seq<(Range, Seq<char>)>
    decreases items.len(),
{
    if items.len() == 0 {
        Seq::empty()
    } else {
        let rest = edits_in(items.drop_last(), text);
        let it = items.last();
        match lsp_range_spec(json_get(it, "range"@), text) {
            Some(r) => rest.push((r, match json_str(json_get(it, "newText"@)) {
                Some(t) => t,
                None => Seq::<char>::empty(),
            })),
            None => rest,
        }
    }
}

/// Appends the text edits among `items` to `out`.
fn push_edits(items: &Vec<JsonValue>, text: &str, out: &mut Vec<(Range, String)>)
    ensures
        edits_view(final(out)@) == edits_view(old(out)@) + edits_in(items@, text@),
{
    proof {
        reveal_strlit("range");
        reveal_strlit("newText");
    }
    let ghost start = edits_view(out@);
    let mut i: usize = 0;
    assert(items@.take(0) =~= Seq::<JsonValue>::empty());
    assert(start + Seq::<(Range, Seq<char>)>::empty() =~= start);
    while i < items.len()
        invariant
            i <= items@.len(),
            edits_view(out@) == start + edits_in(items@.take(i as int), text@),
        decreases items.len() - i,
    {
        let it = &items[i];
        proof {
            assert(items@.take(i + 1).drop_last() =~= items@.take(i as int));
            assert(items@.take(i + 1).last() == *it);
        }
        match lsp_range(member(it, "range"), text) {
            Some(r) => {
                let t = match str_of(member(it, "newText")) {
                    Some(t) => t,
                    None => String::new(),
                };
                let ghost before = out@;
                out.push((r, t));
                proof {
                    assert(edits_view(out@) =~= edits_view(before).push((r, t@)));
                }
            },
            None => {},
        }
        i = i + 1;
    }
    assert(items@.take(i as int) =~= items@);
}

/// The edits of a `textDocument/rangeFormatting` reply: those of its result array.
pub open spec fn format_edits_spec(resp: JsonValue, text: Seq<char>) -> Seq<(Range, Seq<char>)> {
    match json_elems(json_get(resp, "result"@)) {
        Some(a) => edits_in(a, text),
        None => Seq::empty(),
    }
}

/// The edits of a `textDocument/rangeFormatting` reply.
pub fn edits_of_response(resp: &JsonValue, text: &str) -> (e: Vec<(Range, String)>)
    ensures
        edits_view(e@) == format_edits_spec(*resp, text@),
{
    proof { reveal_strlit("result"); }
    let mut out: Vec<(Range, String)> = Vec::new();
    assert(edits_view(out@) =~= Seq::<(Range, Seq<char>)>::empty());
    match member(resp, "result") {
        Some(JsonValue::Array(a)) => {
            push_edits(a, text, &mut out);
            assert(Seq::<(Range, Seq<char>)>::empty() + edits_in(a@, text@) =~= edits_in(a@, text@));
        },
        _ => {},
    }
    out
}

/// The edits of the change lists in `es`, in order: each list that is an array.
pub open spec fn change_edits(es: Seq<(String, JsonValue)>, text: Seq<char>) -> Seq<(Range, Seq<char>)>
    decreases es.len(),
{
    if es.len() == 0 {
        Seq::empty()
    } else {
        change_edits(es.drop_last(), text) + match json_elems(Some(es.last().1)) {
            Some(a) => edits_in(a, text),
            None => Seq::empty(),
        }
    }
}

/// The edits of the code actions in `acts`, in order: those of each action's
/// `edit.changes` object.
pub open spec fn action_edits(acts: Seq<JsonValue>, text: Seq<char>) -> Seq<(Range, Seq<char>)>
    decreases acts.len(),
{
    if acts.len() == 0 {
        Seq::empty()
    } else {
        action_edits(acts.drop_last(), text) + match json_get_opt(json_get(acts.last(), "edit"@), "changes"@) {
            Some(JsonValue::Object(es)) => change_edits(es@, text),
            _ => Seq::empty(),
        }
    }
}

/// The edits of the quick fixes in a `textDocument/codeAction` reply.
pub open spec fn quick_fix_spec(resp: JsonValue, text: Seq<char>) -> Seq<(Range, Seq<char>)> {
    match json_elems(json_get(resp, "result"@)) {
        Some(a) => action_edits(a, text),
        None => Seq::empty(),
    }
}

/// Appends the edits of the change lists in `es` to `out`.
fn push_change_edits(es: &Vec<(String, JsonValue)>, text: &str, out: &mut Vec<(Range, String)>)
    ensures
        edits_view(final(out)@) == edits_view(old(out)@) + change_edits(es@, text@),
{
    let ghost start = edits_view(out@);
    let mut i: usize = 0;
    assert(es@.take(0) =~= Seq::<(String, JsonValue)>::empty());
    assert(start + Seq::<(Range, Seq<char>)>::empty() =~= start);
    while i < es.len()
        invariant
            i <= es@.len(),
            edits_view(out@) == start + change_edits(es@.take(i as int), text@),
        decreases es.len() - i,
    {
        proof {
            assert(es@.take(i + 1).drop_last() =~= es@.take(i as int));
            assert(es@.take(i + 1).last() == es@[i as int]);
        }
        let ghost before = edits_view(out@);
        match &es[i].1 {
            JsonValue::Array(a) => {
                push_edits(a, text, out);
                assert(edits_view(out@) =~= start + change_edits(es@.take(i + 1), text@));
            },
            _ => {
                assert(edits_view(out@) =~= start + change_edits(es@.take(i + 1), text@));
            },
        }
        i = i + 1;
    }
    assert(es@.take(i as int) =~= es@);
}

/// The edits of the quick fixes in a `textDocument/codeAction` reply.
pub fn quick_fix_edits(resp: &JsonValue, text: &str) -> (e: Vec<(Range, String)>)
    ensures
        edits_view(e@) == quick_fix_spec(*resp, text@),
{
    proof {
        reveal_strlit("result");
        reveal_strlit("edit");
        reveal_strlit("changes");
    }
    let mut out: Vec<(Range, String)> = Vec::new();
    assert(edits_view(out@) =~= Seq::<(Range, Seq<char>)>::empty());
    match member(resp, "result") {
        Some(JsonValue::Array(acts)) => {
            let mut i: usize = 0;
            assert(acts@.take(0) =~= Seq::<JsonValue>::empty());
            while i < acts.len()
                invariant
                    i <= acts@.len(),
                    edits_view(out@) == action_edits(acts@.take(i as int), text@),
                decreases acts.len() - i,
            {
                proof {
                    assert(acts@.take(i + 1).drop_last() =~= acts@.take(i as int));
                    assert(acts@.take(i + 1).last() == acts@[i as int]);
                }
                match member_opt(member(&acts[i], "edit"), "changes") {
                    Some(JsonValue::Object(es)) => {
                        push_change_edits(es, text, &mut out);
                    },
                    _ => {
                        assert(edits_view(out@) =~= action_edits(acts@.take(i + 1), text@));
                    },
                }
                i = i + 1;
            }
            assert(acts@.take(i as int) =~= acts@);
        },
        _ => {},
    }
    out
}

/// Locations as plain values: each URI's characters with its range.
pub open spec fn locations_view(v: Seq<Location>) -> Seq<(Seq<char>, Range)> {
    v.map_values(|l: Location| (l.uri@, l.range))
}

/// The location an optional value describes: it needs a range; its URI is empty when
/// missing.
pub open spec fn location_of(v: Option<JsonValue>, text: Seq<char>) -> Option<(Seq<char>, Range)> {
    match v {
        None => None,
        Some(x) => match lsp_range_spec(json_get(x, "range"@), text) {
            Some(r) => Some((match json_str(json_get(x, "uri"@)) {
                Some(u) => u,
                None => Seq::<char>::empty(),
            }, r)),
            None => None,
        },
    }
}

/// The locations among `items`, in order.
pub open spec fn locations_in(items: Seq<JsonValue>, text: Seq<char>) -> Seq<(Seq<char>, Range)>
    decreases items.len(),
{
    if items.len() == 0 {
        Seq::empty()
    } else {
        let rest = locations_in(items.drop_last(), text);
        match location_of(Some(items.last()), text) {
            Some(l) => rest.push(l),
            None => rest,
        }
    }
}

/// The locations of a definition or references reply: those of the result when it is
/// an array, else the one location the result describes, if any.
pub open spec fn locations_spec(resp: JsonValue, text: Seq<char>) -> Seq<(Seq<char>, Range)> {
    match json_elems(json_get(resp, "result"@)) {
        Some(a) => locations_in(a, text),
        None => match location_of(json_get(resp, "result"@), text) {
            Some(l) => seq![l],
            None => Seq::empty(),
        },
    }
}

/// The location an optional value describes.
fn location_from(v: Option<&JsonValue>, text: &str) -> (l: Option<Location>)
    ensures
        match l {
            Some(x) => location_of(deref_opt(v), text@) == Some((x.uri@, x.range)),
            None => location_of(deref_opt(v), text@) is None,
        },
{
    proof {
        reveal_strlit("range");
        reveal_strlit("uri");
    }
    match v {
        None => None,
        Some(x) => match lsp_range(member(x, "range"), text) {
            Some(r) => {
                let uri = match str_of(member(x, "uri")) {
                    Some(u) => u,
                    None => String::new(),
                };
                Some(Location { uri, range: r })
            },
            None => None,
        },
    }
}

/// The locations of a `textDocument/definition` or `textDocument/references` reply.
pub fn locations_of_response(resp: &JsonValue, text: &str) -> (l: Vec<Location>)
    ensures
        locations_view(l@) == locations_spec(*resp, text@),
{
    proof { reveal_strlit("result"); }
    let mut out: Vec<Location> = Vec::new();
    let result = member(resp, "result");
    match result {
        Some(JsonValue::Array(items)) => {
            let mut i: usize = 0;
            assert(items@.take(0) =~= Seq::<JsonValue>::empty());
            assert(locations_view(out@) =~= Seq::<(Seq<char>, Range)>::empty());
            while i < items.len()
                invariant
                    i <= items@.len(),
                    locations_view(out@) == locations_in(items@.take(i as int), text@),
                decreases items.len() - i,
            {
                proof {
                    assert(items@.take(i + 1).drop_last() =~= items@.take(i as int));
                    assert(items@.take(i + 1).last() == items@[i as int]);
                }
                match location_from(Some(&items[i]), text) {
                    Some(x) => {
                        let ghost before = out@;
                        out.push(x);
                        assert(locations_view(out@) =~= locations_view(before).push((x.uri@, x.range)));
                    },
                    None => {},
                }
                i = i + 1;
            }
            assert(items@.take(i as int) =~= items@);
        },
        _ => {
            match location_from(result, text) {
                Some(x) => {
                    out.push(x);
                    assert(locations_view(out@) =~= seq![(x.uri@, x.range)]);
                },
                None => {
                    assert(locations_view(out@) =~= Seq::<(Seq<char>, Range)>::empty());
                },
            }
        },
    }
    out
}

} // verus!
