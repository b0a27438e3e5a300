//! Character-level helpers on strings and the line model of a text.

use vstd::prelude::*;
use vstd::utf8::encode_utf8;

verus! {

/// The smaller of two integers.
pub open spec fn min_int(a: int, b: int) -> int {
    if a <= b { a } else { b }
}

/// Number of newline characters in `t`.
pub open spec fn newline_count(t: Seq<char>) -> nat
    decreases t.len(),
{
    if t.len() == 0 {
        0
    } else {
        newline_count(t.drop_last()) + if t.last() == '\n' { 1nat } else { 0nat }
    }
}

/// Offsets at which the lines of `t` start: 0, then one past every newline.
pub open spec fn line_starts(t: Seq<char>) -> Seq<int>
    decreases t.len(),
{
    if t.len() == 0 {
        seq![0int]
    } else if t.last() == '\n' {
        line_starts(t.drop_last()).push(t.len() as int)
    } else {
        line_starts(t.drop_last())
    }
}

/// The 0-based line that offset `o` of `t` lies on: the number of newlines before it.
pub open spec fn line_of(t: Seq<char>, o: int) -> int {
    newline_count(t.take(o)) as int
}

/// Counting newlines in a prefix never exceeds counting them in the whole text.
pub proof fn lemma_newline_count_prefix(t: Seq<char>, o: int)
    requires
        0 <= o <= t.len(),
    ensures
        newline_count(t.take(o)) <= newline_count(t),
    decreases t.len(),
{
    if o < t.len() {
        lemma_newline_count_prefix(t.drop_last(), o);
        assert(t.drop_last().take(o) =~= t.take(o));
    } else {
        assert(t.take(o) =~= t);
    }
}

/// Shape of the line-start sequence, and its link to newline counts.
pub proof fn lemma_line_starts(t: Seq<char>)
    ensures
        line_starts(t).len() == newline_count(t) + 1,
        line_starts(t)[0] == 0,
        forall|k: int| 0 <= k < line_starts(t).len() ==> 0 <= #[trigger] line_starts(t)[k] <= t.len(),
        forall|j: int, k: int|
            0 <= j < k < line_starts(t).len() ==> line_starts(t)[j] < line_starts(t)[k],
        forall|k: int, o: int|
            0 <= k < line_starts(t).len() && 0 <= o <= t.len() ==> (#[trigger] line_starts(t)[k] <= o
                <==> k <= #[trigger] newline_count(t.take(o))),
    decreases t.len(),
{
    if t.len() == 0 {
        assert forall|k: int, o: int|
            0 <= k < line_starts(t).len() && 0 <= o <= t.len() implies (#[trigger] line_starts(t)[k] <= o
                <==> k <= #[trigger] newline_count(t.take(o))) by {
            assert(t.take(o).len() == 0);
        }
    } else {
        let p = t.drop_last();
        lemma_line_starts(p);
        assert forall|k: int, o: int|
            0 <= k < line_starts(t).len() && 0 <= o <= t.len() implies (#[trigger] line_starts(t)[k] <= o
                <==> k <= #[trigger] newline_count(t.take(o))) by {
            if o < t.len() {
                assert(t.take(o) =~= p.take(o));
                lemma_newline_count_prefix(p, o);
                if k < line_starts(p).len() {
                    assert(line_starts(t)[k] == line_starts(p)[k]);
                } else {
                    assert(line_starts(t)[k] == t.len());
                }
            } else {
                assert(t.take(o) =~= t);
                assert(t.drop_last() =~= p);
            }
        }
    }
}

/// One more character adds one newline to the count exactly when it is a newline.
pub proof fn lemma_newline_count_step(t: Seq<char>, k: int)
    requires
        0 <= k < t.len(),
    ensures
        newline_count(t.take(k + 1)) == newline_count(t.take(k)) + if t[k] == '\n' { 1int } else { 0int },
{
    assert(t.take(k + 1).drop_last() =~= t.take(k));
    assert(t.take(k + 1).last() == t[k]);
}

/// Newlines counted over a longer prefix are at least as many.
pub proof fn lemma_newline_count_mono(t: Seq<char>, a: int, b: int)
    requires
        0 <= a <= b <= t.len(),
    ensures
        newline_count(t.take(a)) <= newline_count(t.take(b)),
{
    lemma_newline_count_prefix(t.take(b), a);
    assert(t.take(b).take(a) =~= t.take(a));
}

/// A text holds no more newlines than characters.
pub proof fn lemma_newline_count_le_len(t: Seq<char>)
    ensures
        newline_count(t) <= t.len(),
    decreases t.len(),
{
    if t.len() > 0 {
        lemma_newline_count_le_len(t.drop_last());
    }
}

/// The line found for a valid offset is a line of the text: it starts at or before
/// the offset, and the next line, if any, starts after it.
pub proof fn lemma_line_index_valid(t: Seq<char>, o: int)
    requires
        line_index(t, o) is Some,
    ensures
        0 <= line_of(t, o) < line_starts(t).len(),
        line_of(t, o) <= o,
        0 <= line_starts(t)[line_of(t, o)] <= o,
        line_of(t, o) + 1 < line_starts(t).len() ==> 0 <= line_starts(t)[line_of(t, o) + 1] <= t.len(),
        line_of(t, o) + 1 < line_starts(t).len() ==> o < line_starts(t)[line_of(t, o) + 1],
        line_starts(t)[line_of(t, o)] <= t.len(),
{
    lemma_line_starts(t);
    if t.len() == 0 {
        assert(t.take(o) =~= Seq::<char>::empty());
    } else {
        lemma_newline_count_prefix(t, o);
        lemma_newline_count_le_len(t.take(o));
        let k = line_of(t, o);
        assert(line_starts(t)[k] <= o);
        if k + 1 < line_starts(t).len() {
            assert(!(k + 1 <= newline_count(t.take(o))));
        }
    }
}

/// The line of offset `o`, for offsets inside the text and offset 0 of an empty text.
pub open spec fn line_index(t: Seq<char>, o: int) -> Option<int> {
    if (0 <= o < t.len()) || (t.len() == 0 && o == 0) {
        Some(line_of(t, o))
    } else {
        None
    }
}

/// The offset at which line `l` of `t` starts, if the line exists.
pub open spec fn line_start_at(t: Seq<char>, l: int) -> Option<int> {
    if 0 <= l < line_starts(t).len() {
        Some(line_starts(t)[l])
    } else {
        None
    }
}

/// The value held by `o`, or `d` when there is none.
pub open spec fn or_default(o: Option<int>, d: int) -> int {
    match o {
        Some(x) => x,
        None => d,
    }
}

/// UTF-8 encoding distributes over concatenation.
pub proof fn lemma_encode_utf8_append(a: Seq<char>, b: Seq<char>)
    ensures
        encode_utf8(a + b) == encode_utf8(a) + encode_utf8(b),
    decreases a.len(),
{
    if a.len() == 0 {
        assert(a + b =~= b);
        assert(encode_utf8(a) =~= Seq::<u8>::empty());
        assert(encode_utf8(a) + encode_utf8(b) =~= encode_utf8(b));
    } else {
        assert((a + b).drop_first() =~= a.drop_first() + b);
        lemma_encode_utf8_append(a.drop_first(), b);
        assert(encode_utf8(a + b) =~= encode_utf8(a) + encode_utf8(b));
    }
}

/// Every character takes at least one UTF-8 byte.
pub proof fn lemma_encode_utf8_len(a: Seq<char>)
    ensures
        encode_utf8(a).len() >= a.len(),
    decreases a.len(),
{
    if a.len() > 0 {
        lemma_encode_utf8_len(a.drop_first());
    }
}

/// The bytes of a slice of `t` plus its start offset stay within the bytes of `t`.
pub proof fn lemma_slice_bytes_bound(t: Seq<char>, s: int, e: int)
    requires
        0 <= s <= e <= t.len(),
    ensures
        s + encode_utf8(t.subrange(s, e)).len() <= encode_utf8(t).len(),
{
    let a = t.take(s);
    let m = t.subrange(s, e);
    let c = t.skip(e);
    assert(t =~= a + m + c);
    lemma_encode_utf8_append(a + m, c);
    lemma_encode_utf8_append(a, m);
    lemma_encode_utf8_len(a);
}

/// The decimal digit for `d` (0 to 9).
pub open spec fn digit_char(d: nat) -> char {
    ('0' as int + d) as char
}

/// The decimal representation of `n`, without leading zeros.
pub open spec fn decimal(n: nat) -> Seq<char>
    decreases n,
{
    if n < 10 {
        seq![digit_char(n)]
    } else {
        decimal(n / 10).push(digit_char(n % 10))
    }
}

/// Appends the decimal representation of `n` to `s`.
pub fn push_decimal(s: &mut String, n: u128)
    ensures
        final(s)@ == old(s)@ + decimal(n as nat),
    decreases n,
{
    if n >= 10 {
        push_decimal(s, n / 10);
    }
    let d = (n % 10) as u32;
    let c = char_from_digit(d);
    push_char(s, c);
    proof {
        if n >= 10 {
            assert(decimal(n as nat) == decimal((n / 10) as nat).push(digit_char((n % 10) as nat)));
        }
    }
}

/// The character of decimal digit `d`.
fn char_from_digit(d: u32) -> (c: char)
    requires
        d < 10,
    ensures
        c == digit_char(d as nat),
{
    if d == 0 { '0' } else if d == 1 { '1' } else if d == 2 { '2' } else if d == 3 { '3' }
    else if d == 4 { '4' } else if d == 5 { '5' } else if d == 6 { '6' } else if d == 7 { '7' }
    else if d == 8 { '8' } else { '9' }
}

/// Appends one character to a string.
#[verifier::external_body]
pub(crate) fn push_char(s: &mut String, c: char)
    ensures
        final(s)@ == old(s)@.push(c),
{
    s.push(c);
}

/// Collects the characters of `s` into a vector.
pub fn chars_of(s: &str) -> (v: Vec<char>)
    ensures
        v@ == s@,
{
    let mut v: Vec<char> = Vec::new();
    for c in it: s.chars()
        invariant
            v@ == it.seq().take(it.index() as int),
            it.seq() == s@,
    {
        v.push(c);
    }
    v
}

/// Whether two strings hold the same characters.
pub fn str_eq(a: &str, b: &str) -> (r: bool)
    ensures
        r == (a@ == b@),
{
    let va = chars_of(a);
    let vb = chars_of(b);
    if va.len() != vb.len() {
        return false;
    }
    let mut i: usize = 0;
    while i < va.len()
        invariant
            va@ == a@,
            vb@ == b@,
            va.len() == vb.len(),
            i <= va.len(),
            forall|k: int| 0 <= k < i ==> va@[k] == vb@[k],
        decreases va.len() - i,
    {
        if va[i] != vb[i] {
            return false;
        }
        i = i + 1;
    }
    assert(va@ =~= vb@);
    true
}

/// Builds a string from the characters `v[from..to]`.
pub fn string_of_chars(v: &Vec<char>, from: usize, to: usize) -> (s: String)
    requires
        from <= to <= v.len(),
    ensures
        s@ == v@.subrange(from as int, to as int),
{
    let mut s = String::new();
    let mut i = from;
    while i < to
        invariant
            from <= i <= to <= v.len(),
            s@ == v@.subrange(from as int, i as int),
        decreases to - i,
    {
        push_char(&mut s, v[i]);
        assert(v@.subrange(from as int, i + 1) =~= v@.subrange(from as int, i as int).push(v@[i as int]));
        i = i + 1;
    }
    s
}

} // verus!
