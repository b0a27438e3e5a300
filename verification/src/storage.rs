//! The piece table of `editor_core` that stores the characters of a buffer.
//!
//! The table is an outside collection: what it holds is named by
//! [`piece_table_text`], and each method the buffer calls has a wrapper whose
//! contract states, over that name, what the method does to the characters.

use vstd::prelude::*;
use editor_core::PieceTable;
use crate::text::min_int;

verus! {

#[verifier::external_type_specification]
#[verifier::external_body]
pub struct ExPieceTable(editor_core::PieceTable);

/// The characters held by a piece table, in document order.
pub uninterp spec fn piece_table_text(table: PieceTable) -> Seq<char>;

/// `PieceTable::new`: the table holds exactly the characters of `text`.
#[verifier::external_body]
pub(crate) fn table_new(text: &str) -> (table: PieceTable)
    ensures
        piece_table_text(table) == text@,
{
    PieceTable::new(text)
}

/// `PieceTable::empty`: the table holds no characters.
#[verifier::external_body]
pub(crate) fn table_empty() -> (table: PieceTable)
    ensures
        piece_table_text(table) == Seq::<char>::empty(),
{
    PieceTable::empty()
}

/// `PieceTable::char_count`: the number of characters held.
#[verifier::external_body]
pub(crate) fn table_char_count(table: &PieceTable) -> (n: usize)
    ensures
        n == piece_table_text(*table).len(),
{
    table.char_count()
}

/// `PieceTable::get_text`: all characters held, as one string.
#[verifier::external_body]
pub(crate) fn table_get_text(table: &PieceTable) -> (s: String)
    ensures
        s@ == piece_table_text(*table),
{
    table.get_text()
}

/// `PieceTable::get_range`: the characters from `start` up to `start + length`,
/// both clamped to the number of characters held.
#[verifier::external_body]
pub(crate) fn table_get_range(table: &PieceTable, start: usize, length: usize) -> (s: String)
    ensures
        s@ == piece_table_text(*table).subrange(
            min_int(start as int, piece_table_text(*table).len() as int),
            min_int(start + length, piece_table_text(*table).len() as int),
        ),
{
    table.get_range(start, length)
}

/// `PieceTable::insert`: `text` is inserted before character `offset`, or at the
/// end when `offset` lies past it.
#[verifier::external_body]
pub(crate) fn table_insert(table: &mut PieceTable, offset: usize, text: &str)
    ensures
        piece_table_text(*final(table)) == ({
            let c = piece_table_text(*old(table));
            let o = min_int(offset as int, c.len() as int);
            c.take(o) + text@ + c.skip(o)
        }),
{
    table.insert(offset, text)
}

/// `PieceTable::delete`: the characters from `start` up to `start + length`,
/// both clamped to the number of characters held, are removed.
#[verifier::external_body]
pub(crate) fn table_delete(table: &mut PieceTable, start: usize, length: usize)
    ensures
        piece_table_text(*final(table)) == ({
            let c = piece_table_text(*old(table));
            c.take(min_int(start as int, c.len() as int)) + c.skip(
                min_int(start + length, c.len() as int),
            )
        }),
{
    table.delete(start, length)
}

} // verus!
