//! The mathematical model of a text: where its lines begin, and how byte
//! offsets and line-column positions correspond.
//!
//! A text is a sequence of bytes. The only byte with a meaning is the line
//! feed: it ends the line it stands in, and the next line begins right
//! behind it. Carriage returns are ordinary bytes.

use vstd::prelude::*;

verus! {

/// The byte that ends a line.
pub const LINE_FEED: u8 = 0x0A;

/// The offsets at which the lines of `text` begin, in increasing order.
///
/// Line 0 begins at offset 0, also in an empty text; every line feed at
/// offset `p` makes a further line begin at `p + 1`.
pub open spec fn line_starts(text: Seq<u8>) -> Seq<int>
    decreases text.len(),
{
    if text.len() == 0 {
        seq![0int]
    } else {
        let before = line_starts(text.drop_last());
        if text.last() == LINE_FEED {
            before.push(text.len() as int)
        } else {
            before
        }
    }
}

/// Whether a line begins at offset `p` of `text`: at the very start, or
/// right behind a line feed.
pub open spec fn begins_line(text: Seq<u8>, p: int) -> bool {
    p == 0 || (0 < p <= text.len() && text[p - 1] == LINE_FEED)
}

/// Whether `offset` can be given a position in `text`: it addresses one of
/// the bytes of the text, or it is the start of the text.
pub open spec fn locatable(text: Seq<u8>, offset: int) -> bool {
    offset == 0 || 0 < offset < text.len()
}

/// The index of the line that holds `offset`: the number of line feeds
/// that precede it. Meant for `0 <= offset <= text.len()`.
pub open spec fn line_of(text: Seq<u8>, offset: int) -> int {
    line_starts(text.take(offset)).len() - 1
}

/// The distance of `offset` from the start of its line. Meant for
/// `0 <= offset <= text.len()`.
pub open spec fn column_of(text: Seq<u8>, offset: int) -> int {
    offset - line_starts(text.take(offset)).last()
}

/// Whether `text` has a line with index `line`.
pub open spec fn has_line(text: Seq<u8>, line: int) -> bool {
    0 <= line < line_starts(text).len()
}

/// The offset of column `column` of line `line`. The column is not held
/// against the length of the line: one past its end gives an offset in a
/// later line, or behind the text. Meant for `has_line(text, line)`.
pub open spec fn offset_at(text: Seq<u8>, line: int, column: int) -> int {
    line_starts(text)[line] + column
}

/// Whether the line starts of `text` alone tell in which line `offset`
/// lies, whatever may follow `text`: the offset is 0, or it lies before the
/// last of the line starts.
pub open spec fn settled(text: Seq<u8>, offset: int) -> bool {
    offset == 0 || 0 < offset < line_starts(text).last()
}

/// Whether `table` begins with 0 and is strictly increasing.
pub open spec fn well_ordered(table: Seq<int>) -> bool {
    &&& table.len() > 0
    &&& table[0] == 0
    &&& forall|i: int, j: int| 0 <= i < j < table.len() ==> table[i] < table[j]
}

/// The line starts of any text begin with 0, are strictly increasing, and
/// none lies behind the end of the text.
pub proof fn lemma_line_starts_ordered(text: Seq<u8>)
    ensures
        well_ordered(line_starts(text)),
        forall|i: int|
            0 <= i < line_starts(text).len() ==> 0 <= #[trigger] line_starts(text)[i]
                <= text.len(),
    decreases text.len(),
{
    if text.len() > 0 {
        lemma_line_starts_ordered(text.drop_last());
    }
}

/// An empty text has the one line start 0.
pub proof fn lemma_line_starts_empty()
    ensures
        line_starts(Seq::<u8>::empty()) == seq![0int],
{
}

/// Appending one byte adds a line start exactly if the byte is a line feed.
pub proof fn lemma_line_starts_push(text: Seq<u8>, byte: u8)
    ensures
        line_starts(text.push(byte)) == if byte == LINE_FEED {
            line_starts(text).push(text.len() as int + 1)
        } else {
            line_starts(text)
        },
{
    assert(text.push(byte).drop_last() == text);
}

/// The line starts of a prefix are a prefix of the line starts of the whole
/// text, and every line start that the prefix lacks lies behind its end.
pub proof fn lemma_line_starts_prefix(text: Seq<u8>, n: int)
    requires
        0 <= n <= text.len(),
    ensures
        line_starts(text.take(n)).is_prefix_of(line_starts(text)),
        forall|i: int|
            line_starts(text.take(n)).len() <= i < line_starts(text).len() ==> n
                < #[trigger] line_starts(text)[i],
    decreases text.len(),
{
    if n == text.len() {
        assert(text.take(n) == text);
    } else {
        let shorter = text.drop_last();
        assert(shorter.take(n) == text.take(n));
        lemma_line_starts_prefix(shorter, n);
        lemma_line_starts_ordered(shorter);
    }
}

/// Of two prefixes of a text, the longer has the line starts of the
/// shorter, and maybe more.
pub proof fn lemma_line_starts_grow(text: Seq<u8>, m: int, n: int)
    requires
        0 <= m <= n <= text.len(),
    ensures
        line_starts(text.take(m)).is_prefix_of(line_starts(text.take(n))),
        has_line(text.take(m), 0),
        line_starts(text.take(m)).last() <= line_starts(text.take(n)).last(),
{
    assert(text.take(n).take(m) == text.take(m));
    lemma_line_starts_prefix(text.take(n), m);
    lemma_line_starts_ordered(text.take(m));
    lemma_line_starts_ordered(text.take(n));
    let short = line_starts(text.take(m));
    let long = line_starts(text.take(n));
    assert(short.last() == long[short.len() - 1]);
}

/// Every line start is a place where a line begins.
pub proof fn lemma_line_starts_sound(text: Seq<u8>, i: int)
    requires
        0 <= i < line_starts(text).len(),
    ensures
        begins_line(text, line_starts(text)[i]),
    decreases text.len(),
{
    if text.len() > 0 {
        let shorter = text.drop_last();
        if i < line_starts(shorter).len() {
            lemma_line_starts_sound(shorter, i);
            lemma_line_starts_ordered(shorter);
        }
    }
}

/// Every place where a line begins is among the line starts.
pub proof fn lemma_line_starts_complete(text: Seq<u8>, p: int)
    requires
        begins_line(text, p),
    ensures
        line_starts(text).contains(p),
    decreases text.len(),
{
    if text.len() == 0 {
        assert(line_starts(text)[0] == p);
    } else {
        let shorter = text.drop_last();
        if p == text.len() {
            assert(line_starts(text).last() == p);
        } else {
            lemma_line_starts_complete(shorter, p);
            let i = choose|i: int|
                0 <= i < line_starts(shorter).len() && line_starts(shorter)[i] == p;
            assert(line_starts(text)[i] == p);
        }
    }
}

/// The line starts of a text are exactly the places where a line begins.
pub proof fn lemma_line_starts_are_the_beginnings(text: Seq<u8>, p: int)
    ensures
        line_starts(text).contains(p) <==> begins_line(text, p),
{
    if line_starts(text).contains(p) {
        let i = choose|i: int| 0 <= i < line_starts(text).len() && line_starts(text)[i] == p;
        lemma_line_starts_sound(text, i);
    }
    if begins_line(text, p) {
        lemma_line_starts_complete(text, p);
    }
}

/// The end of line `line`: the start of the next line, or the end of the
/// text for the last line. Meant for `has_line(text, line)`.
pub open spec fn line_end(text: Seq<u8>, line: int) -> int {
    if line + 1 < line_starts(text).len() {
        line_starts(text)[line + 1]
    } else {
        text.len() as int
    }
}

/// Whether column `column` of line `line` addresses a byte of that line
/// (its line feed included), or is the start of the text.
pub open spec fn addresses(text: Seq<u8>, line: int, column: int) -> bool {
    &&& has_line(text, line)
    &&& 0 <= column
    &&& offset_at(text, line, column) < line_end(text, line) || (line == 0 && column == 0)
}

/// The line and column of an offset, read off the table of line starts:
/// the line is the last one that begins at or before the offset.
pub proof fn lemma_position_by_table(text: Seq<u8>, offset: int, line: int)
    requires
        0 <= offset <= text.len(),
        has_line(text, line),
        line_starts(text)[line] <= offset,
        line + 1 < line_starts(text).len() ==> offset < line_starts(text)[line + 1],
    ensures
        line_of(text, offset) == line,
        column_of(text, offset) == offset - line_starts(text)[line],
{
    let whole = line_starts(text);
    let part = line_starts(text.take(offset));
    lemma_line_starts_prefix(text, offset);
    lemma_line_starts_ordered(text);
    lemma_line_starts_ordered(text.take(offset));
    let last = part.len() - 1;
    assert(part[last] == whole[last]);
    if line < last {
        assert(whole[line + 1] <= whole[last]);
    }
    if line > last {
        assert(offset < whole[line]);
    }
}

/// The position of an offset depends only on the bytes before it.
pub proof fn lemma_position_in_prefix(text: Seq<u8>, n: int, offset: int)
    requires
        0 <= offset <= n <= text.len(),
    ensures
        line_of(text.take(n), offset) == line_of(text, offset),
        column_of(text.take(n), offset) == column_of(text, offset),
{
    assert(text.take(n).take(offset) == text.take(offset));
}

/// Every text has a line 0, which begins at offset 0: offset 0 and the
/// position in column 0 of line 0 are the same place.
pub proof fn lemma_origin(text: Seq<u8>)
    ensures
        has_line(text, 0),
        offset_at(text, 0, 0) == 0,
        locatable(text, 0),
        line_of(text, 0) == 0,
        column_of(text, 0) == 0,
{
    lemma_line_starts_ordered(text);
    assert(text.take(0) == Seq::<u8>::empty());
}

/// From an offset to its position and back: the position of an offset
/// names a line of the text, its column is not negative, and the offset of
/// that position is the offset again.
pub proof fn lemma_offset_round_trip(text: Seq<u8>, offset: int)
    requires
        0 <= offset <= text.len(),
    ensures
        has_line(text, line_of(text, offset)),
        0 <= column_of(text, offset) <= offset,
        offset_at(text, line_of(text, offset), column_of(text, offset)) == offset,
        locatable(text, offset) ==> addresses(text, line_of(text, offset), column_of(text, offset)),
{
    lemma_line_starts_prefix(text, offset);
    lemma_line_starts_ordered(text.take(offset));
    lemma_line_starts_ordered(text);
    let part = line_starts(text.take(offset));
    let line = part.len() - 1;
    assert(part[line] == line_starts(text)[line]);
}

/// From a position to its offset and back: where the column addresses a
/// byte of its line, the offset of the position can be located, and its
/// position is the line and the column again.
pub proof fn lemma_position_round_trip(text: Seq<u8>, line: int, column: int)
    requires
        addresses(text, line, column),
    ensures
        locatable(text, offset_at(text, line, column)),
        line_of(text, offset_at(text, line, column)) == line,
        column_of(text, offset_at(text, line, column)) == column,
{
    lemma_line_starts_ordered(text);
    let offset = offset_at(text, line, column);
    if line == 0 && column == 0 {
        assert(text.take(0) == Seq::<u8>::empty());
    } else {
        lemma_position_by_table(text, offset, line);
    }
}

} // verus!
