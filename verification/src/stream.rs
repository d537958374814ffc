//! A stream that converts between byte offsets and line-column positions
//! while it reads its source, no further than a query needs.

use crate::cost::{lemma_budget_kept, lemma_budget_spent, on_budget};
use crate::location::line_column::ZeroBased;
use crate::location::Offset;
use crate::source::{ByteSource, Pipe};
use crate::text::{
    addresses, column_of, has_line, lemma_line_starts_grow, lemma_line_starts_ordered,
    lemma_line_starts_prefix, lemma_line_starts_push, lemma_offset_round_trip,
    lemma_position_by_table, lemma_position_in_prefix, lemma_position_round_trip, line_of,
    line_starts, locatable, offset_at, settled, well_ordered, LINE_FEED,
};
use vstd::prelude::*;
use vstd::slice::slice_subrange;

verus! {

/// Why a query on a stream found no answer.
#[derive(Debug, Clone, Copy, PartialEq, Eq, Structural)]
pub enum StreamError {
    /// The source failed to hand out bytes that the query needed: it is
    /// not complete, and all that it had at hand was read.
    SourceReadFailure,
    /// The offset lies at or behind the end of the source.
    OffsetOutOfRange,
    /// The source has no line with the index asked for.
    InvalidPosition,
}

/// The number of bytes that a stream asks its source for at a time, unless
/// told otherwise.
pub const BUF_SIZE: usize = 1024;

/// A byte source together with the table of the line starts found in the
/// part of it that was read so far.
///
/// The table grows as queries make the stream read on; nothing in it is
/// ever changed or removed.
pub struct Stream<R> {
    reader: R,
    base: usize,
    lines: Vec<usize>,
    next_offset: usize,
    current_line: usize,
    buffer: Vec<u8>,
    text: Ghost<Seq<u8>>,
    steps: Ghost<nat>,
}

/// Whether `xs` is strictly increasing.
pub open spec fn strictly_increasing(xs: Seq<usize>) -> bool {
    forall|i: int, j: int| 0 <= i < j < xs.len() ==> xs[i] < xs[j]
}

/// Finds the interval between two neighbours of the increasing sequence
/// `xs` in which `x` lies, and returns the index at which it starts.
///
/// The last element starts no interval: an `x` at or behind it is not
/// placed, nor is one before the first element. The one exception is 0,
/// which is always placed in the first interval of a non-empty `xs`.
pub fn binary_search_between(xs: &[usize], x: usize) -> (found: Option<usize>)
    requires
        strictly_increasing(xs@),
    ensures
        match found {
            Some(i) => if x == 0 {
                i == 0 && xs@.len() > 0
            } else {
                i + 1 < xs@.len() && xs@[i as int] <= x < xs@[i + 1]
            },
            None => xs@.len() == 0 || (x != 0 && (x < xs@[0] || xs@[xs@.len() - 1] <= x)),
        },
{
    if xs.len() == 0 {
        return None;
    }
    if x == 0 {
        return Some(0);
    }
    let mut start: usize = 0;
    let mut end: usize = xs.len() - 1;
    while start < end
        invariant
            strictly_increasing(xs@),
            x != 0,
            start <= end < xs@.len(),
            start == 0 || xs@[start as int] < x,
            end == xs@.len() - 1 || x < xs@[end as int],
        decreases end - start,
    {
        if start == end - 1 && xs[start] <= x && x < xs[end] {
            return Some(start);
        }
        let mid: usize = start + (end - start) / 2;
        let y: usize = xs[mid];
        if x == y {
            return Some(mid);
        }
        if x < y {
            end = mid;
            continue;
        }
        if start == mid {
            return None;
        }
        start = mid;
    }
    None
}

/// Where a stream that stands at `from` stops reading for a query for
/// `offset`: at the first place, going on from `from` in steps of `chunk`
/// bytes, where the line starts of what was read can place the offset; at
/// the end of `text` if there is no such place before.
pub open spec fn reading_stops_for_offset(text: Seq<u8>, from: int, chunk: int, offset: int) -> int
    decreases text.len() - from,
{
    if chunk <= 0 || from >= text.len() || settled(text.take(from), offset) {
        from
    } else if from + chunk <= text.len() {
        reading_stops_for_offset(text, from + chunk, chunk, offset)
    } else {
        text.len() as int
    }
}

/// Where a stream that stands at `from` stops reading for a query for line
/// `line`: at the first place, going on from `from` in steps of `chunk`
/// bytes, where what was read has that line; at the end of `text` if there
/// is no such place before.
pub open spec fn reading_stops_for_line(text: Seq<u8>, from: int, chunk: int, line: int) -> int
    decreases text.len() - from,
{
    if chunk <= 0 || from >= text.len() || has_line(text.take(from), line) {
        from
    } else if from + chunk <= text.len() {
        reading_stops_for_line(text, from + chunk, chunk, line)
    } else {
        text.len() as int
    }
}

impl<R> Stream<R> {
    /// The text of the source: what was read so far, followed by what the
    /// source has at hand.
    pub closed spec fn content(&self) -> Seq<u8> {
        self.text@
    }

    /// The number of bytes read so far.
    pub closed spec fn scanned_len(&self) -> int {
        self.next_offset as int
    }

    /// The line starts found so far.
    pub closed spec fn table(&self) -> Seq<int> {
        self.lines@.map_values(|start: usize| start as int)
    }

    /// The base that was last set.
    pub closed spec fn base_value(&self) -> usize {
        self.base
    }

    /// The number of bytes asked of the source at a time.
    pub closed spec fn chunk_size(&self) -> int {
        self.buffer@.len() as int
    }

    /// The number of scan steps taken so far.
    pub closed spec fn scan_steps(&self) -> int {
        self.steps@ as int
    }

    /// The part of the text that was read so far.
    pub open spec fn scanned(&self) -> Seq<u8> {
        self.content().take(self.scanned_len())
    }

    /// Whether all of the text was read: the source has nothing at hand.
    pub open spec fn exhausted(&self) -> bool {
        self.scanned_len() == self.content().len()
    }

    /// The number of bytes that the next scan step reads, if it does not
    /// fail: a full chunk, or what is left of the text.
    pub open spec fn next_chunk_len(&self) -> int {
        let left = self.content().len() - self.scanned_len();
        if self.chunk_size() <= left {
            self.chunk_size()
        } else {
            left
        }
    }

    /// Whether a query for `offset` is answered from the table as it is,
    /// without a read.
    pub open spec fn resolves(&self, offset: int) -> bool {
        offset == 0 || 0 < offset < self.table().last()
    }

    /// Whether line `line` is in the table.
    pub open spec fn knows_line(&self, line: int) -> bool {
        0 <= line < self.table().len()
    }

    /// Whether this stream is in the state of `before`: nothing was read
    /// in between.
    pub open spec fn untouched(&self, before: Self) -> bool {
        &&& self.scanned_len() == before.scanned_len()
        &&& self.table() == before.table()
        &&& self.scan_steps() == before.scan_steps()
    }

    /// Whether of the scan steps taken since `before` all but two read a
    /// full chunk. The two are a step that read the last bytes of the text
    /// and a step that found nothing left.
    pub open spec fn read_in_chunks(&self, before: Self) -> bool {
        (self.scan_steps() - before.scan_steps() - 2) * self.chunk_size() <= self.scanned_len()
            - before.scanned_len()
    }

    /// The base that was last set; 0 for a new stream.
    #[inline]
    pub fn base(&self) -> (base: usize)
        ensures
            base == self.base_value(),
    {
        self.base
    }

    /// The start of line `line`, if the line is in the table. Nothing is
    /// read.
    #[inline]
    pub fn line_offset(&self, line: usize) -> (start: Option<Offset>)
        ensures
            match start {
                Some(offset) => {
                    &&& self.knows_line(line as int)
                    &&& offset.0 == self.table()[line as int]
                },
                None => !self.knows_line(line as int),
            },
    {
        if line < self.lines.len() {
            Some(Offset::new(self.lines[line]))
        } else {
            None
        }
    }
}

impl<R: ByteSource> Stream<R> {
    /// Whether the source stands where the stream believes it to stand.
    pub closed spec fn in_step(&self) -> bool {
        &&& self.next_offset <= self.text@.len()
        &&& self.reader.pending() == self.text@.skip(self.next_offset as int)
        &&& self.current_line + 1 == self.lines@.len()
    }

    /// Whether the text is complete: no byte will be added to the source.
    pub closed spec fn complete(&self) -> bool {
        self.reader.complete()
    }

    /// Whether the text tells in which line `offset` lies: a line start of
    /// the text lies behind the offset, or the offset is 0, or the text is
    /// complete and the offset lies before its end.
    pub open spec fn places(&self, offset: int) -> bool {
        settled(self.content(), offset) || (self.complete() && 0 <= offset < self.content().len())
    }

    /// The error of a query that the text cannot answer: if the text is
    /// complete, `at_end`; if it is not, the failure of the read for more.
    pub open spec fn error_at_end(&self, at_end: StreamError) -> StreamError {
        if self.complete() {
            at_end
        } else {
            StreamError::SourceReadFailure
        }
    }

    /// The invariant of a stream: its table holds exactly the line starts
    /// of the part of the text that was read.
    pub open spec fn wf(&self) -> bool {
        &&& self.chunk_size() > 0
        &&& 0 <= self.scanned_len() <= self.content().len() <= usize::MAX
        &&& self.table() == line_starts(self.scanned())
        &&& self.in_step()
    }

    /// Whether this stream is what `before` has become by reading on: the
    /// text, the base and the chunk size are those of `before`, and the
    /// table of `before` is the beginning of the table.
    pub open spec fn extends(&self, before: Self) -> bool {
        &&& self.wf()
        &&& self.content() == before.content()
        &&& self.complete() == before.complete()
        &&& self.base_value() == before.base_value()
        &&& self.chunk_size() == before.chunk_size()
        &&& before.scanned_len() <= self.scanned_len()
        &&& before.scan_steps() <= self.scan_steps()
        &&& before.table().is_prefix_of(self.table())
    }

    /// In every state the table begins with 0 and is strictly increasing,
    /// and it is the beginning of the line starts of the whole text. Of a
    /// stream that has read nothing it is the one entry 0.
    pub proof fn lemma_table_ordered(&self)
        requires
            self.wf(),
        ensures
            well_ordered(self.table()),
            self.table().is_prefix_of(line_starts(self.content())),
            self.scanned_len() == 0 ==> self.table() == seq![0int],
            self.exhausted() ==> self.table() == line_starts(self.content()),
    {
        lemma_line_starts_ordered(self.scanned());
        lemma_line_starts_prefix(self.content(), self.scanned_len());
        if self.scanned_len() == 0 {
            assert(self.scanned() == Seq::<u8>::empty());
        }
        if self.exhausted() {
            assert(self.scanned() == self.content());
        }
    }

    /// A complete text tells the line of offset 0 and of every offset before
    /// its end, and of no other. A text that is not complete tells it where
    /// a line start lies behind the offset, whatever is added later.
    pub proof fn lemma_places(&self, offset: int)
        requires
            self.wf(),
        ensures
            self.complete() ==> (self.places(offset) <==> locatable(self.content(), offset)),
            self.places(offset) ==> locatable(self.content(), offset),
            self.resolves(offset) ==> self.places(offset),
    {
        lemma_line_starts_ordered(self.content());
        if self.resolves(offset) {
            self.lemma_resolved(offset);
        }
    }

    /// The start of a line of the text lies within the text, so it can be
    /// held in a `usize`: column 0 of a line can always be asked for.
    pub proof fn lemma_line_start_fits(&self, line: int)
        requires
            self.wf(),
            has_line(self.content(), line),
        ensures
            0 <= offset_at(self.content(), line, 0) <= self.content().len() <= usize::MAX,
    {
        lemma_line_starts_ordered(self.content());
    }

    /// From an offset to its position and back: where the text tells the
    /// line of an offset, the position that `line_index` gives for it names
    /// a line of the text, and the offset that `offset_of` gives for that
    /// position is the offset again.
    pub proof fn lemma_offset_round_trip(&self, offset: int)
        requires
            self.wf(),
            self.places(offset),
        ensures
            has_line(self.content(), line_of(self.content(), offset)),
            0 <= column_of(self.content(), offset),
            offset_at(
                self.content(),
                line_of(self.content(), offset),
                column_of(self.content(), offset),
            ) == offset,
    {
        self.lemma_places(offset);
        lemma_offset_round_trip(self.content(), offset);
    }

    /// From a position to its offset and back: where the column of a
    /// position addresses a byte of its line, the text, once it is
    /// complete, tells the line of the offset that `offset_of` gives for the
    /// position, and the position that `line_index` gives for that offset
    /// is the position again.
    pub proof fn lemma_position_round_trip(&self, line: int, column: int)
        requires
            self.wf(),
            self.complete(),
            addresses(self.content(), line, column),
        ensures
            self.places(offset_at(self.content(), line, column)),
            line_of(self.content(), offset_at(self.content(), line, column)) == line,
            column_of(self.content(), offset_at(self.content(), line, column)) == column,
    {
        lemma_position_round_trip(self.content(), line, column);
    }

    /// A stream over `reader` that asks it for `buffer_size` bytes at a
    /// time. Nothing is read yet.
    pub fn new(reader: R, buffer_size: usize) -> (stream: Self)
        requires
            buffer_size > 0,
        ensures
            stream.wf(),
            stream.content() == reader.pending(),
            stream.complete() == reader.complete(),
            stream.scanned_len() == 0,
            stream.scan_steps() == 0,
            stream.table() == seq![0int],
            stream.base_value() == 0,
            stream.chunk_size() == buffer_size,
    {
        let ghost text = reader.pending();
        let mut lines: Vec<usize> = Vec::new();
        lines.push(0);
        let stream = Stream {
            reader,
            base: 0,
            lines,
            next_offset: 0,
            current_line: 0,
            buffer: vec![0u8; buffer_size],
            text: Ghost(text),
            steps: Ghost(0),
        };
        proof {
            stream.reader.lemma_pending_fits();
            assert(stream.table() == seq![0int]);
            assert(text.take(0) == Seq::<u8>::empty());
            assert(text.skip(0) == text);
        }
        stream
    }

    /// A stream over `reader` with the default chunk size.
    #[inline]
    pub fn from_reader(reader: R) -> (stream: Self)
        ensures
            stream.wf(),
            stream.content() == reader.pending(),
            stream.complete() == reader.complete(),
            stream.scanned_len() == 0,
            stream.scan_steps() == 0,
            stream.table() == seq![0int],
            stream.base_value() == 0,
            stream.chunk_size() == BUF_SIZE,
    {
        Self::new(reader, BUF_SIZE)
    }

    /// Sets the base. Neither the table nor the source is touched.
    #[inline]
    pub fn set_base(&mut self, base: usize)
        ensures
            final(self).base_value() == base,
            final(self).content() == old(self).content(),
            final(self).complete() == old(self).complete(),
            final(self).chunk_size() == old(self).chunk_size(),
            final(self).in_step() == old(self).in_step(),
            final(self).untouched(*old(self)),
    {
        self.base = base;
    }

    /// Sets the base back to 0.
    #[inline]
    pub fn reset(&mut self)
        ensures
            final(self).base_value() == 0,
            final(self).content() == old(self).content(),
            final(self).complete() == old(self).complete(),
            final(self).chunk_size() == old(self).chunk_size(),
            final(self).in_step() == old(self).in_step(),
            final(self).untouched(*old(self)),
    {
        self.set_base(0);
    }

    /// The number of bytes read so far.
    #[inline]
    pub fn read_len(&self) -> (len: usize)
        ensures
            len == self.scanned_len(),
    {
        self.next_offset
    }

    /// One scan step: asks the source for the next chunk, enters the line
    /// starts that it holds into the table, and returns its length.
    ///
    /// A step reads a full chunk, or what is left of the text where that is
    /// less. Once the whole text was read a step changes nothing, however
    /// often it is repeated: it returns 0 if the text is complete, and
    /// fails if it is not.
    pub fn forward(&mut self) -> (read: Result<usize, StreamError>)
        requires
            old(self).wf(),
        ensures
            final(self).extends(*old(self)),
            final(self).scan_steps() == old(self).scan_steps() + 1,
            old(self).exhausted() ==> final(self).exhausted() && final(self).table() == old(
                self,
            ).table(),
            read is Err <==> !old(self).complete() && old(self).exhausted(),
            match read {
                Ok(n) => {
                    &&& n == old(self).next_chunk_len()
                    &&& final(self).scanned_len() == old(self).scanned_len() + n
                },
                Err(e) => e == StreamError::SourceReadFailure,
            },
    {
        let ghost text = self.text@;
        let ghost before = self.next_offset as int;
        self.steps = Ghost((self.steps@ + 1) as nat);
        let n = match self.reader.read(&mut self.buffer) {
            Ok(n) => n,
            Err(_) => {
                return Err(StreamError::SourceReadFailure);
            },
        };
        let mut i: usize = 0;
        while i < n
            invariant
                i <= n <= self.buffer@.len(),
                self.text@ == text,
                self.next_offset == before,
                before + n <= text.len() <= usize::MAX,
                self.buffer@.take(n as int) == text.skip(before).take(n as int),
                self.table() == line_starts(text.take(before + i)),
                self.current_line + 1 == self.lines@.len(),
                old(self).table().is_prefix_of(self.table()),
                i == 0 ==> self.table() == old(self).table(),
                self.reader.pending() == text.skip(before + n),
                self.reader.complete() == old(self).reader.complete(),
                self.base == old(self).base,
                self.buffer@.len() == old(self).buffer@.len(),
                self.steps@ == old(self).steps@ + 1,
            decreases n - i,
        {
            proof {
                let at = before + i;
                assert(self.buffer@[i as int] == self.buffer@.take(n as int)[i as int]);
                assert(text.skip(before).take(n as int)[i as int] == text[at]);
                assert(text.take(at + 1) == text.take(at).push(text[at]));
                lemma_line_starts_push(text.take(at), text[at]);
            }
            if self.buffer[i] == LINE_FEED {
                let ghost shorter = self.table();
                assert(self.lines.len() <= usize::MAX);
                self.current_line += 1;
                self.lines.push(self.next_offset + i + 1);
                proof {
                    assert(self.table() == shorter.push(before + i + 1));
                }
            }
            i += 1;
        }
        self.next_offset += n;
        proof {
            assert(text.skip(before).skip(n as int) == text.skip(before + n));
        }
        Ok(n)
    }

    /// Searches the table, from entry `begin` on, for the line that holds
    /// `x`. The line is found exactly if the table as it is can place `x`.
    fn search_table(&self, begin: usize, x: usize) -> (found: Option<usize>)
        requires
            self.wf(),
            begin < self.table().len(),
            self.table()[begin as int] <= x,
        ensures
            match found {
                Some(line) => {
                    &&& self.resolves(x as int)
                    &&& self.knows_line(line as int)
                    &&& line == line_of(self.scanned(), x as int)
                },
                None => !self.resolves(x as int),
            },
    {
        let n = self.lines.len();
        let window = slice_subrange(self.lines.as_slice(), begin, n);
        proof {
            lemma_line_starts_ordered(self.scanned());
            assert forall|i: int, j: int| 0 <= i < j < self.lines@.len() implies self.lines@[i]
                < self.lines@[j] by {
                assert(self.table()[i] < self.table()[j]);
            }
        }
        match binary_search_between(window, x) {
            Some(i) => {
                proof {
                    let line = begin + i;
                    if x != 0 {
                        assert(self.table()[line + 1] <= self.table()[n - 1]);
                        lemma_position_by_table(self.scanned(), x as int, line);
                    }
                }
                Some(begin + i)
            },
            None => None,
        }
    }

    /// What the table can place, the whole text places in the same line.
    proof fn lemma_resolved(&self, offset: int)
        requires
            self.wf(),
            self.resolves(offset),
        ensures
            settled(self.content(), offset),
            line_of(self.content(), offset) == line_of(self.scanned(), offset),
    {
        let text = self.content();
        lemma_line_starts_ordered(self.scanned());
        lemma_line_starts_grow(text, self.scanned_len(), text.len() as int);
        assert(text.take(text.len() as int) == text);
        lemma_position_in_prefix(text, self.scanned_len(), offset);
    }

    /// The index of the line that holds `offset`.
    ///
    /// An offset before the last line start in the table, and offset 0, are
    /// placed without a read. For any other offset the stream reads on,
    /// chunk by chunk, until a line start behind the offset is in the table
    /// or nothing is left to read; each search of the table begins where
    /// the one before it ended. At the end of a complete text an offset
    /// before the end lies in the last line, and any other is out of range.
    pub fn line_of(&mut self, offset: Offset) -> (found: Result<usize, StreamError>)
        requires
            old(self).wf(),
        ensures
            final(self).extends(*old(self)),
            final(self).scanned_len() == reading_stops_for_offset(
                old(self).content(),
                old(self).scanned_len(),
                old(self).chunk_size(),
                offset.0 as int,
            ),
            final(self).read_in_chunks(*old(self)),
            old(self).resolves(offset.0 as int) ==> final(self).untouched(*old(self)),
            found is Ok <==> old(self).places(offset.0 as int),
            match found {
                Ok(line) => {
                    &&& line == line_of(old(self).content(), offset.0 as int)
                    &&& final(self).knows_line(line as int)
                },
                Err(e) => {
                    &&& e == old(self).error_at_end(StreamError::OffsetOutOfRange)
                    &&& final(self).exhausted()
                },
            },
    {
        let x = offset.raw();
        let ghost text = self.text@;
        let ghost chunk = self.chunk_size();
        let ghost goal = reading_stops_for_offset(text, self.scanned_len(), chunk, x as int);
        let mut begin: usize = 0;
        proof {
            lemma_line_starts_ordered(self.scanned());
            assert(on_budget(0, 0, chunk, text.len() - self.scanned_len())) by (nonlinear_arith)
                requires
                    chunk > 0,
            ;
        }
        loop
            invariant
                self.extends(*old(self)),
                self.content() == text,
                self.chunk_size() == chunk,
                begin < self.table().len(),
                self.table()[begin as int] <= x,
                x == offset.0,
                !old(self).resolves(x as int) || self.untouched(*old(self)),
                goal == reading_stops_for_offset(text, old(self).scanned_len(), chunk, x as int),
                goal == reading_stops_for_offset(text, self.scanned_len(), chunk, x as int),
                on_budget(
                    self.scan_steps() - old(self).scan_steps(),
                    self.scanned_len() - old(self).scanned_len(),
                    chunk,
                    text.len() - self.scanned_len(),
                ),
            decreases text.len() - self.scanned_len(),
        {
            proof {
                lemma_budget_spent(
                    self.scan_steps() - old(self).scan_steps(),
                    self.scanned_len() - old(self).scanned_len(),
                    chunk,
                    text.len() - self.scanned_len(),
                );
            }
            match self.search_table(begin, x) {
                Some(line) => {
                    proof {
                        self.lemma_resolved(x as int);
                    }
                    return Ok(line);
                },
                None => {},
            }
            let ghost left = text.len() - self.scanned_len();
            begin = self.lines.len() - 1;
            match self.forward() {
                Err(e) => {
                    proof {
                        assert(text.take(text.len() as int) == text);
                    }
                    return Err(e);
                },
                Ok(read) => {
                    if read == 0 {
                        proof {
                            assert(self.scanned() == text);
                        }
                        if x < self.next_offset {
                            proof {
                                lemma_position_by_table(text, x as int, begin as int);
                            }
                            return Ok(self.current_line);
                        }
                        return Err(StreamError::OffsetOutOfRange);
                    }
                    proof {
                        lemma_budget_kept(
                            self.scan_steps() - old(self).scan_steps() - 1,
                            self.scanned_len() - old(self).scanned_len() - read,
                            chunk,
                            left,
                            read as int,
                        );
                    }
                },
            }
        }
    }

    /// The position of `offset`: its line, and its distance from the start
    /// of that line. The stream reads on as `line_of` does.
    pub fn line_index(&mut self, offset: Offset) -> (found: Result<ZeroBased, StreamError>)
        requires
            old(self).wf(),
        ensures
            final(self).extends(*old(self)),
            final(self).scanned_len() == reading_stops_for_offset(
                old(self).content(),
                old(self).scanned_len(),
                old(self).chunk_size(),
                offset.0 as int,
            ),
            final(self).read_in_chunks(*old(self)),
            old(self).resolves(offset.0 as int) ==> final(self).untouched(*old(self)),
            found is Ok <==> old(self).places(offset.0 as int),
            match found {
                Ok(position) => {
                    &&& position.line == line_of(old(self).content(), offset.0 as int)
                    &&& position.column == column_of(old(self).content(), offset.0 as int)
                    &&& final(self).knows_line(position.line as int)
                },
                Err(e) => {
                    &&& e == old(self).error_at_end(StreamError::OffsetOutOfRange)
                    &&& final(self).exhausted()
                },
            },
    {
        let line = match self.line_of(offset) {
            Ok(line) => line,
            Err(e) => {
                return Err(e);
            },
        };
        proof {
            lemma_line_starts_ordered(self.content());
            lemma_line_starts_prefix(self.content(), self.scanned_len());
            lemma_offset_round_trip(self.content(), offset.0 as int);
            assert(self.table()[line as int] == self.lines@[line as int]);
        }
        let line_offset = self.lines[line];
        let col = offset.raw() - line_offset;
        Ok(ZeroBased::new(line, col))
    }

    /// The offset of the position `line_index`.
    ///
    /// A line that is in the table is answered without a read; for any
    /// other the stream reads on, chunk by chunk, until the line is in the
    /// table or nothing is left to read. The column is added to the start
    /// of the line as it is: it is not held against the length of the line.
    /// The sum has to fit in a `usize`.
    pub fn offset_of(&mut self, line_index: ZeroBased) -> (found: Result<Offset, StreamError>)
        requires
            old(self).wf(),
            has_line(old(self).content(), line_index.line as int) ==> offset_at(
                old(self).content(),
                line_index.line as int,
                line_index.column as int,
            ) <= usize::MAX,
        ensures
            final(self).extends(*old(self)),
            final(self).scanned_len() == reading_stops_for_line(
                old(self).content(),
                old(self).scanned_len(),
                old(self).chunk_size(),
                line_index.line as int,
            ),
            final(self).read_in_chunks(*old(self)),
            old(self).knows_line(line_index.line as int) ==> final(self).untouched(*old(self)),
            found is Ok <==> has_line(old(self).content(), line_index.line as int),
            match found {
                Ok(offset) => {
                    &&& offset.0 == offset_at(
                        old(self).content(),
                        line_index.line as int,
                        line_index.column as int,
                    )
                    &&& final(self).knows_line(line_index.line as int)
                },
                Err(e) => {
                    &&& e == old(self).error_at_end(StreamError::InvalidPosition)
                    &&& final(self).exhausted()
                },
            },
    {
        let (line, col) = line_index.raw();
        let ghost text = self.text@;
        let ghost chunk = self.chunk_size();
        let ghost goal = reading_stops_for_line(text, self.scanned_len(), chunk, line as int);
        proof {
            assert(on_budget(0, 0, chunk, text.len() - self.scanned_len())) by (nonlinear_arith)
                requires
                    chunk > 0,
            ;
        }
        loop
            invariant
                self.extends(*old(self)),
                self.content() == text,
                self.chunk_size() == chunk,
                line == line_index.line,
                col == line_index.column,
                has_line(text, line as int) ==> offset_at(text, line as int, col as int)
                    <= usize::MAX,
                !old(self).knows_line(line as int) || self.untouched(*old(self)),
                goal == reading_stops_for_line(text, old(self).scanned_len(), chunk, line as int),
                goal == reading_stops_for_line(text, self.scanned_len(), chunk, line as int),
                on_budget(
                    self.scan_steps() - old(self).scan_steps(),
                    self.scanned_len() - old(self).scanned_len(),
                    chunk,
                    text.len() - self.scanned_len(),
                ),
            decreases text.len() - self.scanned_len(),
        {
            proof {
                lemma_line_starts_prefix(text, self.scanned_len());
                lemma_budget_spent(
                    self.scan_steps() - old(self).scan_steps(),
                    self.scanned_len() - old(self).scanned_len(),
                    chunk,
                    text.len() - self.scanned_len(),
                );
            }
            if line < self.lines.len() {
                proof {
                    assert(self.table()[line as int] == self.lines@[line as int]);
                    assert(self.table()[line as int] == line_starts(text)[line as int]);
                }
                return Ok(Offset::new(self.lines[line] + col));
            }
            let ghost left = text.len() - self.scanned_len();
            match self.forward() {
                Err(e) => {
                    proof {
                        assert(text.take(text.len() as int) == text);
                    }
                    return Err(e);
                },
                Ok(read) => {
                    if read == 0 {
                        proof {
                            assert(text.take(text.len() as int) == text);
                        }
                        return Err(StreamError::InvalidPosition);
                    }
                    proof {
                        lemma_budget_kept(
                            self.scan_steps() - old(self).scan_steps() - 1,
                            self.scanned_len() - old(self).scanned_len() - read,
                            chunk,
                            left,
                            read as int,
                        );
                    }
                },
            }
        }
    }

    /// The offset of the position `line_index`, for a caller that cannot
    /// tell whether it fits in a `usize`: none where it does not. The stream
    /// reads on as `offset_of` does.
    pub fn try_offset_of(&mut self, line_index: ZeroBased) -> (found: Result<
        Option<Offset>,
        StreamError,
    >)
        requires
            old(self).wf(),
        ensures
            final(self).extends(*old(self)),
            final(self).scanned_len() == reading_stops_for_line(
                old(self).content(),
                old(self).scanned_len(),
                old(self).chunk_size(),
                line_index.line as int,
            ),
            final(self).read_in_chunks(*old(self)),
            old(self).knows_line(line_index.line as int) ==> final(self).untouched(*old(self)),
            found is Ok <==> has_line(old(self).content(), line_index.line as int),
            match found {
                Ok(fitting) => {
                    let offset = offset_at(
                        old(self).content(),
                        line_index.line as int,
                        line_index.column as int,
                    );
                    &&& final(self).knows_line(line_index.line as int)
                    &&& fitting is Some <==> offset <= usize::MAX
                    &&& fitting matches Some(at) ==> at.0 == offset
                },
                Err(e) => {
                    &&& e == old(self).error_at_end(StreamError::InvalidPosition)
                    &&& final(self).exhausted()
                },
            },
    {
        let (line, col) = line_index.raw();
        proof {
            if has_line(self.content(), line as int) {
                self.lemma_line_start_fits(line as int);
            }
        }
        match self.offset_of(ZeroBased::new(line, 0)) {
            Ok(start) => {
                if col <= usize::MAX - start.raw() {
                    Ok(Some(Offset::new(start.raw() + col)))
                } else {
                    Ok(None)
                }
            },
            Err(e) => Err(e),
        }
    }

    /// Reads all of the text, so that the table holds every one of its
    /// line starts. Where the text is not complete this fails, once all
    /// that the source had at hand was read.
    pub fn drain(&mut self) -> (done: Result<(), StreamError>)
        requires
            old(self).wf(),
        ensures
            final(self).extends(*old(self)),
            final(self).read_in_chunks(*old(self)),
            final(self).exhausted(),
            final(self).table() == line_starts(old(self).content()),
            done is Ok <==> old(self).complete(),
            done matches Err(e) ==> e == StreamError::SourceReadFailure,
    {
        let ghost text = self.text@;
        let ghost chunk = self.chunk_size();
        proof {
            assert(on_budget(0, 0, chunk, text.len() - self.scanned_len())) by (nonlinear_arith)
                requires
                    chunk > 0,
            ;
        }
        loop
            invariant
                self.extends(*old(self)),
                self.content() == text,
                self.chunk_size() == chunk,
                on_budget(
                    self.scan_steps() - old(self).scan_steps(),
                    self.scanned_len() - old(self).scanned_len(),
                    chunk,
                    text.len() - self.scanned_len(),
                ),
            decreases text.len() - self.scanned_len(),
        {
            proof {
                lemma_budget_spent(
                    self.scan_steps() - old(self).scan_steps(),
                    self.scanned_len() - old(self).scanned_len(),
                    chunk,
                    text.len() - self.scanned_len(),
                );
            }
            let ghost left = text.len() - self.scanned_len();
            match self.forward() {
                Err(e) => {
                    proof {
                        assert(text.take(text.len() as int) == text);
                    }
                    return Err(e);
                },
                Ok(read) => {
                    if read == 0 {
                        proof {
                            assert(text.take(text.len() as int) == text);
                        }
                        return Ok(());
                    }
                    proof {
                        lemma_budget_kept(
                            self.scan_steps() - old(self).scan_steps() - 1,
                            self.scanned_len() - old(self).scanned_len() - read,
                            chunk,
                            left,
                            read as int,
                        );
                    }
                },
            }
        }
    }
}

impl Stream<Pipe> {
    /// Appends `chunk` to the text of the source. A stream whose pipe is
    /// closed takes nothing, nor does one whose text would then be longer
    /// than `usize::MAX`: the result says whether the chunk was taken.
    /// Nothing is read, and the table stays as it is.
    pub fn feed(&mut self, chunk: &[u8]) -> (taken: bool)
        requires
            old(self).wf(),
        ensures
            final(self).wf(),
            taken <==> !old(self).complete() && old(self).content().len() + chunk@.len()
                <= usize::MAX,
            final(self).content() == if taken {
                old(self).content() + chunk@
            } else {
                old(self).content()
            },
            final(self).complete() == old(self).complete(),
            final(self).base_value() == old(self).base_value(),
            final(self).chunk_size() == old(self).chunk_size(),
            final(self).untouched(*old(self)),
    {
        let ghost text = self.text@;
        let held = self.reader.len();
        if chunk.len() > usize::MAX - self.next_offset - held {
            return false;
        }
        let taken = self.reader.push(chunk);
        if taken {
            proof {
                let longer = text + chunk@;
                let at = self.next_offset as int;
                assert(longer.take(at) == text.take(at));
                assert(longer.skip(at) == text.skip(at) + chunk@);
            }
            self.text = Ghost(text + chunk@);
        }
        taken
    }

    /// Closes the pipe: the text is complete. From now on a query that
    /// reaches its end is answered, where before it failed for want of
    /// bytes.
    pub fn close(&mut self)
        requires
            old(self).wf(),
        ensures
            final(self).wf(),
            final(self).complete(),
            final(self).content() == old(self).content(),
            final(self).base_value() == old(self).base_value(),
            final(self).chunk_size() == old(self).chunk_size(),
            final(self).untouched(*old(self)),
    {
        self.reader.close();
    }
}

/// What `from` returns is stated by its own contract, over the model of the
/// stream: a stream has no value that could be written down here.
impl<R: ByteSource> vstd::std_specs::convert::FromSpecImpl<R> for Stream<R> {
    open spec fn obeys_from_spec() -> bool {
        false
    }

    open spec fn from_spec(v: R) -> Self {
        arbitrary()
    }
}

impl<R: ByteSource> From<R> for Stream<R> {
    /// A stream over `value` with the default chunk size.
    fn from(value: R) -> (stream: Self)
        ensures
            stream.wf(),
            stream.content() == value.pending(),
            stream.complete() == value.complete(),
            stream.scanned_len() == 0,
            stream.scan_steps() == 0,
            stream.table() == seq![0int],
            stream.base_value() == 0,
            stream.chunk_size() == BUF_SIZE,
    {
        Stream::from_reader(value)
    }
}

} // verus!
