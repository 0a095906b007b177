//! From byte spans to lines and columns.
//!
//! Lines are counted from zero, by the line feeds before a place. Columns
//! are counted from zero in units of UTF-16, as editors count them.

use crate::span::ByteSpan;
use crate::text::{
    byte_len, byte_offset, char_index, is_boundary, lemma_boundary, lemma_boundary_ends,
    lemma_boundary_order, lemma_offset_split,
    lemma_offset_step, slice, utf16_len, utf8_len,
};
use vstd::prelude::*;
use vstd::std_specs::iter::IteratorSpec;
use vstd::string::*;
use vstd::utf8::*;

verus! {

/// A range in a document containing line number and character offsets.
#[derive(Copy, Clone, Debug, PartialEq, Eq, PartialOrd, Ord, Structural)]
pub struct LineCharRange {
    pub start_line: u32,
    pub start_char_utf16: u32,
    pub end_line: u32,
    pub end_char_utf16: u32,
}

impl LineCharRange {
    pub fn new(start_line: u32, start_char_utf16: u32, end_line: u32, end_char_utf16: u32) -> (range:
        Self)
        ensures
            range == (LineCharRange { start_line, start_char_utf16, end_line, end_char_utf16 }),
    {
        LineCharRange { start_line, start_char_utf16, end_line, end_char_utf16 }
    }
}

/// The number of the line that holds the character with index `k`: the
/// number of line feeds before it.
pub open spec fn line_of(text: Seq<char>, k: int) -> nat
    decreases k,
{
    if k <= 0 {
        0
    } else if text[k - 1] == '\n' {
        line_of(text, k - 1) + 1
    } else {
        line_of(text, k - 1)
    }
}

/// The column of the character with index `k`: the number of UTF-16 units
/// between the start of its line and it.
pub open spec fn column_of(text: Seq<char>, k: int) -> nat
    decreases k,
{
    if k <= 0 {
        0
    } else if text[k - 1] == '\n' {
        0
    } else {
        column_of(text, k - 1) + utf16_len(text[k - 1])
    }
}

/// One place is not after another: it is on an earlier line, or on the same
/// line and not to the right.
pub open spec fn place_le(line: int, column: int, other_line: int, other_column: int) -> bool {
    line < other_line || (line == other_line && column <= other_column)
}

/// The range of lines and columns of a span of `text`, with each number cut
/// to 32 bits.
pub open spec fn range_of(text: Seq<char>, span: ByteSpan) -> LineCharRange {
    let from = char_index(text, span.spec_start() as int);
    let to = char_index(text, span.spec_end() as int);
    LineCharRange {
        start_line: line_of(text, from) as u32,
        start_char_utf16: column_of(text, from) as u32,
        end_line: line_of(text, to) as u32,
        end_char_utf16: column_of(text, to) as u32,
    }
}

/// Lines and columns are bounded by the bytes before the place.
pub proof fn lemma_place_bound(text: Seq<char>, k: int)
    requires
        0 <= k <= text.len(),
    ensures
        line_of(text, k) <= k <= byte_offset(text, k),
        column_of(text, k) <= byte_offset(text, k),
    decreases k,
{
    if k > 0 {
        lemma_place_bound(text, k - 1);
        lemma_offset_step(text, k - 1);
        let c = text[k - 1];
        let code = c as u32;
        assert(utf16_len(c) <= encode_scalar(code).len()) by {
            char_is_scalar(c);
        }
    } else {
        lemma_boundary_ends(text);
        assert(text.take(0) =~= Seq::<char>::empty());
    }
}

/// A later character is at a later place.
pub proof fn lemma_place_monotone(text: Seq<char>, i: int, j: int)
    requires
        0 <= i <= j <= text.len(),
    ensures
        place_le(
            line_of(text, i) as int,
            column_of(text, i) as int,
            line_of(text, j) as int,
            column_of(text, j) as int,
        ),
    decreases j - i,
{
    if i < j {
        lemma_place_monotone(text, i, j - 1);
    }
}

/// Counts lines and columns along a text, from one span to the next.
pub struct LineCounter {
    line_num: usize,
    last_span_start_byte: usize,
    start_char_offset_in_line: usize,
}

impl Default for LineCounter {
    /// A counter at the start of a text.
    fn default() -> (counter: Self)
        ensures
            counter.last_start() == 0,
            forall|text: Seq<char>| counter.tracks(text),
    {
        LineCounter::new()
    }
}

impl LineCounter {
    /// The byte offset of the start of the last span that was counted.
    pub closed spec fn last_start(&self) -> usize {
        self.last_span_start_byte
    }

    /// The counter has counted along `text` up to the start of its last
    /// span.
    pub closed spec fn tracks(&self, text: Seq<char>) -> bool {
        &&& is_boundary(text, self.last_span_start_byte as int)
        &&& self.line_num == line_of(text, char_index(text, self.last_span_start_byte as int))
        &&& self.start_char_offset_in_line == column_of(
            text,
            char_index(text, self.last_span_start_byte as int),
        )
    }

    /// A counter at the start of a text.
    pub fn new() -> (counter: Self)
        ensures
            counter.last_start() == 0,
            forall|text: Seq<char>| counter.tracks(text),
    {
        let counter = LineCounter {
            line_num: 0,
            last_span_start_byte: 0,
            start_char_offset_in_line: 0,
        };
        proof {
            assert forall|text: Seq<char>| counter.tracks(text) by {
                lemma_boundary_ends(text);
            }
        }
        counter
    }

    /// The place that follows `part`, which are the characters `from..to` of
    /// `text`, when `from` is at the given line and column.
    fn advance(
        part: &str,
        line: usize,
        column: usize,
        Ghost(text): Ghost<Seq<char>>,
        Ghost(from): Ghost<int>,
        Ghost(to): Ghost<int>,
    ) -> (place: (usize, usize))
        requires
            0 <= from <= to <= text.len(),
            part@ == text.subrange(from, to),
            line == line_of(text, from),
            column == column_of(text, from),
            utf8_len(text) <= usize::MAX,
        ensures
            place.0 == line_of(text, to),
            place.1 == column_of(text, to),
    {
        broadcast use vstd::string::group_string_axioms;

        let mut chars = part.chars();
        let mut line = line;
        let mut column = column;
        let ghost mut k: int = from;
        let mut counting = true;
        proof {
            assert(part@.skip(0) =~= part@);
        }
        while counting
            invariant
                0 <= from <= k <= to <= text.len(),
                part@ == text.subrange(from, to),
                counting ==> chars.remaining() == part@.skip(k - from),
                !counting ==> k == to,
                line == line_of(text, k),
                column == column_of(text, k),
                utf8_len(text) <= usize::MAX,
            decreases to - k + (if counting { 1int } else { 0int }),
        {
            match chars.next() {
                None => {
                    counting = false;
                },
                Some(c) => {
                    proof {
                        assert(c == text[k]);
                        assert(part@.skip(k - from).drop_first() =~= part@.skip(k + 1 - from));
                        lemma_place_bound(text, k + 1);
                        lemma_offset_split(text, k + 1, text.len() as int);
                        assert(text.take(text.len() as int) =~= text);
                    }
                    if c == '\n' {
                        line = line + 1;
                        column = 0;
                    } else {
                        column = column + c.len_utf16();
                    }
                    proof {
                        k = k + 1;
                    }
                },
            }
        }
        (line, column)
    }

    /// The range of lines and columns of `span` in `input`.
    ///
    /// Spans must come in the order of their starts.
    pub fn span_to_range(&mut self, input: &str, span: ByteSpan) -> (range: LineCharRange)
        requires
            old(self).tracks(input@),
            span.fits(input@),
            old(self).last_start() <= span.spec_start(),
        ensures
            range == range_of(input@, span),
            final(self).tracks(input@),
            final(self).last_start() == span.spec_start(),
    {
        let start_byte = span.start();
        let end = span.end();
        let ghost text = input@;
        let ghost last = char_index(text, self.last_span_start_byte as int);
        let ghost from = char_index(text, start_byte as int);
        let ghost to = char_index(text, end as int);
        proof {
            lemma_boundary(text, self.last_span_start_byte as int);
            lemma_boundary(text, start_byte as int);
            lemma_boundary(text, end as int);
            lemma_boundary_order(text, self.last_span_start_byte as int, start_byte as int);
            lemma_boundary_order(text, start_byte as int, end as int);
        }
        let total = byte_len(input);
        assert(utf8_len(text) <= usize::MAX);
        if start_byte != self.last_span_start_byte {
            let skipped = slice(input, self.last_span_start_byte, start_byte);
            let place = Self::advance(
                skipped,
                self.line_num,
                self.start_char_offset_in_line,
                Ghost(text),
                Ghost(last),
                Ghost(from),
            );
            self.line_num = place.0;
            self.start_char_offset_in_line = place.1;
            self.last_span_start_byte = start_byte;
        }
        let covered = slice(input, start_byte, end);
        let place = Self::advance(
            covered,
            self.line_num,
            self.start_char_offset_in_line,
            Ghost(text),
            Ghost(from),
            Ghost(to),
        );
        LineCharRange::new(
            #[verifier::truncate]
            (self.line_num as u32),
            #[verifier::truncate]
            (self.start_char_offset_in_line as u32),
            #[verifier::truncate]
            (place.0 as u32),
            #[verifier::truncate]
            (place.1 as u32),
        )
    }
}

/// A thing that lies at a span of the input.
pub trait HasSpan {
    /// The span of this thing.
    spec fn spec_span(&self) -> ByteSpan;

    /// The span of this thing.
    fn span(&self) -> (span: ByteSpan)
        ensures
            span == self.spec_span(),
    ;
}

/// The spans of the items start in order.
pub open spec fn starts_in_order<T: HasSpan>(items: Seq<T>) -> bool {
    forall|i: int, j: int|
        0 <= i <= j < items.len() ==> (#[trigger] items[i]).spec_span().spec_start() <= (
        #[trigger] items[j]).spec_span().spec_start()
}

/// Convert a sequence of items with spans to a sequence of items with ranges.
///
/// `items` must be sorted by the start of their spans.
pub fn spans_to_ranges<'a, T: HasSpan>(input: &str, items: &'a [T]) -> (ranges: Vec<
    (LineCharRange, &'a T),
>)
    requires
        starts_in_order(items@),
        forall|i: int| 0 <= i < items@.len() ==> (#[trigger] items@[i]).spec_span().fits(input@),
    ensures
        ranges@.len() == items@.len(),
        forall|i: int|
            0 <= i < items@.len() ==> (#[trigger] ranges@[i]).0 == range_of(
                input@,
                items@[i].spec_span(),
            ) && *ranges@[i].1 == items@[i],
{
    let mut counter = LineCounter::new();
    let mut ranges: Vec<(LineCharRange, &'a T)> = Vec::new();
    let mut i: usize = 0;
    while i < items.len()
        invariant
            0 <= i <= items@.len(),
            starts_in_order(items@),
            forall|k: int| 0 <= k < items@.len() ==> (#[trigger] items@[k]).spec_span().fits(input@),
            counter.tracks(input@),
            i > 0 ==> counter.last_start() == items@[i - 1].spec_span().spec_start(),
            i == 0 ==> counter.last_start() == 0,
            ranges@.len() == i,
            forall|k: int|
                0 <= k < i ==> (#[trigger] ranges@[k]).0 == range_of(input@, items@[k].spec_span())
                    && *ranges@[k].1 == items@[k],
        decreases items@.len() - i,
    {
        let item = &items[i];
        let span = item.span();
        let range = counter.span_to_range(input, span);
        ranges.push((range, item));
        i += 1;
    }
    ranges
}

/// Where spans start in order, so do their ranges, and no range ends before
/// it starts: for a text of fewer than 2^32 bytes, in which no number is cut.
pub proof fn lemma_ranges_in_order(text: Seq<char>, first: ByteSpan, second: ByteSpan)
    requires
        utf8_len(text) <= u32::MAX,
        first.fits(text),
        second.fits(text),
        first.spec_start() <= second.spec_start(),
    ensures
        place_le(
            range_of(text, first).start_line as int,
            range_of(text, first).start_char_utf16 as int,
            range_of(text, second).start_line as int,
            range_of(text, second).start_char_utf16 as int,
        ),
        place_le(
            range_of(text, first).start_line as int,
            range_of(text, first).start_char_utf16 as int,
            range_of(text, first).end_line as int,
            range_of(text, first).end_char_utf16 as int,
        ),
{
    let a = first.spec_start() as int;
    let b = first.spec_end() as int;
    let c = second.spec_start() as int;
    lemma_boundary(text, a);
    lemma_boundary(text, b);
    lemma_boundary(text, c);
    lemma_boundary_order(text, a, b);
    lemma_boundary_order(text, a, c);
    let i = char_index(text, a);
    let j = char_index(text, b);
    let k = char_index(text, c);
    lemma_place_bound(text, i);
    lemma_place_bound(text, j);
    lemma_place_bound(text, k);
    lemma_place_monotone(text, i, j);
    lemma_place_monotone(text, i, k);
}

} // verus!
