//! Byte spans over an input text.
//!
//! A [`ByteSpan`] is a pair of byte offsets and carries no text. A
//! [`FullByteSpan`] also borrows the text it points into, and offers the
//! operations that cut a span by what the text holds.

use crate::text::{
    at_boundary, byte_len, byte_offset, char_index, char_is_whitespace, first_char, first_occurrence,
    is_boundary, is_whitespace_char, lemma_boundary, lemma_boundary_ends, lemma_boundary_order,
    lemma_inner_offset, lemma_offset_split, lemma_offset_step, is_token, occurs_at, slice, str_find, text_between, utf8_len, without_whitespace, ws_ranges,
};
use std::ops::Range;
use vstd::prelude::*;
use vstd::std_specs::iter::IteratorSpec;
use vstd::string::*;
use vstd::utf8::*;

verus! {

/// A half-open range `[start, end)` of byte offsets into an input text.
#[derive(Copy, Clone, Debug, PartialEq, Eq, PartialOrd, Ord, Structural)]
pub struct ByteSpan {
    start: usize,
    end: usize,
}

impl ByteSpan {
    /// The first byte offset of the span.
    pub closed spec fn spec_start(&self) -> usize {
        self.start
    }

    /// The byte offset one past the last byte of the span.
    pub closed spec fn spec_end(&self) -> usize {
        self.end
    }

    /// The span with the given offsets.
    pub closed spec fn spec_new(start: usize, end: usize) -> ByteSpan {
        ByteSpan { start, end }
    }

    /// A span is the span with its offsets.
    pub broadcast proof fn lemma_spec_new(start: usize, end: usize)
        ensures
            (#[trigger] Self::spec_new(start, end)).spec_start() == start,
            Self::spec_new(start, end).spec_end() == end,
    {
    }

    /// Spans with the same offsets are the same span.
    pub proof fn lemma_ext(a: ByteSpan, b: ByteSpan)
        requires
            a.spec_start() == b.spec_start(),
            a.spec_end() == b.spec_end(),
        ensures
            a == b,
    {
    }

    /// A span never ends before it starts.
    #[verifier::type_invariant]
    pub closed spec fn ordered(&self) -> bool {
        self.start <= self.end
    }

    /// Both offsets are character boundaries of `text`.
    pub open spec fn fits(&self, text: Seq<char>) -> bool {
        &&& self.spec_start() <= self.spec_end()
        &&& is_boundary(text, self.spec_start() as int)
        &&& is_boundary(text, self.spec_end() as int)
    }

    /// The characters of `text` that the span covers.
    pub open spec fn text_in(&self, text: Seq<char>) -> Seq<char> {
        text_between(text, self.spec_start() as int, self.spec_end() as int)
    }

    /// The order of spans: by start, then by end.
    pub open spec fn le(&self, other: &ByteSpan) -> bool {
        self.spec_start() < other.spec_start() || (self.spec_start() == other.spec_start()
            && self.spec_end() <= other.spec_end())
    }

    /// States what holds of every span: it does not end before it starts.
    pub fn check_state(&self)
        ensures
            self.spec_start() <= self.spec_end(),
    {
        proof {
            use_type_invariant(self);
        }
    }

    /// Create a new span from the given start and end byte offsets.
    ///
    /// Nothing ties the offsets to a text: see [`ByteSpan::fits`].
    pub fn new_unchecked(start: usize, end: usize) -> (span: Self)
        requires
            start <= end,
        ensures
            span.spec_start() == start,
            span.spec_end() == end,
            span == Self::spec_new(start, end),
    {
        Self::new(start, end)
    }

    fn new(start: usize, end: usize) -> (span: Self)
        requires
            start <= end,
        ensures
            span.spec_start() == start,
            span.spec_end() == end,
            span == Self::spec_new(start, end),
    {
        let span = ByteSpan { start, end };
        span.check_state();
        span
    }

    /// Create a new span from the given range.
    pub fn of_range(range: Range<usize>) -> (span: Self)
        requires
            range.start <= range.end,
        ensures
            span.spec_start() == range.start,
            span.spec_end() == range.end,
    {
        ByteSpan::new(range.start, range.end)
    }

    /// The part of `data` that the span covers.
    pub fn as_str<'a>(&self, data: &'a str) -> (part: &'a str)
        requires
            self.fits(data@),
        ensures
            part@ == self.text_in(data@),
    {
        slice(data, self.start, self.end)
    }

    /// Is this span empty?
    pub fn is_empty(&self) -> (empty: bool)
        ensures
            empty == (self.spec_start() == self.spec_end()),
    {
        self.start == self.end
    }

    /// Get the start byte offset.
    #[verifier::when_used_as_spec(spec_start)]
    pub fn start(&self) -> (start: usize)
        ensures
            start == self.spec_start(),
            start <= self.spec_end(),
    {
        proof {
            use_type_invariant(self);
        }
        self.start
    }

    /// Get the end byte offset.
    #[verifier::when_used_as_spec(spec_end)]
    pub fn end(&self) -> (end: usize)
        ensures
            end == self.spec_end(),
            self.spec_start() <= end,
    {
        proof {
            use_type_invariant(self);
        }
        self.end
    }
}

/// A span of the input text that also borrows the text.
///
/// Its methods cut the span by what the text holds (the first or last
/// character, a needle, white space) and keep the byte offsets right, so they
/// are to be used in place of the string methods of the standard library.
#[derive(Copy, Clone, Debug, PartialEq)]
pub struct FullByteSpan<'a> {
    data: &'a str,
    span: ByteSpan,
}

impl<'a> FullByteSpan<'a> {
    /// The whole text that the span points into.
    pub closed spec fn source(&self) -> Seq<char> {
        self.data@
    }

    /// The byte offsets of the span.
    pub closed spec fn spec_span(&self) -> ByteSpan {
        self.span
    }

    /// Both ends of the span are character boundaries of the text, so that
    /// the span covers a part of the text that can be read.
    pub open spec fn valid(&self) -> bool {
        self.spec_span().fits(self.source())
    }

    /// The span covers no byte.
    pub open spec fn spec_is_empty(&self) -> bool {
        self.spec_span().spec_start() == self.spec_span().spec_end()
    }

    /// The index in the source of the first character of the span.
    pub open spec fn lo(&self) -> int {
        char_index(self.source(), self.spec_span().spec_start() as int)
    }

    /// The index in the source of the character after the last one of the
    /// span.
    pub open spec fn hi(&self) -> int {
        char_index(self.source(), self.spec_span().spec_end() as int)
    }

    /// The characters that the span covers.
    pub open spec fn text(&self) -> Seq<char> {
        self.spec_span().text_in(self.source())
    }

    /// `self` covers the characters `from..to` of what `whole` covers, in the
    /// same source.
    pub open spec fn part_of(&self, whole: &FullByteSpan, from: int, to: int) -> bool {
        &&& self.source() == whole.source()
        &&& self.valid()
        &&& 0 <= from <= to <= whole.text().len()
        &&& self.lo() == whole.lo() + from
        &&& self.hi() == whole.lo() + to
        &&& self.text() == whole.text().subrange(from, to)
    }

    /// States what holds of a span whose ends are character boundaries:
    /// it lies within the text, and its text lies between its two character
    /// indices.
    pub fn check_state(&self)
        requires
            self.valid(),
        ensures
            0 <= self.lo() <= self.hi() <= self.source().len(),
            self.text().len() == self.hi() - self.lo(),
            self.spec_span().spec_end() <= utf8_len(self.source()),
            self.spec_span().spec_start() + utf8_len(self.text()) == self.spec_span().spec_end(),
    {
        proof {
            let source = self.source();
            let start = self.span.spec_start() as int;
            let end = self.span.spec_end() as int;
            lemma_boundary(source, start);
            lemma_boundary(source, end);
            lemma_boundary_order(source, start, end);
            lemma_inner_offset(source, start, end, 0);
        }
    }

    fn new(data: &'a str, start: usize, end: usize) -> (span: Self)
        requires
            start <= end <= utf8_len(data@),
        ensures
            span.source() == data@,
            span.spec_span().spec_start() == start,
            span.spec_span().spec_end() == end,
    {
        FullByteSpan { data, span: ByteSpan::new(start, end) }
    }

    /// Create a new span from the entire document.
    pub fn of_document(data: &'a str) -> (span: Self)
        ensures
            span.source() == data@,
            span.spec_span().spec_start() == 0,
            span.spec_span().spec_end() == utf8_len(data@),
            span.valid(),
            span.text() == data@,
    {
        proof {
            lemma_boundary_ends(data@);
            assert(data@.subrange(0, data@.len() as int) =~= data@);
        }
        FullByteSpan::new(data, 0, byte_len(data))
    }

    /// Convert a `ByteSpan` to a `FullByteSpan`.
    ///
    /// `data` should be the text that `span` was made for: nothing is asked
    /// of the span here, and the text of the result can be read where
    /// the span fits `data`, see [`FullByteSpan::valid`].
    pub fn of_span(data: &'a str, span: ByteSpan) -> (full: Self)
        ensures
            full.source() == data@,
            full.spec_span() == span,
    {
        FullByteSpan { data, span }
    }

    /// Convert a `Range` to a `FullByteSpan`.
    ///
    /// The range must be in order and end within `data`. The text of the
    /// result can be read where both ends are character boundaries of
    /// `data`, see [`FullByteSpan::valid`].
    pub fn of_range(data: &'a str, range: Range<usize>) -> (span: Self)
        requires
            range.start <= range.end <= utf8_len(data@),
        ensures
            span.source() == data@,
            span.spec_span().spec_start() == range.start,
            span.spec_span().spec_end() == range.end,
    {
        FullByteSpan::new(data, range.start, range.end)
    }

    /// The span of `data` between two byte offsets, where they are in order
    /// and both are character boundaries of `data`.
    pub fn try_of_range(data: &'a str, start: usize, end: usize) -> (span: Option<Self>)
        ensures
            span is Some <==> (start <= end && is_boundary(data@, start as int) && is_boundary(
                data@,
                end as int,
            )),
            span is Some ==> {
                &&& span->0.source() == data@
                &&& span->0.spec_span().spec_start() == start
                &&& span->0.spec_span().spec_end() == end
                &&& span->0.valid()
            },
    {
        if start <= end && at_boundary(data, start) && at_boundary(data, end) {
            proof {
                lemma_boundary(data@, end as int);
            }
            Some(FullByteSpan::new(data, start, end))
        } else {
            None
        }
    }

    /// Convert a `FullByteSpan` to a `ByteSpan`.
    #[verifier::when_used_as_spec(spec_span)]
    pub fn as_span(&self) -> (span: ByteSpan)
        ensures
            span == self.spec_span(),
    {
        self.span
    }

    /// A span over the same text with other offsets.
    fn adjust(&self, start: usize, end: usize) -> (span: Self)
        requires
            start <= end,
            is_boundary(self.source(), start as int),
            is_boundary(self.source(), end as int),
        ensures
            span.source() == self.source(),
            span.spec_span().spec_start() == start,
            span.spec_span().spec_end() == end,
            span.valid(),
    {
        proof {
            lemma_boundary(self.source(), end as int);
        }
        FullByteSpan::new(self.data, start, end)
    }

    /// The span of the characters `from..to` of this span, which lie at the
    /// byte offsets `start..end`.
    fn cut(&self, start: usize, end: usize, Ghost(from): Ghost<int>, Ghost(to): Ghost<int>) -> (part:
        Self)
        requires
            self.valid(),
            0 <= from <= to <= self.text().len(),
            start == self.spec_span().spec_start() + byte_offset(self.text(), from),
            end == self.spec_span().spec_start() + byte_offset(self.text(), to),
        ensures
            part.part_of(self, from, to),
            part.spec_span().spec_start() == start,
            part.spec_span().spec_end() == end,
    {
        proof {
            self.lemma_inside(from);
            self.lemma_inside(to);
            lemma_offset_split(self.text(), from, to);
        }
        let part = self.adjust(start, end);
        proof {
            assert(part.text() =~= self.text().subrange(from, to));
        }
        part
    }

    /// Where the character `k` of the span lies in the source.
    proof fn lemma_inside(&self, k: int)
        requires
            self.valid(),
            0 <= k <= self.text().len(),
        ensures
            is_boundary(
                self.source(),
                self.spec_span().spec_start() + byte_offset(self.text(), k),
            ),
            char_index(self.source(), self.spec_span().spec_start() + byte_offset(self.text(), k))
                == self.lo() + k,
            self.spec_span().spec_start() + byte_offset(self.text(), k)
                <= self.spec_span().spec_end(),
            self.spec_span().spec_start() + utf8_len(self.text()) == self.spec_span().spec_end(),
            self.text().len() == self.hi() - self.lo(),
            0 <= self.lo() <= self.hi() <= self.source().len(),
    {
        let source = self.source();
        let start = self.spec_span().spec_start() as int;
        let end = self.spec_span().spec_end() as int;
        lemma_inner_offset(source, start, end, k);
        lemma_boundary(source, start);
        lemma_boundary(source, end);
        lemma_boundary_order(source, start, end);
    }

    /// Is this span empty?
    pub fn is_empty(&self) -> (empty: bool)
        ensures
            empty == self.spec_is_empty(),
            self.valid() ==> empty == (self.text().len() == 0),
    {
        proof {
            if self.valid() {
                self.lemma_inside(0);
                lemma_boundary_order(
                    self.source(),
                    self.span.spec_start() as int,
                    self.span.spec_end() as int,
                );
            }
        }
        self.span.is_empty()
    }

    /// Get the string representation of this span. Both ends of the span
    /// must be character boundaries of the text.
    pub fn as_str(&self) -> (part: &'a str)
        requires
            self.valid(),
        ensures
            part@ == self.text(),
    {
        self.span.as_str(self.data)
    }

    /// Get the first character of this span.
    fn first(&self) -> (first: Option<char>)
        requires
            self.spec_is_empty() || self.valid(),
        ensures
            first is None <==> self.spec_is_empty(),
            self.valid() ==> first == (if self.text().len() == 0 {
                None
            } else {
                Some(self.text()[0])
            }),
    {
        if self.is_empty() {
            None
        } else {
            first_char(self.as_str())
        }
    }

    /// Get the last character of this span. Unless the span is empty, both
    /// its ends must be character boundaries of the text.
    pub fn last(&self) -> (last: Option<char>)
        requires
            self.spec_is_empty() || self.valid(),
        ensures
            last is None <==> self.spec_is_empty(),
            self.valid() ==> last == (if self.text().len() == 0 {
                None
            } else {
                Some(self.text().last())
            }),
    {
        if self.is_empty() {
            None
        } else {
            let part = self.as_str();
            let count = part.unicode_len();
            Some(part.get_char(count - 1))
        }
    }

    /// Split this span into two parts, the first character and the suffix.
    /// Unless the span is empty, both its ends must be character boundaries
    /// of the text.
    pub fn split_first(&self) -> (parts: Option<((char, Self), Self)>)
        requires
            self.spec_is_empty() || self.valid(),
        ensures
            parts is None <==> self.spec_is_empty(),
            self.valid() ==> (parts is None <==> self.text().len() == 0),
            parts is Some ==> {
                let ((c, head), tail) = parts->0;
                &&& c == self.text()[0]
                &&& head.part_of(self, 0, 1)
                &&& tail.part_of(self, 1, self.text().len() as int)
                &&& head.spec_span().spec_start() == self.spec_span().spec_start()
                &&& head.spec_span().spec_end() == tail.spec_span().spec_start()
                &&& tail.spec_span().spec_end() == self.spec_span().spec_end()
            },
    {
        match self.first() {
            None => None,
            Some(c) => {
                proof {
                    self.lemma_inside(0);
                    self.lemma_inside(1);
                    self.lemma_inside(self.text().len() as int);
                    lemma_offset_step(self.text(), 0);
                    assert(self.text().take(self.text().len() as int) =~= self.text());
                }
                let c_len = c.len_utf8();
                let split_offset = self.span.start() + c_len;
                let head = self.cut(self.span.start(), split_offset, Ghost(0), Ghost(1));
                let tail = self.cut(
                    split_offset,
                    self.span.end(),
                    Ghost(1),
                    Ghost(self.text().len() as int),
                );
                Some(((c, head), tail))
            },
        }
    }

    /// Split this span into two parts, the prefix and the last character.
    /// Unless the span is empty, both its ends must be character boundaries
    /// of the text.
    pub fn split_last(&self) -> (parts: Option<(Self, (char, Self))>)
        requires
            self.spec_is_empty() || self.valid(),
        ensures
            parts is None <==> self.spec_is_empty(),
            self.valid() ==> (parts is None <==> self.text().len() == 0),
            parts is Some ==> {
                let (head, (c, tail)) = parts->0;
                &&& c == self.text().last()
                &&& head.part_of(self, 0, self.text().len() - 1)
                &&& tail.part_of(self, self.text().len() - 1, self.text().len() as int)
                &&& head.spec_span().spec_start() == self.spec_span().spec_start()
                &&& head.spec_span().spec_end() == tail.spec_span().spec_start()
                &&& tail.spec_span().spec_end() == self.spec_span().spec_end()
            },
    {
        match self.last() {
            None => None,
            Some(c) => {
                let ghost n = self.text().len() as int;
                proof {
                    self.lemma_inside(0);
                    self.lemma_inside(n - 1);
                    self.lemma_inside(n);
                    lemma_offset_step(self.text(), n - 1);
                    assert(self.text().take(n) =~= self.text());
                }
                let c_len = c.len_utf8();
                let split_offset = self.span.end() - c_len;
                let head = self.cut(self.span.start(), split_offset, Ghost(0), Ghost(n - 1));
                let tail = self.cut(split_offset, self.span.end(), Ghost(n - 1), Ghost(n));
                Some((head, (c, tail)))
            },
        }
    }

    /// A part of a part is a part.
    pub proof fn lemma_part_of_part(&self, middle: &FullByteSpan, whole: &FullByteSpan, a: int, b: int, from: int, to: int)
        requires
            self.part_of(middle, a, b),
            middle.part_of(whole, from, to),
        ensures
            self.part_of(whole, from + a, from + b),
    {
        assert(whole.text().subrange(from, to).subrange(a, b) =~= whole.text().subrange(
            from + a,
            from + b,
        ));
    }

    /// Split this span into two parts at the first occurrence of the given
    /// `needle`.
    ///
    /// Returns `None` if the `needle` is not found. Returns the span before
    /// `needle`, and the span after `needle`.
    pub fn split2(&self, needle: &str) -> (parts: Option<(Self, Self)>)
        requires
            self.valid(),
        ensures
            parts is None <==> forall|k: int| !occurs_at(self.text(), needle@, k),
            parts is Some ==> {
                let (before, after) = parts->0;
                let k = before.text().len() as int;
                &&& first_occurrence(self.text(), needle@, k)
                &&& before.part_of(self, 0, k)
                &&& after.part_of(self, k + needle@.len(), self.text().len() as int)
                &&& before.spec_span().spec_start() == self.spec_span().spec_start()
                &&& before.spec_span().spec_end() + utf8_len(needle@)
                    == after.spec_span().spec_start()
                &&& after.spec_span().spec_end() == self.spec_span().spec_end()
            },
    {
        match self.split3(needle) {
            Some((before, _, after)) => Some((before, after)),
            None => None,
        }
    }

    /// Split this span into three parts at the first occurrence of the given
    /// `needle`.
    ///
    /// Returns `None` if the `needle` is not found. Returns the span before
    /// `needle`, the span of `needle`, and the span after `needle`.
    pub fn split3(&self, needle: &str) -> (parts: Option<(Self, Self, Self)>)
        requires
            self.valid(),
        ensures
            parts is None <==> forall|k: int| !occurs_at(self.text(), needle@, k),
            parts is Some ==> {
                let (before, found, after) = parts->0;
                let k = before.text().len() as int;
                &&& first_occurrence(self.text(), needle@, k)
                &&& before.part_of(self, 0, k)
                &&& found.part_of(self, k, k + needle@.len())
                &&& found.text() == needle@
                &&& after.part_of(self, k + needle@.len(), self.text().len() as int)
                &&& before.spec_span().spec_start() == self.spec_span().spec_start()
                &&& before.spec_span().spec_end() == found.spec_span().spec_start()
                &&& found.spec_span().spec_end() == after.spec_span().spec_start()
                &&& found.spec_span().spec_start() + utf8_len(needle@)
                    == found.spec_span().spec_end()
                &&& after.spec_span().spec_end() == self.spec_span().spec_end()
            },
    {
        match str_find(self.as_str(), needle) {
            Some(offset) => {
                let ghost text = self.text();
                let ghost n = text.len() as int;
                let ghost m = needle@.len() as int;
                let ghost k = char_index(text, offset as int);
                proof {
                    lemma_boundary(text, offset as int);
                    self.lemma_inside(0);
                    self.lemma_inside(k);
                    self.lemma_inside(k + m);
                    self.lemma_inside(n);
                    lemma_offset_split(text, k, k + m);
                    assert(text.take(n) =~= text);
                }
                let start = self.span.start();
                let end = self.span.end();
                let needle_offset = start + offset;
                let after_offset = needle_offset + byte_len(needle);
                let before = self.cut(start, needle_offset, Ghost(0), Ghost(k));
                let found = self.cut(needle_offset, after_offset, Ghost(k), Ghost(k + m));
                let after = self.cut(after_offset, end, Ghost(k + m), Ghost(n));
                proof {
                    assert(before.text().len() == k);
                }
                Some((before, found, after))
            },
            None => None,
        }
    }

    /// Get a span which does not include leading characters that satisfy the
    /// given predicate.
    pub fn skip_while<F: Fn(char) -> bool>(&self, predicate: F) -> (rest: Self)
        requires
            self.valid(),
            forall|c: char| call_requires(predicate, (c,)),
        ensures
            ({
                let n = self.text().len() as int;
                let k = n - rest.text().len();
                &&& rest.part_of(self, k, n)
                &&& forall|i: int| 0 <= i < k ==> call_ensures(predicate, (self.text()[i],), true)
                &&& k < n ==> call_ensures(predicate, (self.text()[k],), false)
                &&& rest.spec_span().spec_end() == self.spec_span().spec_end()
            }),
    {
        broadcast use vstd::string::group_string_axioms;

        let part = self.as_str();
        let mut chars = part.chars();
        let mut offset: usize = self.span.start();
        let end = self.span.end();
        let ghost text = self.text();
        let ghost n = text.len() as int;
        let ghost mut k: int = 0;
        let mut skipping = true;
        proof {
            self.lemma_inside(0);
            assert(text.skip(0) =~= text);
        }
        while skipping
            invariant
                self.valid(),
                text == self.text(),
                n == text.len(),
                0 <= k <= n,
                skipping ==> chars.remaining() == text.skip(k),
                offset == self.spec_span().spec_start() + byte_offset(text, k),
                end == self.spec_span().spec_end(),
                forall|c: char| call_requires(predicate, (c,)),
                forall|i: int| 0 <= i < k ==> call_ensures(predicate, (text[i],), true),
                !skipping ==> (k == n || call_ensures(predicate, (text[k],), false)),
            decreases n - k + (if skipping { 1int } else { 0int }),
        {
            match chars.next() {
                None => {
                    skipping = false;
                },
                Some(c) => {
                    assert(c == text[k]);
                    if predicate(c) {
                        proof {
                            lemma_offset_step(text, k);
                            self.lemma_inside(k + 1);
                            assert(text.skip(k).drop_first() =~= text.skip(k + 1));
                        }
                        offset = offset + c.len_utf8();
                        proof {
                            k = k + 1;
                        }
                    } else {
                        skipping = false;
                    }
                },
            }
        }
        proof {
            self.lemma_inside(n);
            assert(text.take(n) =~= text);
        }
        let rest = self.cut(offset, end, Ghost(k), Ghost(n));
        rest
    }

    /// Get a span with leading and trailing whitespace removed.
    pub fn trim(&self) -> (trimmed: Self)
        requires
            self.valid(),
        ensures
            ({
                let from = trimmed.lo() - self.lo();
                let to = trimmed.hi() - self.lo();
                &&& trimmed.part_of(self, from, to)
                &&& forall|i: int| 0 <= i < from ==> is_whitespace_char(self.text()[i])
                &&& forall|i: int| to <= i < self.text().len() ==> is_whitespace_char(self.text()[i])
                &&& from < to ==> !is_whitespace_char(self.text()[from]) && !is_whitespace_char(
                    self.text()[to - 1],
                )
                &&& from == to ==> from == self.text().len()
            }),
    {
        let ghost text = self.text();
        let ghost n = text.len() as int;
        let mut trimmed = self.skip_while(char_is_whitespace);
        let ghost from = n - trimmed.text().len();
        let ghost mut to = n;
        let mut trimming = true;
        proof {
            self.lemma_inside(0);
        }
        while trimming
            invariant
                self.valid(),
                text == self.text(),
                n == text.len(),
                0 <= from <= to <= n,
                trimmed.part_of(self, from, to),
                forall|i: int| 0 <= i < from ==> is_whitespace_char(text[i]),
                forall|i: int| to <= i < n ==> is_whitespace_char(text[i]),
                from < n ==> !is_whitespace_char(text[from]),
                from == n ==> to == n,
                !trimming ==> (from == to || !is_whitespace_char(text[to - 1])),
            decreases to - from + (if trimming { 1int } else { 0int }),
        {
            match trimmed.split_last() {
                Some((head, (c, _))) => {
                    if char_is_whitespace(c) {
                        proof {
                            head.lemma_part_of_part(&trimmed, self, 0, to - from - 1, from, to);
                            to = to - 1;
                        }
                        trimmed = head;
                    } else {
                        trimming = false;
                    }
                },
                None => {
                    trimming = false;
                },
            }
        }
        trimmed
    }

    /// The text of all the spans, one after the other.
    pub open spec fn joined(spans: Seq<FullByteSpan>) -> Seq<char>
        decreases spans.len(),
    {
        if spans.len() == 0 {
            Seq::empty()
        } else {
            Self::joined(spans.drop_last()) + spans.last().text()
        }
    }

    /// One of the spans covers the character with index `at` of the source.
    pub open spec fn covered(spans: Seq<FullByteSpan>, at: int) -> bool {
        exists|t: int| 0 <= t < spans.len() && (#[trigger] spans[t]).lo() <= at < spans[t].hi()
    }

    /// What is covered stays covered when a span is added.
    proof fn lemma_covered_push(spans: Seq<FullByteSpan>, span: FullByteSpan, at: int)
        requires
            Self::covered(spans, at) || span.lo() <= at < span.hi(),
        ensures
            Self::covered(spans.push(span), at),
    {
        let more = spans.push(span);
        if span.lo() <= at < span.hi() {
            assert(more[spans.len() as int] == span);
        } else {
            let t = choose|t: int|
                0 <= t < spans.len() && (#[trigger] spans[t]).lo() <= at < spans[t].hi();
            assert(more[t] == spans[t]);
        }
    }

    /// The character indices in the source of each of the spans: that of its
    /// first character, and that after its last.
    pub open spec fn ranges(spans: Seq<FullByteSpan>) -> Seq<(int, int)> {
        Seq::new(spans.len(), |t: int| (spans[t].lo(), spans[t].hi()))
    }

    /// `self` covers a maximal run without white space of what `whole` covers.
    pub open spec fn token_of(&self, whole: &FullByteSpan) -> bool {
        &&& self.part_of(whole, self.lo() - whole.lo(), self.hi() - whole.lo())
        &&& is_token(whole.text(), self.lo() - whole.lo(), self.hi() - whole.lo())
    }

    /// Split this span into whitespace-separated parts.
    ///
    /// The parts are the maximal runs of characters that are not white space,
    /// in the order of the text.
    #[verifier::rlimit(40)]
    pub fn split_whitespace(&self) -> (tokens: Vec<FullByteSpan<'a>>)
        requires
            self.valid(),
        ensures
            forall|t: int| 0 <= t < tokens@.len() ==> (#[trigger] tokens@[t]).token_of(self),
            forall|t: int|
                0 <= t < tokens@.len() - 1 ==> (#[trigger] tokens@[t]).hi() < tokens@[t + 1].lo(),
            forall|i: int|
                0 <= i < self.text().len() && !is_whitespace_char(#[trigger] self.text()[i])
                    ==> Self::covered(tokens@, self.lo() + i),
            Self::joined(tokens@) == without_whitespace(self.text()),
            Self::ranges(tokens@) == ws_ranges(self.source(), self.lo(), self.hi()),
    {
        broadcast use vstd::string::group_string_axioms;

        let part = self.as_str();
        let mut chars = part.chars();
        let mut tokens: Vec<FullByteSpan<'a>> = Vec::new();
        let mut offset: usize = self.span.start();
        let mut open: Option<usize> = None;
        let ghost text = self.text();
        let ghost n = text.len() as int;
        let ghost mut k: int = 0;
        let ghost mut open_from: int = 0;
        let mut scanning = true;
        proof {
            self.lemma_inside(0);
            assert(text.skip(0) =~= text);
            assert(text.take(0) =~= Seq::<char>::empty());
            assert(Self::ranges(tokens@) + Seq::<(int, int)>::empty() =~= Seq::<(int, int)>::empty());
        }
        while scanning
            invariant
                self.valid(),
                text == self.text(),
                n == text.len(),
                0 <= k <= n,
                !scanning ==> k == n,
                chars.remaining() == text.skip(k),
                offset == self.spec_span().spec_start() + byte_offset(text, k),
                forall|t: int|
                    0 <= t < tokens@.len() ==> (#[trigger] tokens@[t]).part_of(
                        self,
                        tokens@[t].lo() - self.lo(),
                        tokens@[t].hi() - self.lo(),
                    ) && is_token(text, tokens@[t].lo() - self.lo(), tokens@[t].hi() - self.lo()),
                forall|t: int|
                    0 <= t < tokens@.len() - 1 ==> (#[trigger] tokens@[t]).hi() < tokens@[t
                        + 1].lo(),
                tokens@.len() > 0 ==> tokens@.last().hi() - self.lo() < (if open is Some {
                    open_from
                } else {
                    k
                }),
                open is Some ==> {
                    &&& 0 <= open_from < k
                    &&& open->0 == self.spec_span().spec_start() + byte_offset(text, open_from)
                    &&& forall|i: int| open_from <= i < k ==> !is_whitespace_char(text[i])
                    &&& (open_from == 0 || is_whitespace_char(text[open_from - 1]))
                },
                open is None ==> (k == 0 || is_whitespace_char(text[k - 1])),
                forall|i: int|
                    0 <= i < k && !is_whitespace_char(#[trigger] text[i]) ==> (open is Some
                        && open_from <= i) || Self::covered(tokens@, self.lo() + i),
                Self::joined(tokens@) + (if open is Some {
                    text.subrange(open_from, k)
                } else {
                    Seq::empty()
                }) == without_whitespace(text.take(k)),
                Self::ranges(tokens@) + (if open is Some {
                    seq![(self.lo() + open_from, self.lo() + k)]
                } else {
                    Seq::empty()
                }) == ws_ranges(self.source(), self.lo(), self.lo() + k),
            decreases n - k + (if scanning { 1int } else { 0int }),
        {
            let ghost before = tokens@;
            match chars.next() {
                None => {
                    scanning = false;
                },
                Some(c) => {
                    assert(c == text[k]);
                    proof {
                        lemma_offset_step(text, k);
                        self.lemma_inside(k);
                        self.lemma_inside(k + 1);
                        assert(text.skip(k).drop_first() =~= text.skip(k + 1));
                        assert(text.take(k + 1).drop_last() =~= text.take(k));
                        assert(text.take(k + 1).last() == text[k]);
                        assert(text[k] == self.source()[self.lo() + k]);
                        if k > 0 {
                            assert(text[k - 1] == self.source()[self.lo() + k - 1]);
                        }
                    }
                    let ghost ranges_before = Self::ranges(tokens@);
                    let ghost reached = ws_ranges(self.source(), self.lo(), self.lo() + k);
                    if char_is_whitespace(c) {
                        match open {
                            Some(token_start) => {
                                let token = self.cut(
                                    token_start,
                                    offset,
                                    Ghost(open_from),
                                    Ghost(k),
                                );
                                tokens.push(token);
                                open = None;
                                proof {
                                    assert(tokens@.drop_last() =~= before);
                                    assert(forall|t: int|
                                        0 <= t < before.len() ==> tokens@[t] == before[t]);
                                    assert forall|i: int|
                                        0 <= i < k && !is_whitespace_char(
                                            #[trigger] text[i],
                                        ) implies Self::covered(tokens@, self.lo() + i) by {
                                        Self::lemma_covered_push(before, token, self.lo() + i);
                                    }
                                    assert(Self::ranges(tokens@) =~= ranges_before.push(
                                        (self.lo() + open_from, self.lo() + k),
                                    ));
                                    assert(Self::ranges(tokens@) + Seq::<(int, int)>::empty()
                                        =~= reached);
                                }
                            },
                            None => {},
                        }
                    } else {
                        match open {
                            Some(_) => {
                                proof {
                                    assert(text.subrange(open_from, k + 1) =~= text.subrange(
                                        open_from,
                                        k,
                                    ).push(text[k]));
                                    assert(reached.drop_last() =~= ranges_before);
                                    assert(reached.last() == (self.lo() + open_from, self.lo() + k));
                                    assert(ranges_before + seq![
                                        (self.lo() + open_from, self.lo() + k + 1),
                                    ] =~= ranges_before.push(
                                        (self.lo() + open_from, self.lo() + k + 1),
                                    ));
                                }
                            },
                            None => {
                                open = Some(offset);
                                proof {
                                    open_from = k;
                                    assert(text.subrange(k, k + 1) =~= Seq::<char>::empty().push(
                                        text[k],
                                    ));
                                    assert(text.subrange(k, k) =~= Seq::<char>::empty());
                                    assert(ranges_before + Seq::<(int, int)>::empty()
                                        =~= ranges_before);
                                    assert(ranges_before + seq![(self.lo() + k, self.lo() + k + 1)]
                                        =~= ranges_before.push((self.lo() + k, self.lo() + k + 1)));
                                }
                            },
                        }
                    }
                    offset = offset + c.len_utf8();
                    proof {
                        k = k + 1;
                    }
                },
            }
        }
        let ghost before = tokens@;
        match open {
            Some(token_start) => {
                let token = self.cut(token_start, offset, Ghost(open_from), Ghost(n));
                tokens.push(token);
                proof {
                    assert(tokens@.drop_last() =~= before);
                    assert(forall|t: int| 0 <= t < before.len() ==> tokens@[t] == before[t]);
                    assert forall|i: int|
                        0 <= i < n && !is_whitespace_char(#[trigger] text[i]) implies Self::covered(
                        tokens@,
                        self.lo() + i,
                    ) by {
                        Self::lemma_covered_push(before, token, self.lo() + i);
                    }
                    assert(Self::ranges(tokens@) =~= Self::ranges(before).push(
                        (self.lo() + open_from, self.lo() + n),
                    ));
                    assert(Self::ranges(before) + seq![(self.lo() + open_from, self.lo() + n)]
                        =~= Self::ranges(before).push((self.lo() + open_from, self.lo() + n)));
                }
            },
            None => {},
        }
        proof {
            assert(text.take(n) =~= text);
            assert(Self::ranges(tokens@) + Seq::<(int, int)>::empty() =~= Self::ranges(tokens@));
        }
        tokens
    }
}

} // verus!
