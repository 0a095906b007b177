//! The tokenizer: from spans of raw text to words.
//!
//! Each run of characters without white space is cut into words by rule:
//! opening punctuation comes off the front, contractions are set apart, and
//! closing punctuation comes off the back.

use crate::block::{lemma_words_text, word_ranges, words_text, Block, Word};
use crate::span::{ByteSpan, FullByteSpan};
use crate::text::{
    char_index, first_occurrence, join, lemma_join_concat, lemma_ws_ranges_join,
    lemma_ws_ranges_last, occurs_at, without_whitespace, ws_ranges,
};
use smallvec::SmallVec;
use vstd::prelude::*;

verus! {

/// A character that is a word of its own at the front of a token.
pub open spec fn is_prefix_char(c: char) -> bool {
    c == '$' || c == '(' || c == '"' || c == '\'' || c == '['
}

/// A character that is a word of its own at the back of a token.
pub open spec fn is_suffix_char(c: char) -> bool {
    c == ',' || c == ')' || c == '"' || c == ']' || c == '!' || c == ';' || c == '.' || c == '?'
        || c == ':' || c == '\'' || c == '%'
}

/// The contractions, in the order in which they are looked for.
pub open spec fn contraction(m: int) -> Seq<char> {
    if m == 0 {
        "'ll"@
    } else if m == 1 {
        "'s"@
    } else if m == 2 {
        "'re"@
    } else if m == 3 {
        "'m"@
    } else {
        "n't"@
    }
}

/// `needle` occurs somewhere in `text`.
pub open spec fn contains(text: Seq<char>, needle: Seq<char>) -> bool {
    exists|k: int| occurs_at(text, needle, k)
}

/// The first contraction, in the order in which they are looked for, that
/// occurs in `text`.
pub open spec fn next_marker(text: Seq<char>) -> Option<int> {
    if contains(text, contraction(0)) {
        Some(0)
    } else if contains(text, contraction(1)) {
        Some(1)
    } else if contains(text, contraction(2)) {
        Some(2)
    } else if contains(text, contraction(3)) {
        Some(3)
    } else if contains(text, contraction(4)) {
        Some(4)
    } else {
        None
    }
}

/// The index of the first occurrence in `text` of the contraction `m`.
pub open spec fn marker_at(text: Seq<char>, m: int) -> int {
    choose|k: int| first_occurrence(text, contraction(m), k)
}

/// The number of characters at the front of `text` that are words of their
/// own.
pub open spec fn leading_prefixes(text: Seq<char>) -> int
    decreases text.len(),
{
    if text.len() > 0 && is_prefix_char(text[0]) {
        1 + leading_prefixes(text.drop_first())
    } else {
        0
    }
}

/// The number of characters at the back of `text` that are words of their
/// own.
pub open spec fn trailing_suffixes(text: Seq<char>) -> int
    decreases text.len(),
{
    if text.len() > 0 && is_suffix_char(text.last()) {
        1 + trailing_suffixes(text.drop_last())
    } else {
        0
    }
}

/// One range of one character for each index from `from` up to `to`.
pub open spec fn singles(from: int, to: int) -> Seq<(int, int)> {
    Seq::new((to - from) as nat, |i: int| (from + i, from + i + 1))
}

/// The words that the contractions of `text` give, where `text` starts at
/// the index `base`: as long as a contraction occurs, what stands before the
/// first occurrence of the first that does, if anything, and the contraction
/// itself.
pub open spec fn contraction_cuts(text: Seq<char>, base: int) -> Seq<(int, int)>
    decreases text.len(),
{
    match next_marker(text) {
        Some(m) => {
            let k = marker_at(text, m);
            let w = contraction(m).len() as int;
            if 0 <= k && 0 < w && k + w <= text.len() {
                (if k > 0 {
                    seq![(base, base + k)]
                } else {
                    Seq::empty()
                }) + seq![(base + k, base + k + w)] + contraction_cuts(
                    text.skip(k + w),
                    base + k + w,
                )
            } else {
                Seq::empty()
            }
        },
        None => Seq::empty(),
    }
}

/// The number of characters of `text` up to the end of its last contraction.
pub open spec fn contraction_end(text: Seq<char>) -> int
    decreases text.len(),
{
    match next_marker(text) {
        Some(m) => {
            let k = marker_at(text, m);
            let w = contraction(m).len() as int;
            if 0 <= k && 0 < w && k + w <= text.len() {
                k + w + contraction_end(text.skip(k + w))
            } else {
                0
            }
        },
        None => 0,
    }
}

/// The words of a token that starts at the index `base`, each as the index
/// of its first character and the index after its last.
///
/// First come the characters at the front that are words of their own, then
/// what the contractions give, then what is left without the characters at
/// its back that are words of their own, and at last those.
pub open spec fn split_pieces(token: Seq<char>, base: int) -> Seq<(int, int)> {
    let n = token.len() as int;
    let p = leading_prefixes(token);
    let q = p + contraction_end(token.skip(p));
    let e = n - trailing_suffixes(token.skip(q));
    singles(base, base + p) + contraction_cuts(token.skip(p), base + p) + (if q < e {
        seq![(base + q, base + e)]
    } else {
        Seq::empty()
    }) + singles(base + e, base + n)
}

/// The words of the given tokens of `source`.
pub open spec fn token_pieces(source: Seq<char>, tokens: Seq<(int, int)>) -> Seq<(int, int)>
    decreases tokens.len(),
{
    if tokens.len() == 0 {
        Seq::empty()
    } else {
        token_pieces(source, tokens.drop_last()) + split_pieces(
            source.subrange(tokens.last().0, tokens.last().1),
            tokens.last().0,
        )
    }
}

/// The words of the part of `source` from the index `lo` up to `hi`.
pub open spec fn span_pieces(source: Seq<char>, lo: int, hi: int) -> Seq<(int, int)> {
    token_pieces(source, ws_ranges(source, lo, hi))
}

/// The words of the given spans of `source`.
pub open spec fn block_pieces(source: Seq<char>, spans: Seq<ByteSpan>) -> Seq<(int, int)>
    decreases spans.len(),
{
    if spans.len() == 0 {
        Seq::empty()
    } else {
        block_pieces(source, spans.drop_last()) + span_pieces(
            source,
            char_index(source, spans.last().spec_start() as int),
            char_index(source, spans.last().spec_end() as int),
        )
    }
}

/// The text of the given spans of `source` without white space, one span
/// after the other.
pub open spec fn block_text(source: Seq<char>, spans: Seq<ByteSpan>) -> Seq<char>
    decreases spans.len(),
{
    if spans.len() == 0 {
        Seq::empty()
    } else {
        block_text(source, spans.drop_last()) + without_whitespace(spans.last().text_in(source))
    }
}

/// The ranges lie one after the other and cover `from..to` exactly.
pub open spec fn tiles(ranges: Seq<(int, int)>, from: int, to: int) -> bool
    decreases ranges.len(),
{
    if ranges.len() == 0 {
        from == to
    } else {
        &&& ranges.last().0 < ranges.last().1
        &&& ranges.last().1 == to
        &&& from <= ranges.last().0
        &&& tiles(ranges.drop_last(), from, ranges.last().0)
    }
}

/// Ranges that cover `from..to` join to that part of the text.
pub proof fn lemma_tiles_join(text: Seq<char>, ranges: Seq<(int, int)>, from: int, to: int)
    requires
        tiles(ranges, from, to),
        0 <= from,
        to <= text.len(),
    ensures
        from <= to,
        join(text, ranges) == text.subrange(from, to),
    decreases ranges.len(),
{
    if ranges.len() == 0 {
        assert(text.subrange(from, to) =~= Seq::<char>::empty());
    } else {
        lemma_tiles_join(text, ranges.drop_last(), from, ranges.last().0);
        assert(text.subrange(from, ranges.last().0) + text.subrange(ranges.last().0, to)
            =~= text.subrange(from, to));
    }
}

/// Ranges that cover `from..mid` and ranges that cover `mid..to` cover
/// `from..to` together.
pub proof fn lemma_tiles_concat(
    a: Seq<(int, int)>,
    b: Seq<(int, int)>,
    from: int,
    mid: int,
    to: int,
)
    requires
        tiles(a, from, mid),
        tiles(b, mid, to),
    ensures
        tiles(a + b, from, to),
    decreases b.len(),
{
    if b.len() == 0 {
        assert(a + b =~= a);
    } else {
        lemma_tiles_concat(a, b.drop_last(), from, mid, b.last().0);
        assert((a + b).drop_last() =~= a + b.drop_last());
        assert((a + b).last() == b.last());
        lemma_tiles_order(a, from, mid);
        lemma_tiles_order(b.drop_last(), mid, b.last().0);
    }
}

/// Ranges cover nothing backwards.
pub proof fn lemma_tiles_order(ranges: Seq<(int, int)>, from: int, to: int)
    requires
        tiles(ranges, from, to),
    ensures
        from <= to,
    decreases ranges.len(),
{
    if ranges.len() > 0 {
        lemma_tiles_order(ranges.drop_last(), from, ranges.last().0);
    }
}

/// One range covers itself.
pub proof fn lemma_one_tile(from: int, to: int)
    requires
        from < to,
    ensures
        tiles(seq![(from, to)], from, to),
        tiles(Seq::<(int, int)>::empty(), from, from),
{
    let one = seq![(from, to)];
    let none = Seq::<(int, int)>::empty();
    assert(one.drop_last() =~= none);
    assert(none.len() == 0);
    assert(tiles(none, from, from));
    assert(one.last() == (from, to));
    assert(tiles(one.drop_last(), from, from));
}

/// The single characters of `from..to` cover it.
pub proof fn lemma_singles_tile(from: int, to: int)
    requires
        from <= to,
    ensures
        tiles(singles(from, to), from, to),
    decreases to - from,
{
    if from < to {
        lemma_singles_tile(from, to - 1);
        assert(singles(from, to).drop_last() =~= singles(from, to - 1));
    }
}

/// The characters at the front that are words of their own are no more than
/// the text has.
pub proof fn lemma_leading_prefixes(text: Seq<char>)
    ensures
        0 <= leading_prefixes(text) <= text.len(),
    decreases text.len(),
{
    if text.len() > 0 && is_prefix_char(text[0]) {
        lemma_leading_prefixes(text.drop_first());
    }
}

/// The characters at the back that are words of their own are no more than
/// the text has.
pub proof fn lemma_trailing_suffixes(text: Seq<char>)
    ensures
        0 <= trailing_suffixes(text) <= text.len(),
    decreases text.len(),
{
    if text.len() > 0 && is_suffix_char(text.last()) {
        lemma_trailing_suffixes(text.drop_last());
    }
}

/// What the contractions give covers the text up to the end of the last
/// contraction.
pub proof fn lemma_contraction_cuts_tile(text: Seq<char>, base: int)
    ensures
        0 <= contraction_end(text) <= text.len(),
        tiles(contraction_cuts(text, base), base, base + contraction_end(text)),
    decreases text.len(),
{
    match next_marker(text) {
        Some(m) => {
            let k = marker_at(text, m);
            let w = contraction(m).len() as int;
            if 0 <= k && 0 < w && k + w <= text.len() {
                let rest = text.skip(k + w);
                lemma_contraction_cuts_tile(rest, base + k + w);
                let head: Seq<(int, int)> = if k > 0 {
                    seq![(base, base + k)]
                } else {
                    Seq::empty()
                };
                let marker = seq![(base + k, base + k + w)];
                assert(tiles(head, base, base + k)) by {
                    if k > 0 {
                        lemma_one_tile(base, base + k);
                    }
                }
                assert(tiles(marker, base + k, base + k + w)) by {
                    lemma_one_tile(base + k, base + k + w);
                }
                lemma_tiles_concat(head, marker, base, base + k, base + k + w);
                lemma_tiles_concat(
                    head + marker,
                    contraction_cuts(rest, base + k + w),
                    base,
                    base + k + w,
                    base + k + w + contraction_end(rest),
                );
            }
        },
        None => {},
    }
}

/// The words of a token cover the token.
pub proof fn lemma_split_pieces_tile(token: Seq<char>, base: int)
    ensures
        tiles(split_pieces(token, base), base, base + token.len()),
{
    let n = token.len() as int;
    let p = leading_prefixes(token);
    lemma_leading_prefixes(token);
    let mid = token.skip(p);
    lemma_contraction_cuts_tile(mid, base + p);
    let q = p + contraction_end(mid);
    lemma_trailing_suffixes(token.skip(q));
    let e = n - trailing_suffixes(token.skip(q));
    let core: Seq<(int, int)> = if q < e {
        seq![(base + q, base + e)]
    } else {
        Seq::empty()
    };
    lemma_singles_tile(base, base + p);
    lemma_singles_tile(base + e, base + n);
    assert(tiles(core, base + q, base + e)) by {
        if q < e {
            lemma_one_tile(base + q, base + e);
        }
    }
    lemma_tiles_concat(
        singles(base, base + p),
        contraction_cuts(mid, base + p),
        base,
        base + p,
        base + q,
    );
    lemma_tiles_concat(
        singles(base, base + p) + contraction_cuts(mid, base + p),
        core,
        base,
        base + q,
        base + e,
    );
    lemma_tiles_concat(
        singles(base, base + p) + contraction_cuts(mid, base + p) + core,
        singles(base + e, base + n),
        base,
        base + e,
        base + n,
    );
}

/// The words of tokens spell the tokens.
pub proof fn lemma_token_pieces_join(source: Seq<char>, tokens: Seq<(int, int)>)
    requires
        forall|t: int|
            0 <= t < tokens.len() ==> 0 <= (#[trigger] tokens[t]).0 <= tokens[t].1 <= source.len(),
    ensures
        join(source, token_pieces(source, tokens)) == join(source, tokens),
    decreases tokens.len(),
{
    if tokens.len() > 0 {
        let (a, b) = tokens.last();
        assert(tokens[tokens.len() - 1] == tokens.last());
        lemma_token_pieces_join(source, tokens.drop_last());
        let pieces = split_pieces(source.subrange(a, b), a);
        lemma_split_pieces_tile(source.subrange(a, b), a);
        lemma_tiles_join(source, pieces, a, b);
        lemma_join_concat(source, token_pieces(source, tokens.drop_last()), pieces);
    }
}

/// The words of spans spell the spans without their white space.
pub proof fn lemma_block_pieces_join(source: Seq<char>, spans: Seq<ByteSpan>)
    requires
        forall|i: int| 0 <= i < spans.len() ==> (#[trigger] spans[i]).fits(source),
    ensures
        join(source, block_pieces(source, spans)) == block_text(source, spans),
    decreases spans.len(),
{
    if spans.len() > 0 {
        let last = spans.last();
        assert(spans[spans.len() - 1] == last);
        lemma_block_pieces_join(source, spans.drop_last());
        let lo = char_index(source, last.spec_start() as int);
        let hi = char_index(source, last.spec_end() as int);
        crate::text::lemma_boundary(source, last.spec_start() as int);
        crate::text::lemma_boundary(source, last.spec_end() as int);
        crate::text::lemma_boundary_order(
            source,
            last.spec_start() as int,
            last.spec_end() as int,
        );
        lemma_ws_ranges_last(source, lo, hi);
        lemma_token_pieces_join(source, ws_ranges(source, lo, hi));
        lemma_ws_ranges_join(source, lo, hi);
        lemma_join_concat(
            source,
            block_pieces(source, spans.drop_last()),
            span_pieces(source, lo, hi),
        );
    }
}

/// No range ends before it starts, and no range starts before an earlier
/// one ends.
pub open spec fn ascending(ranges: Seq<(int, int)>) -> bool {
    &&& forall|i: int| 0 <= i < ranges.len() ==> (#[trigger] ranges[i]).0 <= ranges[i].1
    &&& forall|i: int, j: int|
        0 <= i < j < ranges.len() ==> (#[trigger] ranges[i]).1 <= (#[trigger] ranges[j]).0
}

/// All the ranges lie within `lo..hi`.
pub open spec fn within(ranges: Seq<(int, int)>, lo: int, hi: int) -> bool {
    forall|i: int| 0 <= i < ranges.len() ==> lo <= (#[trigger] ranges[i]).0 && ranges[i].1 <= hi
}

/// Ranges in order before `mid`, followed by ranges in order after it, are
/// in order.
pub proof fn lemma_ascending_concat(a: Seq<(int, int)>, b: Seq<(int, int)>, lo: int, mid: int, hi: int)
    requires
        lo <= mid <= hi,
        ascending(a),
        ascending(b),
        within(a, lo, mid),
        within(b, mid, hi),
    ensures
        ascending(a + b),
        within(a + b, lo, hi),
{
    assert forall|i: int| 0 <= i < (a + b).len() implies (#[trigger] (a + b)[i]).0 <= (a + b)[i].1
        && lo <= (a + b)[i].0 && (a + b)[i].1 <= hi by {
        if i < a.len() {
            assert((a + b)[i] == a[i]);
        } else {
            assert((a + b)[i] == b[i - a.len()]);
        }
    }
    assert forall|i: int, j: int| 0 <= i < j < (a + b).len() implies (#[trigger] (a + b)[i]).1 <= (
    #[trigger] (a + b)[j]).0 by {
        if j < a.len() {
            assert((a + b)[i] == a[i] && (a + b)[j] == a[j]);
        } else if i < a.len() {
            assert((a + b)[i] == a[i] && (a + b)[j] == b[j - a.len()]);
        } else {
            assert((a + b)[i] == b[i - a.len()] && (a + b)[j] == b[j - a.len()]);
        }
    }
}

/// Ranges that cover `from..to` are in order and lie within it.
pub proof fn lemma_tiles_ascending(ranges: Seq<(int, int)>, from: int, to: int)
    requires
        tiles(ranges, from, to),
    ensures
        ascending(ranges),
        within(ranges, from, to),
    decreases ranges.len(),
{
    if ranges.len() > 0 {
        let before = ranges.drop_last();
        let last = ranges.last();
        lemma_tiles_ascending(before, from, last.0);
        lemma_tiles_order(before, from, last.0);
        let one = seq![last];
        assert(ascending(one));
        assert(within(one, last.0, to));
        lemma_ascending_concat(before, one, from, last.0, to);
        assert(before + one =~= ranges);
    }
}

/// The runs without white space are in order and lie within `lo..hi`.
pub proof fn lemma_ws_ranges_ascending(text: Seq<char>, lo: int, hi: int)
    requires
        0 <= lo <= hi <= text.len(),
    ensures
        ascending(ws_ranges(text, lo, hi)),
        within(ws_ranges(text, lo, hi), lo, hi),
    decreases hi - lo,
{
    if hi > lo {
        lemma_ws_ranges_ascending(text, lo, hi - 1);
        lemma_ws_ranges_last(text, lo, hi - 1);
        let before = ws_ranges(text, lo, hi - 1);
        let now = ws_ranges(text, lo, hi);
        if crate::text::is_whitespace_char(text[hi - 1]) {
        } else if hi - 1 > lo && !crate::text::is_whitespace_char(text[hi - 2]) && before.len() > 0 {
            let kept = before.drop_last();
            let one = seq![(before.last().0, hi)];
            assert(now =~= kept + one);
            assert(before.last() == before[before.len() - 1]);
            assert forall|i: int| 0 <= i < kept.len() implies (#[trigger] kept[i]) == before[i] by {}
            assert(ascending(kept));
            assert(within(kept, lo, before.last().0)) by {
                assert forall|i: int| 0 <= i < kept.len() implies lo <= (#[trigger] kept[i]).0
                    && kept[i].1 <= before.last().0 by {
                    assert(kept[i] == before[i]);
                    assert(before[i].1 <= before[before.len() - 1].0);
                }
            }
            assert(ascending(one));
            assert(within(one, before.last().0, hi));
            lemma_ascending_concat(kept, one, lo, before.last().0, hi);
        } else {
            let one = seq![(hi - 1, hi)];
            assert(now =~= before + one);
            assert(ascending(one));
            assert(within(one, hi - 1, hi));
            lemma_ascending_concat(before, one, lo, hi - 1, hi);
        }
    }
}

/// The words of tokens in order are in order.
pub proof fn lemma_token_pieces_ascending(
    source: Seq<char>,
    tokens: Seq<(int, int)>,
    lo: int,
    hi: int,
)
    requires
        ascending(tokens),
        within(tokens, lo, hi),
        0 <= lo <= hi <= source.len(),
    ensures
        ascending(token_pieces(source, tokens)),
        within(token_pieces(source, tokens), lo, hi),
    decreases tokens.len(),
{
    if tokens.len() > 0 {
        let before = tokens.drop_last();
        let (a, b) = tokens.last();
        assert(tokens.last() == tokens[tokens.len() - 1]);
        assert forall|i: int| 0 <= i < before.len() implies (#[trigger] before[i]) == tokens[i] by {}
        assert(ascending(before));
        assert(within(before, lo, a)) by {
            assert forall|i: int| 0 <= i < before.len() implies lo <= (#[trigger] before[i]).0
                && before[i].1 <= a by {
                assert(before[i] == tokens[i]);
                assert(tokens[i].1 <= tokens[tokens.len() - 1].0);
            }
        }
        lemma_token_pieces_ascending(source, before, lo, a);
        let pieces = split_pieces(source.subrange(a, b), a);
        lemma_split_pieces_tile(source.subrange(a, b), a);
        lemma_tiles_ascending(pieces, a, b);
        assert(within(pieces, a, hi));
        lemma_ascending_concat(token_pieces(source, before), pieces, lo, a, hi);
    } else {
        assert(lo <= hi);
    }
}

/// No span starts before an earlier one ends.
pub open spec fn spans_in_order(spans: Seq<ByteSpan>) -> bool {
    forall|i: int, j: int|
        0 <= i < j < spans.len() ==> (#[trigger] spans[i]).spec_end() <= (
        #[trigger] spans[j]).spec_start()
}

/// The words of spans in order are in order.
pub proof fn lemma_block_pieces_ascending(source: Seq<char>, spans: Seq<ByteSpan>)
    requires
        forall|i: int| 0 <= i < spans.len() ==> (#[trigger] spans[i]).fits(source),
        spans_in_order(spans),
    ensures
        ascending(block_pieces(source, spans)),
        within(block_pieces(source, spans), 0, source.len() as int),
        spans.len() > 0 ==> within(
            block_pieces(source, spans),
            0,
            char_index(source, spans.last().spec_end() as int),
        ),
    decreases spans.len(),
{
    if spans.len() > 0 {
        let before = spans.drop_last();
        let last = spans.last();
        assert(last == spans[spans.len() - 1]);
        assert forall|i: int| 0 <= i < before.len() implies (#[trigger] before[i]) == spans[i] by {}
        lemma_block_pieces_ascending(source, before);
        let lo = char_index(source, last.spec_start() as int);
        let hi = char_index(source, last.spec_end() as int);
        crate::text::lemma_boundary(source, last.spec_start() as int);
        crate::text::lemma_boundary(source, last.spec_end() as int);
        crate::text::lemma_boundary_order(
            source,
            last.spec_start() as int,
            last.spec_end() as int,
        );
        lemma_ws_ranges_ascending(source, lo, hi);
        lemma_token_pieces_ascending(source, ws_ranges(source, lo, hi), lo, hi);
        assert(within(block_pieces(source, before), 0, lo)) by {
            if before.len() > 0 {
                let prev = before.last();
                assert(prev == spans[spans.len() - 2]);
                crate::text::lemma_boundary(source, prev.spec_end() as int);
                crate::text::lemma_boundary_order(
                    source,
                    prev.spec_end() as int,
                    last.spec_start() as int,
                );
            }
        }
        lemma_ascending_concat(
            block_pieces(source, before),
            span_pieces(source, lo, hi),
            0,
            lo,
            hi,
        );
    }
}

/// Every range holds a character, lies within the text, and holds no white
/// space.
pub open spec fn solid(text: Seq<char>, ranges: Seq<(int, int)>) -> bool {
    forall|i: int|
        0 <= i < ranges.len() ==> 0 <= (#[trigger] ranges[i]).0 < ranges[i].1 <= text.len()
            && forall|c: int|
            ranges[i].0 <= c < ranges[i].1 ==> !crate::text::is_whitespace_char(#[trigger] text[c])
}

/// Solid ranges after solid ranges are solid.
pub proof fn lemma_solid_concat(text: Seq<char>, a: Seq<(int, int)>, b: Seq<(int, int)>)
    requires
        solid(text, a),
        solid(text, b),
    ensures
        solid(text, a + b),
{
    assert forall|i: int| 0 <= i < (a + b).len() implies 0 <= (#[trigger] (a + b)[i]).0 < (a
        + b)[i].1 <= text.len() && forall|c: int|
        (a + b)[i].0 <= c < (a + b)[i].1 ==> !crate::text::is_whitespace_char(
            #[trigger] text[c],
        ) by {
        if i < a.len() {
            assert((a + b)[i] == a[i]);
        } else {
            assert((a + b)[i] == b[i - a.len()]);
        }
    }
}

/// Ranges that cover `from..to` each hold a character.
pub proof fn lemma_tiles_strict(ranges: Seq<(int, int)>, from: int, to: int)
    requires
        tiles(ranges, from, to),
    ensures
        forall|i: int|
            0 <= i < ranges.len() ==> from <= (#[trigger] ranges[i]).0 < ranges[i].1 <= to,
    decreases ranges.len(),
{
    if ranges.len() > 0 {
        let before = ranges.drop_last();
        lemma_tiles_strict(before, from, ranges.last().0);
        assert forall|i: int| 0 <= i < ranges.len() implies from <= (#[trigger] ranges[i]).0
            < ranges[i].1 <= to by {
            if i < before.len() {
                assert(ranges[i] == before[i]);
            } else {
                assert(ranges[i] == ranges.last());
            }
        }
    }
}

/// The runs without white space are solid.
pub proof fn lemma_ws_ranges_solid(text: Seq<char>, lo: int, hi: int)
    requires
        0 <= lo <= hi <= text.len(),
    ensures
        solid(text, ws_ranges(text, lo, hi)),
    decreases hi - lo,
{
    if hi > lo {
        lemma_ws_ranges_solid(text, lo, hi - 1);
        lemma_ws_ranges_last(text, lo, hi - 1);
        lemma_ws_ranges_last(text, lo, hi);
        let before = ws_ranges(text, lo, hi - 1);
        let now = ws_ranges(text, lo, hi);
        assert forall|i: int| 0 <= i < now.len() implies 0 <= (#[trigger] now[i]).0 < now[i].1
            <= text.len() && forall|c: int|
            now[i].0 <= c < now[i].1 ==> !crate::text::is_whitespace_char(#[trigger] text[c]) by {
            if crate::text::is_whitespace_char(text[hi - 1]) {
                assert(now[i] == before[i]);
            } else if hi - 1 > lo && !crate::text::is_whitespace_char(text[hi - 2]) && before.len()
                > 0 {
                if i < now.len() - 1 {
                    assert(now[i] == before[i]);
                } else {
                    assert(before.last() == before[before.len() - 1]);
                    assert(now[i] == (before.last().0, hi));
                    assert(before.last().1 == hi - 1);
                }
            } else {
                if i < before.len() {
                    assert(now[i] == before[i]);
                } else {
                    assert(now[i] == (hi - 1, hi));
                }
            }
        }
    }
}

/// The words of solid tokens are solid.
pub proof fn lemma_token_pieces_solid(source: Seq<char>, tokens: Seq<(int, int)>)
    requires
        solid(source, tokens),
    ensures
        solid(source, token_pieces(source, tokens)),
    decreases tokens.len(),
{
    if tokens.len() > 0 {
        let before = tokens.drop_last();
        let (a, b) = tokens.last();
        assert(tokens.last() == tokens[tokens.len() - 1]);
        assert forall|i: int| 0 <= i < before.len() implies (#[trigger] before[i]) == tokens[i] by {}
        lemma_token_pieces_solid(source, before);
        let pieces = split_pieces(source.subrange(a, b), a);
        lemma_split_pieces_tile(source.subrange(a, b), a);
        lemma_tiles_strict(pieces, a, b);
        assert(solid(source, pieces));
        lemma_solid_concat(source, token_pieces(source, before), pieces);
    }
}

/// The words of spans are solid: each holds a character and no white space.
pub proof fn lemma_block_pieces_solid(source: Seq<char>, spans: Seq<ByteSpan>)
    requires
        forall|i: int| 0 <= i < spans.len() ==> (#[trigger] spans[i]).fits(source),
    ensures
        solid(source, block_pieces(source, spans)),
    decreases spans.len(),
{
    if spans.len() > 0 {
        let before = spans.drop_last();
        let last = spans.last();
        assert(last == spans[spans.len() - 1]);
        assert forall|i: int| 0 <= i < before.len() implies (#[trigger] before[i]).fits(source) by {
            assert(before[i] == spans[i]);
        }
        lemma_block_pieces_solid(source, before);
        let lo = char_index(source, last.spec_start() as int);
        let hi = char_index(source, last.spec_end() as int);
        crate::text::lemma_boundary(source, last.spec_start() as int);
        crate::text::lemma_boundary(source, last.spec_end() as int);
        crate::text::lemma_boundary_order(
            source,
            last.spec_start() as int,
            last.spec_end() as int,
        );
        lemma_ws_ranges_solid(source, lo, hi);
        lemma_token_pieces_solid(source, ws_ranges(source, lo, hi));
        lemma_solid_concat(source, block_pieces(source, before), span_pieces(source, lo, hi));
    }
}

/// Every word holds a character, and none holds white space.
pub open spec fn words_are_solid(words: Seq<Word>) -> bool {
    forall|i: int|
        0 <= i < words.len() ==> (#[trigger] words[i]).text().len() > 0 && forall|c: int|
            0 <= c < words[i].text().len() ==> !crate::text::is_whitespace_char(
                #[trigger] words[i].text()[c],
            )
}

/// Words that lie in a text at solid ranges are solid.
pub proof fn lemma_words_are_solid(words: Seq<Word>, source: Seq<char>)
    requires
        forall|i: int| 0 <= i < words.len() ==> (#[trigger] words[i]).lies_in(source),
        solid(source, word_ranges(words, source)),
    ensures
        words_are_solid(words),
{
    let ranges = word_ranges(words, source);
    assert forall|i: int| 0 <= i < words.len() implies (#[trigger] words[i]).text().len() > 0
        && forall|c: int|
        0 <= c < words[i].text().len() ==> !crate::text::is_whitespace_char(
            #[trigger] words[i].text()[c],
        ) by {
        assert(words[i].lies_in(source));
        let r = ranges[i];
        assert(words[i].text() == source.subrange(r.0, r.1));
        assert forall|c: int| 0 <= c < words[i].text().len() implies !crate::text::is_whitespace_char(
            #[trigger] words[i].text()[c],
        ) by {
            assert(words[i].text()[c] == source[r.0 + c]);
        }
    }
}

/// No word starts before the end of an earlier one.
pub open spec fn words_apart(words: Seq<Word>) -> bool {
    forall|i: int, j: int|
        0 <= i < j < words.len() ==> (#[trigger] words[i]).spec_end() <= (
        #[trigger] words[j]).spec_offset()
}

/// Words that lie in a text at ranges in order have offsets in order, and
/// none starts before the end of an earlier one.
pub proof fn lemma_offsets_in_order(words: Seq<Word>, source: Seq<char>)
    requires
        forall|i: int| 0 <= i < words.len() ==> (#[trigger] words[i]).lies_in(source),
        ascending(word_ranges(words, source)),
    ensures
        crate::doc::offsets_in_order(words),
        words_apart(words),
{
    let ranges = word_ranges(words, source);
    assert forall|i: int, j: int| 0 <= i < j < words.len() implies (
    #[trigger] words[i]).spec_end() <= (#[trigger] words[j]).spec_offset() by {
        assert(ranges[i].1 <= ranges[j].0);
        assert(words[i].lies_in(source));
        assert(words[j].lies_in(source));
        crate::text::lemma_boundary_order(
            source,
            words[i].spec_end(),
            words[j].spec_offset() as int,
        );
    }
    assert forall|i: int, j: int| 0 <= i <= j < words.len() implies (
    #[trigger] words[i]).spec_offset() <= (#[trigger] words[j]).spec_offset() by {
        if i < j {
            assert(ranges[i].1 <= ranges[j].0);
            assert(ranges[i].0 <= ranges[i].1);
            assert(words[i].lies_in(source));
            assert(words[j].lies_in(source));
            crate::text::lemma_boundary_order(
                source,
                words[i].spec_offset() as int,
                words[j].spec_offset() as int,
            );
        }
    }
}

/// A short run of words that lives on the stack: a `SmallVec` of the crate
/// `smallvec` with room for four words. What it holds is named by
/// [`buffer_words`].
#[verifier::external_body]
pub struct WordBuffer<'input> {
    inner: SmallVec<[Word<'input>; 4]>,
}

/// The words that a buffer holds, in the order in which they were pushed.
pub uninterp spec fn buffer_words(buffer: WordBuffer) -> Seq<Word>;

/// `SmallVec::new`: a buffer that holds nothing.
#[verifier::external_body]
fn buffer_new<'input>() -> (buffer: WordBuffer<'input>)
    ensures
        buffer_words(buffer) == Seq::<Word>::empty(),
{
    WordBuffer { inner: SmallVec::new() }
}

/// `SmallVec::push`: the word is added after those that the buffer holds.
#[verifier::external_body]
fn buffer_push<'input>(buffer: &mut WordBuffer<'input>, word: Word<'input>)
    ensures
        buffer_words(*final(buffer)) == buffer_words(*old(buffer)).push(word),
{
    buffer.inner.push(word)
}

/// `SmallVec::len`: the number of words that the buffer holds.
#[verifier::external_body]
fn buffer_len(buffer: &WordBuffer) -> (n: usize)
    ensures
        n == buffer_words(*buffer).len(),
{
    buffer.inner.len()
}

/// Indexing a `SmallVec`: the word at the given place in the buffer.
#[verifier::external_body]
fn buffer_get<'input>(buffer: &WordBuffer<'input>, index: usize) -> (word: Word<'input>)
    requires
        index < buffer_words(*buffer).len(),
    ensures
        word == buffer_words(*buffer)[index as int],
{
    buffer.inner[index]
}

/// What pushing a word does to the ranges of the words from `start` on.
proof fn lemma_pushed(before: Seq<Word>, word: Word, start: int, source: Seq<char>)
    requires
        0 <= start <= before.len(),
    ensures
        before.push(word).take(start) == before.take(start),
        word_ranges(before.push(word).skip(start), source) == word_ranges(
            before.skip(start),
            source,
        ).push(word.range_in(source)),
{
    assert(before.push(word).take(start) =~= before.take(start));
    assert(before.push(word).skip(start) =~= before.skip(start).push(word));
    assert(word_ranges(before.push(word).skip(start), source) =~= word_ranges(
        before.skip(start),
        source,
    ).push(word.range_in(source)));
}

/// The contractions are not empty.
proof fn lemma_contraction_len(m: int)
    ensures
        2 <= contraction(m).len() <= 3,
{
    reveal_strlit("'ll");
    reveal_strlit("'s");
    reveal_strlit("'re");
    reveal_strlit("'m");
    reveal_strlit("n't");
}

/// A tokenizer that splits a block of text into words.
pub struct Tokenizer {}

impl Default for Tokenizer {
    fn default() -> (tokenizer: Self) {
        Tokenizer {}
    }
}

impl Tokenizer {
    /// Tokenize the given block of `ByteSpan`s into a new block of `Word`s.
    ///
    /// The words are those of each span in turn, see [`block_pieces`]. They
    /// spell the text of the spans without its white space: each is a part
    /// of the input that holds a character and no white space. Where the
    /// spans come in the order of the text, so do the words, and none
    /// starts before the end of the one before.
    pub fn tokenize<'input>(&self, input: &'input str, block: Block<ByteSpan>) -> (words: Block<
        Word<'input>,
    >)
        requires
            forall|i: int| 0 <= i < block@.len() ==> (#[trigger] block@[i]).fits(input@),
        ensures
            words.spec_kind() == block.spec_kind(),
            forall|i: int|
                0 <= i < words@.len() ==> (#[trigger] words@[i]).lies_in(input@)
                    && words@[i].spec_tag() is None,
            word_ranges(words@, input@) == block_pieces(input@, block@),
            words_text(words@) == block_text(input@, block@),
            words_are_solid(words@),
            spans_in_order(block@) ==> crate::doc::offsets_in_order(words@) && words_apart(words@),
    {
        let kind = block.kind();
        let ghost all = block@;
        let spans = block.into_vec();
        let mut words: Vec<Word<'input>> = Vec::new();
        let mut i: usize = 0;
        assert(word_ranges(words@, input@) =~= block_pieces(input@, spans@.take(0)));
        while i < spans.len()
            invariant
                spans@ == all,
                0 <= i <= spans@.len(),
                forall|s: int| 0 <= s < spans@.len() ==> (#[trigger] spans@[s]).fits(input@),
                forall|w: int|
                    0 <= w < words@.len() ==> (#[trigger] words@[w]).lies_in(input@)
                        && words@[w].spec_tag() is None,
                word_ranges(words@, input@) == block_pieces(input@, spans@.take(i as int)),
            decreases spans@.len() - i,
        {
            let full = FullByteSpan::of_span(input, spans[i]);
            let tokens = full.split_whitespace();
            let ghost ranges = ws_ranges(input@, full.lo(), full.hi());
            let ghost done = word_ranges(words@, input@);
            let mut j: usize = 0;
            assert(done + token_pieces(input@, ranges.take(0)) =~= done);
            while j < tokens.len()
                invariant
                    0 <= j <= tokens@.len(),
                    FullByteSpan::ranges(tokens@) == ranges,
                    forall|t: int|
                        0 <= t < tokens@.len() ==> (#[trigger] tokens@[t]).source() == input@
                            && tokens@[t].valid(),
                    forall|w: int|
                        0 <= w < words@.len() ==> (#[trigger] words@[w]).lies_in(input@)
                            && words@[w].spec_tag() is None,
                    word_ranges(words@, input@) == done + token_pieces(
                        input@,
                        ranges.take(j as int),
                    ),
                decreases tokens@.len() - j,
            {
                let ghost before = words@;
                let token = tokens[j];
                self.split(token, &mut words);
                proof {
                    let start = before.len() as int;
                    assert(words@ =~= before + words@.skip(start));
                    assert(word_ranges(words@, input@) =~= word_ranges(before, input@)
                        + word_ranges(words@.skip(start), input@));
                    assert(ranges.take(j + 1).drop_last() =~= ranges.take(j as int));
                    assert(ranges.take(j + 1).last() == ranges[j as int]);
                    assert(ranges[j as int] == (token.lo(), token.hi()));
                    assert(token.text() == input@.subrange(token.lo(), token.hi()));
                }
                j += 1;
            }
            proof {
                assert(ranges.take(tokens@.len() as int) =~= ranges);
                assert(spans@.take(i + 1).drop_last() =~= spans@.take(i as int));
                assert(spans@.take(i + 1).last() == spans@[i as int]);
            }
            i += 1;
        }
        proof {
            assert(spans@.take(spans@.len() as int) =~= spans@);
            lemma_block_pieces_join(input@, all);
            lemma_words_text(words@, input@);
            lemma_block_pieces_solid(input@, all);
            lemma_words_are_solid(words@, input@);
            if spans_in_order(all) {
                lemma_block_pieces_ascending(input@, all);
                lemma_offsets_in_order(words@, input@);
            }
        }
        Block::new(kind, words)
    }

    /// Split a single token into one or more words, and add them to `out`.
    fn split<'input>(&self, span: FullByteSpan<'input>, out: &mut Vec<Word<'input>>)
        requires
            span.valid(),
        ensures
            final(out)@.len() >= old(out)@.len(),
            final(out)@.take(old(out)@.len() as int) == old(out)@,
            word_ranges(final(out)@.skip(old(out)@.len() as int), span.source()) == split_pieces(
                span.text(),
                span.lo(),
            ),
            forall|i: int|
                old(out)@.len() <= i < final(out)@.len() ==> (#[trigger] final(out)@[i]).lies_in(
                    span.source(),
                ) && final(out)@[i].spec_tag() is None,
    {
        span.check_state();
        let ghost token = span.text();
        let ghost source = span.source();
        let ghost n = token.len() as int;
        let ghost base = span.lo();
        let ghost start = out@.len() as int;
        let mut rest = span;

        // First, strip off any prefixes from the start of the span.
        let ghost mut p: int = 0;
        let mut peeling = true;
        proof {
            assert(token.subrange(0, n) =~= token);
            assert(token.skip(0) =~= token);
            assert(out@.take(start) =~= out@);
            assert(word_ranges(out@.skip(start), source) =~= singles(base, base));
        }
        while peeling
            invariant
                span.valid(),
                token == span.text(),
                source == span.source(),
                n == token.len(),
                base == span.lo(),
                start == old(out)@.len(),
                0 <= p <= n,
                rest.part_of(&span, p, n),
                out@.len() == start + p,
                out@.take(start) == old(out)@,
                word_ranges(out@.skip(start), source) == singles(base, base + p),
                forall|i: int|
                    start <= i < out@.len() ==> (#[trigger] out@[i]).lies_in(source)
                        && out@[i].spec_tag() is None,
                leading_prefixes(token) == p + leading_prefixes(token.skip(p)),
                !peeling ==> leading_prefixes(token.skip(p)) == 0,
            decreases n - p + (if peeling { 1int } else { 0int }),
        {
            assert(rest.text() =~= token.skip(p));
            match Tokenizer::has_prefix(rest) {
                Some((head, tail)) => {
                    let word = Word::of_span(head);
                    proof {
                        head.lemma_part_of_part(&rest, &span, 0, 1, p, n);
                        tail.lemma_part_of_part(&rest, &span, 1, n - p, p, n);
                        lemma_pushed(out@, word, start, source);
                        assert(token.skip(p).drop_first() =~= token.skip(p + 1));
                        assert(singles(base, base + p).push((base + p, base + p + 1)) =~= singles(
                            base,
                            base + p + 1,
                        ));
                    }
                    out.push(word);
                    rest = tail;
                    proof {
                        p = p + 1;
                    }
                },
                None => {
                    peeling = false;
                },
            }
        }

        // Next, split off any contractions from the start of the remaining span.
        let ghost mid = token.skip(p);
        let ghost mut q: int = p;
        let ghost mut done: Seq<(int, int)> = singles(base, base + p);
        let mut contracting = true;
        proof {
            assert(done + contraction_cuts(token.skip(q), base + q) =~= singles(base, base + p)
                + contraction_cuts(mid, base + p));
        }
        while contracting
            invariant
                span.valid(),
                token == span.text(),
                source == span.source(),
                n == token.len(),
                base == span.lo(),
                start == old(out)@.len(),
                mid == token.skip(p),
                0 <= p <= q <= n,
                rest.part_of(&span, q, n),
                out@.len() >= start,
                out@.take(start) == old(out)@,
                word_ranges(out@.skip(start), source) == done,
                forall|i: int|
                    start <= i < out@.len() ==> (#[trigger] out@[i]).lies_in(source)
                        && out@[i].spec_tag() is None,
                done + contraction_cuts(token.skip(q), base + q) == singles(base, base + p)
                    + contraction_cuts(mid, base + p),
                q + contraction_end(token.skip(q)) == p + contraction_end(mid),
                !contracting ==> contraction_cuts(token.skip(q), base + q) == Seq::<
                    (int, int),
                >::empty() && contraction_end(token.skip(q)) == 0,
            decreases n - q + (if contracting { 1int } else { 0int }),
        {
            assert(rest.text() =~= token.skip(q));
            match Tokenizer::has_contraction(rest) {
                Some((before, found, after)) => {
                    let ghost m = next_marker(rest.text())->0;
                    let ghost k = before.text().len() as int;
                    let ghost w = contraction(m).len() as int;
                    proof {
                        lemma_contraction_len(m);
                        assert(k == marker_at(rest.text(), m));
                        before.lemma_part_of_part(&rest, &span, 0, k, q, n);
                        found.lemma_part_of_part(&rest, &span, k, k + w, q, n);
                        after.lemma_part_of_part(&rest, &span, k + w, n - q, q, n);
                        assert(token.skip(q).skip(k + w) =~= token.skip(q + k + w));
                    }
                    let ghost head: Seq<(int, int)> = if k > 0 {
                        seq![(base + q, base + q + k)]
                    } else {
                        Seq::empty()
                    };
                    if !before.is_empty() {
                        let word = Word::of_span(before);
                        proof {
                            lemma_pushed(out@, word, start, source);
                        }
                        out.push(word);
                    }
                    proof {
                        assert(word_ranges(out@.skip(start), source) =~= done + head);
                    }
                    let word = Word::of_span(found);
                    proof {
                        lemma_pushed(out@, word, start, source);
                    }
                    out.push(word);
                    rest = after;
                    proof {
                        let marker = seq![(base + q + k, base + q + k + w)];
                        assert(word_ranges(out@.skip(start), source) =~= done + head + marker);
                        assert(done + (head + marker + contraction_cuts(
                            token.skip(q + k + w),
                            base + q + k + w,
                        )) =~= (done + head + marker) + contraction_cuts(
                            token.skip(q + k + w),
                            base + q + k + w,
                        ));
                        done = done + head + marker;
                        q = q + k + w;
                    }
                },
                None => {
                    contracting = false;
                },
            }
        }

        // Next, split off any suffixes from the end of the remaining span.
        let ghost tail_text = token.skip(q);
        let ghost mut e: int = n;
        let mut suffixes = buffer_new();
        let mut stripping = true;
        proof {
            assert(token.subrange(q, n) =~= tail_text);
        }
        while stripping
            invariant
                span.valid(),
                token == span.text(),
                source == span.source(),
                n == token.len(),
                base == span.lo(),
                tail_text == token.skip(q),
                0 <= q <= e <= n,
                rest.part_of(&span, q, e),
                buffer_words(suffixes).len() == n - e,
                forall|j: int|
                    0 <= j < n - e ==> (#[trigger] buffer_words(suffixes)[j]).lies_in(source)
                        && buffer_words(suffixes)[j].spec_tag() is None && buffer_words(
                        suffixes,
                    )[j].range_in(source) == (base + n - 1 - j, base + n - j),
                trailing_suffixes(tail_text) == (n - e) + trailing_suffixes(token.subrange(q, e)),
                !stripping ==> trailing_suffixes(token.subrange(q, e)) == 0,
            decreases e - q + (if stripping { 1int } else { 0int }),
        {
            match Tokenizer::has_suffix(rest) {
                Some((head, tail)) => {
                    let word = Word::of_span(tail);
                    proof {
                        head.lemma_part_of_part(&rest, &span, 0, e - q - 1, q, e);
                        tail.lemma_part_of_part(&rest, &span, e - q - 1, e - q, q, e);
                        assert(token.subrange(q, e).drop_last() =~= token.subrange(q, e - 1));
                    }
                    let ghost held = buffer_words(suffixes);
                    buffer_push(&mut suffixes, word);
                    rest = head;
                    proof {
                        assert(forall|j: int|
                            0 <= j < n - e ==> buffer_words(suffixes)[j] == held[j]);
                        e = e - 1;
                    }
                },
                None => {
                    stripping = false;
                },
            }
        }

        // Finally, add the remaining span as a word if it's not empty.
        let ghost core: Seq<(int, int)> = if q < e {
            seq![(base + q, base + e)]
        } else {
            Seq::empty()
        };
        if !rest.is_empty() {
            let word = Word::of_span(rest);
            proof {
                lemma_pushed(out@, word, start, source);
            }
            out.push(word);
        }
        proof {
            assert(word_ranges(out@.skip(start), source) =~= done + core);
        }
        let count = buffer_len(&suffixes);
        let mut left: usize = count;
        proof {
            assert(done + core + singles(base + e, base + e) =~= done + core);
        }
        while left > 0
            invariant
                0 <= left <= count,
                count == n - e,
                count == buffer_words(suffixes).len(),
                start == old(out)@.len(),
                out@.len() >= start,
                out@.take(start) == old(out)@,
                forall|j: int|
                    0 <= j < n - e ==> (#[trigger] buffer_words(suffixes)[j]).lies_in(source)
                        && buffer_words(suffixes)[j].spec_tag() is None && buffer_words(
                        suffixes,
                    )[j].range_in(source) == (base + n - 1 - j, base + n - j),
                forall|i: int|
                    start <= i < out@.len() ==> (#[trigger] out@[i]).lies_in(source)
                        && out@[i].spec_tag() is None,
                word_ranges(out@.skip(start), source) == done + core + singles(
                    base + e,
                    base + n - left,
                ),
            decreases left,
        {
            let word = buffer_get(&suffixes, left - 1);
            proof {
                lemma_pushed(out@, word, start, source);
                assert(singles(base + e, base + n - left).push((base + n - left, base + n - left + 1))
                    =~= singles(base + e, base + n - left + 1));
                assert((done + core + singles(base + e, base + n - left)).push(
                    (base + n - left, base + n - left + 1),
                ) =~= done + core + singles(base + e, base + n - left + 1));
            }
            out.push(word);
            left -= 1;
        }
        proof {
            assert(q == p + contraction_end(mid));
            assert(e == n - trailing_suffixes(token.skip(q)));
            assert(p == leading_prefixes(token));
            assert(done == singles(base, base + p) + contraction_cuts(mid, base + p)) by {
                assert(done + Seq::<(int, int)>::empty() =~= done);
            }
        }
    }

    /// The first character and the rest, where the first character is a word
    /// of its own at the front of a token.
    fn has_prefix<'input>(span: FullByteSpan<'input>) -> (parts: Option<
        (FullByteSpan<'input>, FullByteSpan<'input>),
    >)
        requires
            span.valid(),
        ensures
            parts is Some <==> (span.text().len() > 0 && is_prefix_char(span.text()[0])),
            parts is Some ==> {
                let (head, tail) = parts->0;
                &&& head.part_of(&span, 0, 1)
                &&& tail.part_of(&span, 1, span.text().len() as int)
            },
    {
        match span.split_first() {
            Some(((c, head), tail)) => {
                if c == '$' || c == '(' || c == '"' || c == '\'' || c == '[' {
                    Some((head, tail))
                } else {
                    None
                }
            },
            None => None,
        }
    }

    /// What stands before, in and after the first occurrence of the first
    /// contraction that occurs in the span.
    fn has_contraction<'input>(span: FullByteSpan<'input>) -> (parts: Option<
        (FullByteSpan<'input>, FullByteSpan<'input>, FullByteSpan<'input>),
    >)
        requires
            span.valid(),
        ensures
            parts is Some <==> next_marker(span.text()) is Some,
            parts is Some ==> {
                let (before, found, after) = parts->0;
                let m = next_marker(span.text())->0;
                let k = before.text().len() as int;
                let w = contraction(m).len() as int;
                &&& first_occurrence(span.text(), contraction(m), k)
                &&& before.part_of(&span, 0, k)
                &&& found.part_of(&span, k, k + w)
                &&& after.part_of(&span, k + w, span.text().len() as int)
            },
    {
        if let Some(parts) = span.split3("'ll") {
            return Some(parts);
        }
        if let Some(parts) = span.split3("'s") {
            return Some(parts);
        }
        if let Some(parts) = span.split3("'re") {
            return Some(parts);
        }
        if let Some(parts) = span.split3("'m") {
            return Some(parts);
        }
        if let Some(parts) = span.split3("n't") {
            return Some(parts);
        }
        None
    }

    /// The rest and the last character, where the last character is a word
    /// of its own at the back of a token.
    fn has_suffix<'input>(span: FullByteSpan<'input>) -> (parts: Option<
        (FullByteSpan<'input>, FullByteSpan<'input>),
    >)
        requires
            span.valid(),
        ensures
            parts is Some <==> (span.text().len() > 0 && is_suffix_char(span.text().last())),
            parts is Some ==> {
                let (head, tail) = parts->0;
                &&& head.part_of(&span, 0, span.text().len() - 1)
                &&& tail.part_of(&span, span.text().len() - 1, span.text().len() as int)
            },
    {
        match span.split_last() {
            Some((head, (c, tail))) => {
                if c == ',' || c == ')' || c == '"' || c == ']' || c == '!' || c == ';' || c == '.'
                    || c == '?' || c == ':' || c == '\'' || c == '%' {
                    Some((head, tail))
                } else {
                    None
                }
            },
            None => None,
        }
    }
}

} // verus!
