//! Plain text: paragraphs with an empty line between them.

use crate::block::{Block, BlockKind, Word};
use crate::doc::{blocks_lie_in, offsets_in_order, outline, Parser};
use crate::span::{ByteSpan, FullByteSpan};
use crate::text::{char_is_whitespace, first_occurrence, is_whitespace_char, occurs_at};
use crate::tokenize::{block_pieces, span_pieces, spans_in_order, Tokenizer};
use vstd::prelude::*;
use vstd::string::*;

verus! {

/// The number of characters of white space at the front of a text.
pub open spec fn leading_whitespace(text: Seq<char>) -> int
    decreases text.len(),
{
    if text.len() > 0 && is_whitespace_char(text[0]) {
        1 + leading_whitespace(text.drop_first())
    } else {
        0
    }
}

/// The white space at the front of a text ends where the first character
/// that is no white space stands.
pub proof fn lemma_leading_whitespace(text: Seq<char>, k: int)
    requires
        0 <= k <= text.len(),
        forall|i: int| 0 <= i < k ==> is_whitespace_char(#[trigger] text[i]),
        k < text.len() ==> !is_whitespace_char(text[k]),
    ensures
        leading_whitespace(text) == k,
    decreases k,
{
    if k > 0 {
        let rest = text.drop_first();
        assert forall|i: int| 0 <= i < k - 1 implies is_whitespace_char(#[trigger] rest[i]) by {
            assert(rest[i] == text[i + 1]);
        }
        lemma_leading_whitespace(rest, k - 1);
    }
}

/// The number of characters of white space at the back of a text.
pub open spec fn trailing_whitespace(text: Seq<char>) -> int
    decreases text.len(),
{
    if text.len() > 0 && is_whitespace_char(text.last()) {
        1 + trailing_whitespace(text.drop_last())
    } else {
        0
    }
}

/// The white space at the back of a text starts after the last character
/// that is no white space.
pub proof fn lemma_trailing_whitespace(text: Seq<char>, k: int)
    requires
        0 <= k <= text.len(),
        forall|i: int| text.len() - k <= i < text.len() ==> is_whitespace_char(#[trigger] text[i]),
        k < text.len() ==> !is_whitespace_char(text[text.len() - k - 1]),
    ensures
        trailing_whitespace(text) == k,
    decreases k,
{
    if k > 0 {
        let rest = text.drop_last();
        assert forall|i: int| rest.len() - (k - 1) <= i < rest.len() implies is_whitespace_char(
            #[trigger] rest[i],
        ) by {
            assert(rest[i] == text[i]);
        }
        assert(is_whitespace_char(text[text.len() - 1]));
        lemma_trailing_whitespace(rest, k - 1);
    }
}

/// The block of the characters `lo..hi` of a text: a paragraph of the words
/// that follow the white space at its front, or no block where nothing
/// follows.
pub open spec fn paragraph(text: Seq<char>, lo: int, hi: int) -> Seq<(BlockKind, Seq<(int, int)>)> {
    let start = lo + leading_whitespace(text.subrange(lo, hi));
    if start < hi {
        seq![(BlockKind::Paragraph, span_pieces(text, start, hi))]
    } else {
        Seq::empty()
    }
}

/// The text holds an empty line: two line feeds in a row.
pub open spec fn has_break(text: Seq<char>) -> bool {
    exists|k: int| occurs_at(text, "\n\n"@, k)
}

/// The index of the first empty line of the text.
pub open spec fn first_break(text: Seq<char>) -> int {
    choose|k: int| first_occurrence(text, "\n\n"@, k)
}

/// The blocks of a text from the index `from` on: a paragraph for each part
/// between empty lines that holds more than white space.
pub open spec fn paragraphs(text: Seq<char>, from: int) -> Seq<(BlockKind, Seq<(int, int)>)>
    decreases text.len() - from,
{
    if from < 0 || from > text.len() {
        Seq::empty()
    } else if has_break(text.skip(from)) {
        let k = first_break(text.skip(from));
        if 0 <= k && from + k + 2 <= text.len() {
            paragraph(text, from, from + k) + paragraphs(text, from + k + 2)
        } else {
            Seq::empty()
        }
    } else {
        paragraph(text, from, text.len() as int)
    }
}

/// A parser for plaintext documents.
///
/// This parser treats two newlines ('\n\n') as a paragraph separator.
pub struct PlaintextParser {
    tokenizer: Tokenizer,
}

impl PlaintextParser {
    /// Create a new plaintext parser with the given tokenizer.
    pub fn new(tokenizer: Tokenizer) -> (parser: Self) {
        Self { tokenizer }
    }

    /// Add the paragraph of a part of the text, where the part holds more
    /// than white space.
    fn push_paragraph<'a>(
        &self,
        data: &'a str,
        part: FullByteSpan<'a>,
        blocks: &mut Vec<Block<Word<'a>>>,
    )
        requires
            part.valid(),
            part.source() == data@,
            blocks_lie_in(old(blocks)@, data@),
            forall|b: int, w: int|
                0 <= b < old(blocks)@.len() && 0 <= w < old(blocks)@[b]@.len() ==> (
                #[trigger] old(blocks)@[b]@[w]).spec_tag() is None,
        ensures
            outline(final(blocks)@, data@) == outline(old(blocks)@, data@) + paragraph(
                data@,
                part.lo(),
                part.hi(),
            ),
            blocks_lie_in(final(blocks)@, data@),
            forall|b: int, w: int|
                0 <= b < final(blocks)@.len() && 0 <= w < final(blocks)@[b]@.len() ==> (
                #[trigger] final(blocks)@[b]@[w]).spec_tag() is None,
    {
        part.check_state();
        let ghost before = blocks@;
        let prefix = part.skip_while(char_is_whitespace);
        proof {
            let text = part.text();
            let k = text.len() - prefix.text().len();
            assert forall|i: int| 0 <= i < k implies is_whitespace_char(#[trigger] text[i]) by {
                assert(call_ensures(char_is_whitespace, (text[i],), true));
            }
            lemma_leading_whitespace(text, k);
            assert(text == data@.subrange(part.lo(), part.hi()));
        }
        if !prefix.is_empty() {
            let span = prefix.as_span();
            let block = Block::singleton(BlockKind::Paragraph, span);
            proof {
                let spans = seq![span];
                assert(spans.drop_last() =~= Seq::<ByteSpan>::empty());
                assert(spans.last() == span);
                assert(block_pieces(data@, spans.drop_last()) =~= Seq::<(int, int)>::empty());
                assert(prefix.source() == data@);
                assert(block_pieces(data@, spans) =~= Seq::<(int, int)>::empty() + span_pieces(
                    data@,
                    prefix.lo(),
                    prefix.hi(),
                ));
                assert(block_pieces(data@, spans) =~= span_pieces(data@, prefix.lo(), prefix.hi()));
                assert(spans_in_order(spans));
            }
            let words = self.tokenizer.tokenize(data, block);
            blocks.push(words);
            proof {
                assert(outline(blocks@, data@) =~= outline(before, data@).push(
                    (BlockKind::Paragraph, span_pieces(data@, prefix.lo(), prefix.hi())),
                ));
                assert forall|b: int| 0 <= b < blocks@.len() implies offsets_in_order(
                    (#[trigger] blocks@[b])@,
                ) && (forall|w: int|
                    0 <= w < blocks@[b]@.len() ==> (#[trigger] blocks@[b]@[w]).lies_in(data@)
                        && blocks@[b]@[w].spec_tag() is None) by {
                    if b < before.len() {
                        assert(blocks@[b] == before[b]);
                    }
                }
            }
        } else {
            proof {
                assert(outline(before, data@) + paragraph(data@, part.lo(), part.hi())
                    =~= outline(before, data@));
            }
        }
    }
}

impl Default for PlaintextParser {
    fn default() -> (parser: Self) {
        Self::new(Tokenizer {})
    }
}

impl Parser for PlaintextParser {
    open spec fn parses(&self, input: Seq<char>, outline: Seq<(BlockKind, Seq<(int, int)>)>) -> bool {
        outline == paragraphs(input, 0)
    }

    #[verifier::rlimit(60)]
    fn parse<'a>(&self, data: &'a str) -> (blocks: Vec<Block<Word<'a>>>) {
        let mut blocks: Vec<Block<Word<'a>>> = Vec::new();
        let whole = FullByteSpan::of_document(data);
        let mut span = whole;
        let ghost text = data@;
        let ghost n = text.len() as int;
        let ghost mut from: int = 0;
        let mut splitting = true;
        whole.check_state();
        proof {
            reveal_strlit("\n\n");
            crate::text::lemma_boundary_ends(text);
            assert(text.subrange(0, n) =~= text);
            assert(outline(blocks@, text) + paragraphs(text, 0) =~= paragraphs(text, 0));
        }
        while splitting
            invariant
                text == data@,
                n == text.len(),
                0 <= from <= n,
                whole.source() == text,
                whole.lo() == 0,
                whole.hi() == n,
                whole.text() == text,
                whole.valid(),
                span.part_of(&whole, from, n),
                "\n\n"@.len() == 2,
                blocks_lie_in(blocks@, text),
                forall|b: int, w: int|
                    0 <= b < blocks@.len() && 0 <= w < blocks@[b]@.len() ==> (
                    #[trigger] blocks@[b]@[w]).spec_tag() is None,
                splitting ==> outline(blocks@, text) + paragraphs(text, from) == paragraphs(text, 0),
                !splitting ==> outline(blocks@, text) == paragraphs(text, 0),
            decreases n - from + (if splitting { 1int } else { 0int }),
        {
            let ghost done = outline(blocks@, text);
            assert(span.text() =~= text.skip(from));
            match span.split3("\n\n") {
                Some((prefix, _, suffix)) => {
                    let ghost k = prefix.text().len() as int;
                    proof {
                        assert(has_break(text.skip(from)));
                        assert(first_break(text.skip(from)) == k);
                    }
                    let ghost middle = span;
                    self.push_paragraph(data, prefix, &mut blocks);
                    span = suffix;
                    proof {
                        prefix.lemma_part_of_part(&middle, &whole, 0, k, from, n);
                        suffix.lemma_part_of_part(&middle, &whole, k + 2, n - from, from, n);
                        assert(done + (paragraph(text, from, from + k) + paragraphs(
                            text,
                            from + k + 2,
                        )) =~= (done + paragraph(text, from, from + k)) + paragraphs(
                            text,
                            from + k + 2,
                        ));
                        from = from + k + 2;
                    }
                },
                None => {
                    proof {
                        assert(!has_break(text.skip(from)));
                    }
                    self.push_paragraph(data, span, &mut blocks);
                    splitting = false;
                },
            }
        }
        blocks
    }
}

} // verus!
