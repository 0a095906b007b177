//! Documents: the blocks of words of an input text, each word with its part
//! of speech.

use crate::block::{word_ranges, Block, BlockKind, Word};
use crate::tagger::{tagged_by, Tagger};
use vstd::prelude::*;
use vstd::std_specs::iter::IteratorSpec;

verus! {

/// The offsets of the words do not go down.
pub open spec fn offsets_in_order(words: Seq<Word>) -> bool {
    forall|i: int, j: int|
        0 <= i <= j < words.len() ==> (#[trigger] words[i]).spec_offset() <= (
        #[trigger] words[j]).spec_offset()
}

/// Every word is the part of `input` at its offset, and the words of each
/// block come in the order of the text.
pub open spec fn blocks_lie_in(blocks: Seq<Block<Word>>, input: Seq<char>) -> bool {
    forall|b: int|
        0 <= b < blocks.len() ==> offsets_in_order((#[trigger] blocks[b])@) && forall|w: int|
            0 <= w < blocks[b]@.len() ==> (#[trigger] blocks[b]@[w]).lies_in(input)
}

/// Words of the blocks at one place have one tag.
pub open spec fn places_fix_tags(blocks: Seq<Block<Word>>) -> bool {
    forall|b: int, w: int, c: int, v: int|
        0 <= b < blocks.len() && 0 <= w < blocks[b]@.len() && 0 <= c < blocks.len() && 0 <= v
            < blocks[c]@.len() && (#[trigger] blocks[b]@[w]).spec_offset() == (
        #[trigger] blocks[c]@[v]).spec_offset() && blocks[b]@[w].spec_end()
            == blocks[c]@[v].spec_end() ==> blocks[b]@[w].spec_tag() == blocks[c]@[v].spec_tag()
}

/// The outline of blocks of words of `input`: for each block its kind and,
/// for each of its words, the index in `input` of its first character and
/// the index after its last.
pub open spec fn outline(blocks: Seq<Block<Word>>, input: Seq<char>) -> Seq<
    (BlockKind, Seq<(int, int)>),
> {
    Seq::new(blocks.len(), |b: int| (blocks[b].spec_kind(), word_ranges(blocks[b]@, input)))
}

/// A parser that converts a string into a sequence of blocks.
pub trait Parser {
    /// Whether the parser may find blocks with the given outline in a text.
    /// For a parser that is a function of the text, one outline does.
    spec fn parses(&self, input: Seq<char>, outline: Seq<(BlockKind, Seq<(int, int)>)>) -> bool;

    /// Parse the given data into a list of tokenized blocks.
    ///
    /// The words have no tags yet.
    fn parse<'input>(&self, input: &'input str) -> (blocks: Vec<Block<Word<'input>>>)
        ensures
            blocks_lie_in(blocks@, input@),
            self.parses(input@, outline(blocks@, input@)),
            forall|b: int, w: int|
                0 <= b < blocks@.len() && 0 <= w < blocks@[b]@.len() ==> (
                #[trigger] blocks@[b]@[w]).spec_tag() is None,
    ;
}

/// A document, containing a sequence of blocks.
pub struct Document<'input> {
    input: &'input str,
    blocks: Vec<Block<Word<'input>>>,
}

impl<'input> Document<'input> {
    /// The text that the document was made from.
    pub closed spec fn text(&self) -> Seq<char> {
        self.input@
    }

    /// The blocks of the document.
    pub closed spec fn spec_blocks(&self) -> Seq<Block<Word<'input>>> {
        self.blocks@
    }

    /// Every word of the document is the part of the text at its offset, and
    /// the words of each block come in the order of the text.
    #[verifier::type_invariant]
    pub closed spec fn well_formed(&self) -> bool {
        blocks_lie_in(self.blocks@, self.input@)
    }

    /// States what holds of every document.
    pub fn check_state(&self)
        ensures
            blocks_lie_in(self.spec_blocks(), self.text()),
    {
        proof {
            use_type_invariant(self);
        }
    }

    /// Create a new document by parsing the input data with the given
    /// parser, and tagging each block with the given tagger.
    pub fn new<P: Parser>(parser: &P, tagger: &Tagger, input: &'input str) -> (doc: Self)
        ensures
            doc.text() == input@,
            blocks_lie_in(doc.spec_blocks(), input@),
            parser.parses(input@, outline(doc.spec_blocks(), input@)),
            forall|b: int, w: int|
                0 <= b < doc.spec_blocks().len() && 0 <= w < doc.spec_blocks()[b]@.len() ==> (
                #[trigger] doc.spec_blocks()[b]@[w]).spec_tag() is Some,
            exists|parsed: Seq<Block<Word>>|
                #![trigger outline(parsed, input@)]
                outline(parsed, input@) == outline(doc.spec_blocks(), input@) && forall|b: int|
                    0 <= b < parsed.len() ==> tagged_by(
                        tagger.model(),
                        (#[trigger] parsed[b])@,
                        doc.spec_blocks()[b]@,
                    ),
    {
        let mut blocks = parser.parse(input);
        let ghost parsed = blocks@;
        let count = blocks.len();
        let mut i: usize = 0;
        while i < count
            invariant
                0 <= i <= count,
                count == parsed.len(),
                blocks@.len() == count,
                blocks_lie_in(parsed, input@),
                forall|b: int| i <= b < count ==> #[trigger] blocks@[b] == parsed[b],
                forall|b: int|
                    0 <= b < i ==> (#[trigger] blocks@[b]).spec_kind() == parsed[b].spec_kind()
                        && tagged_by(tagger.model(), parsed[b]@, blocks@[b]@),
            decreases count - i,
        {
            let mut block = Block::new(BlockKind::Paragraph, Vec::new());
            std::mem::swap(&mut block, &mut blocks[i]);
            tagger.tag(&mut block);
            blocks[i] = block;
            i += 1;
        }
        proof {
            lemma_tagging_keeps_places(tagger, parsed, blocks@, input@);
            assert(outline(parsed, input@) =~= outline(blocks@, input@));
        }
        Document { input, blocks }
    }

    /// Get the input data that this document was created from.
    pub fn input(&self) -> (input: &'input str)
        ensures
            input@ == self.text(),
    {
        self.input
    }

    /// Get the blocks of this document.
    pub fn blocks(&self) -> (blocks: &[Block<Word<'input>>])
        ensures
            blocks@ == self.spec_blocks(),
            blocks_lie_in(blocks@, self.text()),
    {
        proof {
            use_type_invariant(self);
        }
        self.blocks.as_slice()
    }

    /// Get an iterator over the blocks in this document.
    pub fn iter(&self) -> (blocks: std::slice::Iter<'_, Block<Word<'input>>>)
        ensures
            blocks.remaining() == self.spec_blocks().as_ref(),
    {
        broadcast use vstd::std_specs::slice::axiom_spec_slice_iter;

        self.blocks.as_slice().iter()
    }
}

/// Tagging leaves every word in its place.
proof fn lemma_tagging_keeps_places(
    tagger: &Tagger,
    parsed: Seq<Block<Word>>,
    tagged: Seq<Block<Word>>,
    input: Seq<char>,
)
    requires
        blocks_lie_in(parsed, input),
        tagged.len() == parsed.len(),
        forall|b: int|
            0 <= b < parsed.len() ==> (#[trigger] tagged[b]).spec_kind() == parsed[b].spec_kind()
                && tagged_by(tagger.model(), parsed[b]@, tagged[b]@),
    ensures
        blocks_lie_in(tagged, input),
        forall|b: int|
            0 <= b < tagged.len() ==> word_ranges((#[trigger] tagged[b])@, input) == word_ranges(
                parsed[b]@,
                input,
            ),
        forall|b: int, w: int|
            0 <= b < tagged.len() && 0 <= w < tagged[b]@.len() ==> (
            #[trigger] tagged[b]@[w]).spec_tag() is Some,
{
    assert forall|b: int| 0 <= b < tagged.len() implies offsets_in_order((#[trigger] tagged[b])@)
        && word_ranges(tagged[b]@, input) == word_ranges(parsed[b]@, input) && (forall|w: int|
        0 <= w < tagged[b]@.len() ==> (#[trigger] tagged[b]@[w]).lies_in(input)
            && tagged[b]@[w].spec_tag() is Some) by {
        let before = parsed[b]@;
        let after = tagged[b]@;
        assert(tagged_by(tagger.model(), before, after));
        let between = choose|between: Seq<Word>|
            #![trigger crate::tagger::statically_tagged(tagger.model(), before, between)]
            crate::tagger::statically_tagged(tagger.model(), before, between) && after.len()
                == between.len() && forall|k: int|
                0 <= k < between.len() ==> (#[trigger] after[k]).tagged(
                    &between[k],
                    Some(crate::perceptron::tag_at(tagger.model(), between, k)),
                );
        assert forall|w: int| 0 <= w < after.len() implies (#[trigger] after[w]).text()
            == before[w].text() && after[w].spec_offset() == before[w].spec_offset()
            && after[w].spec_tag() is Some by {
            assert(after[w].tagged(
                &between[w],
                Some(crate::perceptron::tag_at(tagger.model(), between, w)),
            ));
            assert(between[w].tagged(
                &before[w],
                crate::tagger::with_static_tag(tagger.model(), before[w]),
            ));
        }
        assert forall|w: int| 0 <= w < after.len() implies (#[trigger] after[w]).lies_in(input) by {
            assert(before[w].lies_in(input));
        }
        assert(word_ranges(after, input) =~= word_ranges(before, input));
        assert forall|i: int, j: int| 0 <= i <= j < after.len() implies (
        #[trigger] after[i]).spec_offset() <= (#[trigger] after[j]).spec_offset() by {
            assert(before[i].spec_offset() <= before[j].spec_offset());
        }
    }
}

} // verus!
