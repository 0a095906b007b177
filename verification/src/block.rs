//! Words, and the blocks of text that hold them.

use crate::pos::POS;
use crate::span::{ByteSpan, FullByteSpan};
use crate::text::{byte_len, utf8_len};
use vstd::prelude::*;
use vstd::std_specs::iter::IteratorSpec;

verus! {

/// The "kind" of a block. This allows rules to change their behavior based on
/// the kind of block.
#[derive(Copy, Clone, Debug, PartialEq, Eq, Structural)]
pub enum BlockKind {
    /// A regular text paragraph
    Paragraph,
    /// A heading or title
    Heading,
}

/// A word in a block of text.
#[derive(Copy, Clone, Debug, PartialEq, Eq)]
pub struct Word<'input> {
    str: &'input str,
    offset: usize,
    tag: Option<POS>,
}

impl<'input> Word<'input> {
    /// The characters of the word.
    pub closed spec fn text(&self) -> Seq<char> {
        self.str@
    }

    /// The byte offset of the word in the input.
    pub closed spec fn spec_offset(&self) -> usize {
        self.offset
    }

    /// The part of speech of the word, once it is known.
    pub closed spec fn spec_tag(&self) -> Option<POS> {
        self.tag
    }

    /// The byte offset of the end of the word can be held.
    #[verifier::type_invariant]
    pub closed spec fn well_formed(&self) -> bool {
        self.offset + utf8_len(self.str@) <= usize::MAX
    }

    /// The byte offset of the end of the word in the input.
    pub open spec fn spec_end(&self) -> int {
        self.spec_offset() + utf8_len(self.text())
    }

    /// The word is the part of `input` at its offset.
    pub open spec fn lies_in(&self, input: Seq<char>) -> bool {
        &&& self.spec_end() <= usize::MAX
        &&& crate::text::is_boundary(input, self.spec_offset() as int)
        &&& crate::text::is_boundary(input, self.spec_end())
        &&& crate::text::text_between(input, self.spec_offset() as int, self.spec_end())
            == self.text()
    }

    /// The character indices in `input` of the word: that of its first
    /// character, and that after its last.
    pub open spec fn range_in(&self, input: Seq<char>) -> (int, int) {
        (
            crate::text::char_index(input, self.spec_offset() as int),
            crate::text::char_index(input, self.spec_end()),
        )
    }

    /// The byte span of the word in the input.
    pub open spec fn spec_span(&self) -> ByteSpan {
        ByteSpan::spec_new(self.spec_offset(), self.spec_end() as usize)
    }

    /// The same word with another tag, or with none.
    pub open spec fn tagged(&self, other: &Word, tag: Option<POS>) -> bool {
        &&& self.text() == other.text()
        &&& self.spec_offset() == other.spec_offset()
        &&& self.spec_tag() == tag
    }

    /// Create a new word with an unknown part of speech.
    pub fn new(str: &'input str, offset: usize) -> (word: Self)
        requires
            offset + utf8_len(str@) <= usize::MAX,
        ensures
            word.text() == str@,
            word.spec_offset() == offset,
            word.spec_tag() is None,
    {
        Word { str, offset, tag: None }
    }

    /// Create a new word with a known part of speech.
    pub fn new_with_tag(str: &'input str, offset: usize, tag: POS) -> (word: Self)
        requires
            offset + utf8_len(str@) <= usize::MAX,
        ensures
            word.text() == str@,
            word.spec_offset() == offset,
            word.spec_tag() == Some(tag),
    {
        Word { str, offset, tag: Some(tag) }
    }

    /// The word that a span covers, with an unknown part of speech. Both
    /// ends of the span must be character boundaries of its text.
    pub fn of_span(span: FullByteSpan<'input>) -> (word: Self)
        requires
            span.valid(),
        ensures
            word.text() == span.text(),
            word.spec_offset() == span.spec_span().spec_start(),
            word.spec_tag() is None,
            word.lies_in(span.source()),
            word.range_in(span.source()) == (span.lo(), span.hi()),
    {
        span.check_state();
        let bounds = span.as_span();
        Word::new(span.as_str(), bounds.start())
    }

    /// Get the offset of this word in the input data.
    #[verifier::when_used_as_spec(spec_offset)]
    pub fn as_offset(&self) -> (offset: usize)
        ensures
            offset == self.spec_offset(),
    {
        self.offset
    }

    /// Get the word as a string slice from the input data.
    pub fn as_str(&self) -> (str: &'input str)
        ensures
            str@ == self.text(),
    {
        self.str
    }

    /// Get the byte span of this word in the input data.
    pub fn as_span(&self) -> (span: ByteSpan)
        ensures
            span.spec_start() == self.spec_offset(),
            span.spec_end() == self.spec_end(),
            span == self.spec_span(),
    {
        proof {
            use_type_invariant(self);
        }
        ByteSpan::new_unchecked(self.offset, self.offset + byte_len(self.str))
    }

    /// Check if the part-of-speech tag of this word is unknown.
    pub fn is_unknown_tag(&self) -> (unknown: bool)
        ensures
            unknown == (self.spec_tag() is None),
    {
        self.tag.is_none()
    }

    /// Get the part-of-speech tag of this word.
    #[verifier::when_used_as_spec(spec_tag)]
    pub fn tag(&self) -> (tag: Option<POS>)
        ensures
            tag == self.spec_tag(),
    {
        self.tag
    }

    /// Set the part-of-speech tag of this word.
    pub fn set_tag(&mut self, tag: POS)
        ensures
            final(self).tagged(old(self), Some(tag)),
    {
        proof {
            use_type_invariant(&*self);
        }
        self.tag = Some(tag);
    }

    /// Clear the part-of-speech tag of this word.
    pub fn clear_tag(&mut self)
        ensures
            final(self).tagged(old(self), None),
    {
        proof {
            use_type_invariant(&*self);
        }
        self.tag = None;
    }
}

/// A block of text, containing `T` elements.
#[derive(Clone, Debug)]
pub struct Block<T> {
    kind: BlockKind,
    contents: Vec<T>,
}

impl<T> View for Block<T> {
    type V = Seq<T>;

    closed spec fn view(&self) -> Seq<T> {
        self.contents@
    }
}

impl<T> Block<T> {
    /// The kind of the block.
    pub closed spec fn spec_kind(&self) -> BlockKind {
        self.kind
    }

    /// Create a new block from multiple elements.
    pub fn new(kind: BlockKind, contents: Vec<T>) -> (block: Self)
        ensures
            block.spec_kind() == kind,
            block@ == contents@,
    {
        Block { kind, contents }
    }

    /// Create a new block from a single element.
    pub fn singleton(kind: BlockKind, contents: T) -> (block: Self)
        ensures
            block.spec_kind() == kind,
            block@ == seq![contents],
    {
        let mut items: Vec<T> = Vec::new();
        items.push(contents);
        assert(items@ =~= seq![contents]);
        Block::new(kind, items)
    }

    /// Get the kind of this block.
    #[verifier::when_used_as_spec(spec_kind)]
    pub fn kind(&self) -> (kind: BlockKind)
        ensures
            kind == self.spec_kind(),
    {
        self.kind
    }

    /// Get the contents of this block as a slice.
    pub fn as_slice(&self) -> (contents: &[T])
        ensures
            contents@ == self@,
    {
        self.contents.as_slice()
    }

    /// The number of elements of this block.
    pub fn len(&self) -> (n: usize)
        ensures
            n == self@.len(),
    {
        self.contents.len()
    }

    /// Get the contents of this block as an iterator.
    pub fn iter(&self) -> (items: std::slice::Iter<'_, T>)
        ensures
            items.remaining() == self@.as_ref(),
    {
        broadcast use vstd::std_specs::slice::axiom_spec_slice_iter;

        self.contents.as_slice().iter()
    }

    /// Take the contents out of this block.
    pub fn into_vec(self) -> (contents: Vec<T>)
        ensures
            contents@ == self@,
    {
        self.contents
    }

    /// Replace the element with the given index.
    pub fn set(&mut self, index: usize, item: T)
        requires
            index < old(self)@.len(),
        ensures
            final(self)@ == old(self)@.update(index as int, item),
            final(self).spec_kind() == old(self).spec_kind(),
    {
        self.contents[index] = item;
    }
}

/// The character indices in `input` of each of the words.
pub open spec fn word_ranges(words: Seq<Word>, input: Seq<char>) -> Seq<(int, int)> {
    Seq::new(words.len(), |i: int| words[i].range_in(input))
}

/// The texts of the words, one after the other.
pub open spec fn words_text(words: Seq<Word>) -> Seq<char>
    decreases words.len(),
{
    if words.len() == 0 {
        Seq::empty()
    } else {
        words_text(words.drop_last()) + words.last().text()
    }
}

/// Words that lie in a text spell the parts of the text at their ranges.
pub proof fn lemma_words_text(words: Seq<Word>, input: Seq<char>)
    requires
        forall|i: int| 0 <= i < words.len() ==> (#[trigger] words[i]).lies_in(input),
    ensures
        words_text(words) == crate::text::join(input, word_ranges(words, input)),
    decreases words.len(),
{
    if words.len() > 0 {
        let ranges = word_ranges(words, input);
        lemma_words_text(words.drop_last(), input);
        assert(ranges.drop_last() =~= word_ranges(words.drop_last(), input));
        assert(words.last().lies_in(input));
    }
}

impl crate::lines::HasSpan for Word<'_> {
    open spec fn spec_span(&self) -> ByteSpan {
        Word::spec_span(self)
    }

    fn span(&self) -> (span: ByteSpan) {
        self.as_span()
    }
}

} // verus!
