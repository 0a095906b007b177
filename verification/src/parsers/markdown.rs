//! Markdown: paragraphs and headings, as the crate `pulldown-cmark` finds
//! them.
//!
//! The outside parser hands over a run of events. What is made of them is
//! decided here, by a machine that goes through the events with a stack of
//! open blocks: text is collected into the innermost open block, and a block
//! that closes with text in it becomes a block of words.

use crate::block::{Block, BlockKind, Word};
use crate::doc::{blocks_lie_in, offsets_in_order, outline, Parser};
use crate::parsers::plaintext::{
    leading_whitespace, lemma_leading_whitespace, lemma_trailing_whitespace, trailing_whitespace,
};
use crate::span::{ByteSpan, FullByteSpan};
use crate::text::{byte_offset, char_index, is_boundary};
use crate::tokenize::{block_pieces, spans_in_order, Tokenizer};
use pulldown_cmark::{Event, Options, TagEnd};
use vstd::prelude::*;

verus! {

/// An event of `pulldown-cmark`. Nothing is known of it here but what
/// [`event_shape`] tells.
#[verifier::external_type_specification]
#[verifier::external_body]
pub struct ExEvent<'a>(Event<'a>);

/// The end of a tag of `pulldown-cmark`. Nothing is known of it here but
/// what [`tag_kind`] tells.
#[verifier::external_type_specification]
#[verifier::external_body]
pub struct ExTagEnd(TagEnd);

/// An event of the outside parser, with the byte offsets of the part of the
/// text that it comes from.
pub struct OffsetEvent<'a> {
    pub event: Event<'a>,
    pub start: usize,
    pub end: usize,
}

/// How the outside parser holds the text of an event.
#[derive(Copy, Clone, Debug, PartialEq, Eq, Structural)]
pub enum TextStorage {
    /// The text is a part of the input.
    Borrowed,
    /// The text is short and held in place.
    Inlined,
    /// The text is held elsewhere.
    Boxed,
}

/// What an event of the outside parser is: the start or the end of a tag,
/// text, or something else.
pub enum EventShape {
    Start(TagEnd),
    End(TagEnd),
    Text(TextStorage),
    Other,
}

/// The tags that count for blocks of words.
#[derive(Copy, Clone, Debug, PartialEq, Eq, Structural)]
pub enum MarkdownTag {
    Paragraph,
    Heading,
    BlockQuote,
    CodeBlock,
    HtmlBlock,
    Item,
    DefinitionListTitle,
    DefinitionListDefinition,
    TableCell,
    MetadataBlock,
    /// Any other tag.
    Other,
}

/// An event, as far as it counts for blocks of words.
#[derive(Copy, Clone, Debug, PartialEq, Eq, Structural)]
pub enum MarkdownEvent {
    /// A tag starts.
    Start(MarkdownTag),
    /// A tag ends.
    End(MarkdownTag),
    /// Text, at the given byte offsets of the input.
    Text { start: usize, end: usize, storage: TextStorage },
    /// Anything else.
    Other,
}

/// The bit of the outside parser's options for tables.
pub const TABLES: u32 = 0x0002;

/// The bit for footnotes.
pub const FOOTNOTES: u32 = 0x0004;

/// The bit for text that is struck through.
pub const STRIKETHROUGH: u32 = 0x0008;

/// The bit for lists of tasks.
pub const TASK_LISTS: u32 = 0x0010;

/// The bit for attributes of headings.
pub const HEADING_ATTRIBUTES: u32 = 0x0040;

/// The bit for blocks of metadata between lines of hyphens.
pub const YAML_METADATA: u32 = 0x0080;

/// The bit for blocks of metadata between lines of pluses.
pub const PLUSES_METADATA: u32 = 0x0100;

/// The bit for formulas.
pub const MATH: u32 = 0x0400;

/// The bit for the rest of GitHub's flavour.
pub const GFM: u32 = 0x0800;

/// The bit for lists of definitions.
pub const DEFINITION_LISTS: u32 = 0x1000;

/// The extensions of Markdown that are read.
pub const EXTENSIONS: u32 = TABLES + FOOTNOTES + STRIKETHROUGH + TASK_LISTS + HEADING_ATTRIBUTES
    + YAML_METADATA + PLUSES_METADATA + MATH + GFM + DEFINITION_LISTS;

/// The events that `pulldown-cmark` finds in a text when the extensions
/// with the given bits are on, each as far as it counts for blocks of
/// words, in the order of the text.
pub uninterp spec fn cmark_event_run(text: Seq<char>, extensions: u32) -> Seq<MarkdownEvent>;

/// `Parser::new_ext` and `Parser::into_offset_iter` of `pulldown-cmark`,
/// with the options that `Options::from_bits_truncate` makes of the bits:
/// the events of a text, each read with the byte offsets that the outside
/// parser gives for it. The outside parser goes by the text and the options
/// alone, so the same text and bits give the same events; the contract
/// names them and claims nothing else, nor that the outside parser comes
/// back for every text.
#[verifier::external_body]
fn cmark_events(data: &str, extensions: u32) -> (events: Vec<MarkdownEvent>)
    ensures
        events@ == cmark_event_run(data@, extensions),
{
    pulldown_cmark::Parser::new_ext(data, Options::from_bits_truncate(extensions))
        .into_offset_iter()
        .map(|(event, range)| OffsetEvent { event, start: range.start, end: range.end })
        .map(|raw| MarkdownParser::read_event(&raw))
        .collect()
}

/// Tells the variants of an `Event` of `pulldown-cmark` apart; for the start
/// of a tag, `Tag::to_end` gives the end that belongs to it. Nothing is
/// claimed of the outcome.
#[verifier::external_body]
fn event_shape(event: &Event) -> (shape: EventShape) {
    match event {
        Event::Start(tag) => EventShape::Start(tag.to_end()),
        Event::End(end) => EventShape::End(*end),
        Event::Text(pulldown_cmark::CowStr::Borrowed(_)) => EventShape::Text(TextStorage::Borrowed),
        Event::Text(pulldown_cmark::CowStr::Inlined(_)) => EventShape::Text(TextStorage::Inlined),
        Event::Text(pulldown_cmark::CowStr::Boxed(_)) => EventShape::Text(TextStorage::Boxed),
        _ => EventShape::Other,
    }
}

/// Tells the variants of a `TagEnd` of `pulldown-cmark` apart, as far as
/// they have a namesake here. Nothing is claimed of the outcome.
#[verifier::external_body]
fn tag_kind(end: TagEnd) -> (tag: MarkdownTag) {
    match end {
        TagEnd::Paragraph => MarkdownTag::Paragraph,
        TagEnd::Heading(_) => MarkdownTag::Heading,
        TagEnd::BlockQuote(_) => MarkdownTag::BlockQuote,
        TagEnd::CodeBlock => MarkdownTag::CodeBlock,
        TagEnd::HtmlBlock => MarkdownTag::HtmlBlock,
        TagEnd::Item => MarkdownTag::Item,
        TagEnd::DefinitionListTitle => MarkdownTag::DefinitionListTitle,
        TagEnd::DefinitionListDefinition => MarkdownTag::DefinitionListDefinition,
        TagEnd::TableCell => MarkdownTag::TableCell,
        TagEnd::MetadataBlock(_) => MarkdownTag::MetadataBlock,
        _ => MarkdownTag::Other,
    }
}

/// A tag whose text makes a paragraph.
pub open spec fn is_paragraph_tag(tag: MarkdownTag) -> bool {
    tag == MarkdownTag::Paragraph || tag == MarkdownTag::Item || tag == MarkdownTag::HtmlBlock
        || tag == MarkdownTag::TableCell || tag == MarkdownTag::DefinitionListTitle || tag
        == MarkdownTag::DefinitionListDefinition || tag == MarkdownTag::BlockQuote
}

/// A tag whose text is no prose.
pub open spec fn is_ignored_tag(tag: MarkdownTag) -> bool {
    tag == MarkdownTag::CodeBlock || tag == MarkdownTag::MetadataBlock
}

/// A block that is open: its kind, and the spans of text collected so far.
pub struct OpenBlock {
    pub kind: BlockKind,
    pub spans: Seq<ByteSpan>,
}

/// The state of the machine: the outline of the blocks that are done, the
/// blocks that are open, innermost last, and whether text is passed over.
pub struct MachineState {
    pub done: Seq<(BlockKind, Seq<(int, int)>)>,
    pub open: Seq<OpenBlock>,
    pub ignore_text: bool,
}

/// The span of the characters `lo..hi` of a text without the white space at
/// its front and at its back; where it is all white space, the empty span at
/// its end.
pub open spec fn trimmed(text: Seq<char>, lo: int, hi: int) -> ByteSpan {
    let part = text.subrange(lo, hi);
    let from = lo + leading_whitespace(part);
    let to = if from == hi {
        hi
    } else {
        hi - trailing_whitespace(part)
    };
    ByteSpan::spec_new(byte_offset(text, from) as usize, byte_offset(text, to) as usize)
}

/// The state after a block was opened.
pub open spec fn opened(state: MachineState, kind: BlockKind) -> MachineState {
    MachineState { open: state.open.push(OpenBlock { kind, spans: Seq::empty() }), ..state }
}

/// The state after the innermost open block was closed: the block is done
/// where it holds text, and forgotten where it holds none. `None` where no
/// block is open.
pub open spec fn closed(text: Seq<char>, state: MachineState) -> Option<MachineState> {
    if state.open.len() == 0 {
        None
    } else {
        let block = state.open.last();
        Some(
            MachineState {
                done: if block.spans.len() > 0 {
                    state.done.push((block.kind, block_pieces(text, block.spans)))
                } else {
                    state.done
                },
                open: state.open.drop_last(),
                ..state
            },
        )
    }
}

/// The state after text at the given byte offsets was met: its span,
/// trimmed, is added to the innermost open block. `None` where the text is
/// held elsewhere, where the offsets are no part of the input, where no
/// block is open, or where the text starts before the end of the text
/// before it in that block.
pub open spec fn texted(
    text: Seq<char>,
    state: MachineState,
    start: usize,
    end: usize,
    storage: TextStorage,
) -> Option<MachineState> {
    if state.ignore_text {
        Some(state)
    } else if storage == TextStorage::Boxed || !(start <= end && is_boundary(text, start as int)
        && is_boundary(text, end as int)) || state.open.len() == 0 {
        None
    } else {
        let span = trimmed(text, char_index(text, start as int), char_index(text, end as int));
        let block = state.open.last();
        if block.spans.len() > 0 && span.spec_start() < block.spans.last().spec_end() {
            None
        } else {
            Some(
                MachineState {
                    open: state.open.drop_last().push(
                        OpenBlock { kind: block.kind, spans: block.spans.push(span) },
                    ),
                    ..state
                },
            )
        }
    }
}

/// The state after an event, or `None` where the event does not fit the
/// state.
pub open spec fn step(text: Seq<char>, state: MachineState, event: MarkdownEvent) -> Option<
    MachineState,
> {
    match event {
        MarkdownEvent::Start(tag) => if is_paragraph_tag(tag) {
            Some(opened(state, BlockKind::Paragraph))
        } else if tag == MarkdownTag::Heading {
            Some(opened(state, BlockKind::Heading))
        } else if is_ignored_tag(tag) {
            Some(MachineState { ignore_text: true, ..state })
        } else {
            Some(state)
        },
        MarkdownEvent::End(tag) => if is_paragraph_tag(tag) || tag == MarkdownTag::Heading {
            closed(text, state)
        } else if is_ignored_tag(tag) {
            Some(MachineState { ignore_text: false, ..state })
        } else {
            Some(state)
        },
        MarkdownEvent::Text { start, end, storage } => texted(text, state, start, end, storage),
        MarkdownEvent::Other => Some(state),
    }
}

/// The state after the first `upto` of the events, or `None` where one of
/// them does not fit.
pub open spec fn run(text: Seq<char>, events: Seq<MarkdownEvent>, upto: int) -> Option<
    MachineState,
>
    decreases upto,
{
    if upto <= 0 {
        Some(MachineState { done: Seq::empty(), open: Seq::empty(), ignore_text: false })
    } else {
        match run(text, events, upto - 1) {
            Some(state) => step(text, state, events[upto - 1]),
            None => None,
        }
    }
}

/// The outline of the blocks that a run of events gives for a text, or
/// `None` where the events do not fit together or leave a block open.
pub open spec fn events_outline(text: Seq<char>, events: Seq<MarkdownEvent>) -> Option<
    Seq<(BlockKind, Seq<(int, int)>)>,
> {
    match run(text, events, events.len() as int) {
        Some(state) => if state.open.len() == 0 {
            Some(state.done)
        } else {
            None
        },
        None => None,
    }
}

/// A block that is open.
struct BlockBuilder {
    kind: BlockKind,
    spans: Vec<ByteSpan>,
}

impl BlockBuilder {
    spec fn view(&self) -> OpenBlock {
        OpenBlock { kind: self.kind, spans: self.spans@ }
    }

    fn new_paragraph() -> (builder: Self)
        ensures
            builder.view() == (OpenBlock { kind: BlockKind::Paragraph, spans: Seq::empty() }),
    {
        BlockBuilder { kind: BlockKind::Paragraph, spans: Vec::new() }
    }

    fn new_heading() -> (builder: Self)
        ensures
            builder.view() == (OpenBlock { kind: BlockKind::Heading, spans: Seq::empty() }),
    {
        BlockBuilder { kind: BlockKind::Heading, spans: Vec::new() }
    }

    fn is_empty(&self) -> (empty: bool)
        ensures
            empty == (self.view().spans.len() == 0),
    {
        self.spans.len() == 0
    }

    fn build(self) -> (block: Block<ByteSpan>)
        ensures
            block.spec_kind() == self.view().kind,
            block@ == self.view().spans,
    {
        Block::new(self.kind, self.spans)
    }
}

/// The machine at work on a text.
struct ParseState<'a, 't> {
    data: &'a str,
    blocks: Vec<Block<Word<'a>>>,
    stack: Vec<BlockBuilder>,
    tokenizer: &'t Tokenizer,
}

impl<'a, 't> ParseState<'a, 't> {
    /// The blocks that are open, innermost last.
    spec fn open(&self) -> Seq<OpenBlock> {
        Seq::new(self.stack@.len(), |i: int| self.stack@[i].view())
    }

    /// The state of the machine, but for whether text is passed over.
    spec fn at(&self, state: MachineState) -> bool {
        &&& state.done == outline(self.blocks@, self.data@)
        &&& state.open == self.open()
    }

    /// The blocks that are done lie in the text, and the spans of the open
    /// blocks are spans of the text, in its order.
    spec fn sound(&self) -> bool {
        &&& blocks_lie_in(self.blocks@, self.data@)
        &&& forall|b: int, w: int|
            0 <= b < self.blocks@.len() && 0 <= w < self.blocks@[b]@.len() ==> (
            #[trigger] self.blocks@[b]@[w]).spec_tag() is None
        &&& forall|i: int|
            0 <= i < self.stack@.len() ==> spans_in_order((#[trigger] self.stack@[i]).spans@)
                && forall|k: int|
                0 <= k < self.stack@[i].spans@.len() ==> (#[trigger] self.stack@[i].spans@[k]).fits(
                    self.data@,
                )
    }

    fn new(data: &'a str, tokenizer: &'t Tokenizer) -> (state: Self)
        ensures
            state.data@ == data@,
            state.sound(),
            state.at(MachineState { done: Seq::empty(), open: Seq::empty(), ignore_text: false }),
    {
        let state = ParseState { data, blocks: Vec::new(), stack: Vec::new(), tokenizer };
        assert(outline(state.blocks@, data@) =~= Seq::empty());
        assert(state.open() =~= Seq::empty());
        state
    }

    fn start_paragraph(&mut self, Ghost(before): Ghost<MachineState>)
        requires
            old(self).sound(),
            old(self).at(before),
        ensures
            final(self).data@ == old(self).data@,
            final(self).sound(),
            final(self).at(opened(before, BlockKind::Paragraph)),
    {
        let ghost open = self.open();
        self.stack.push(BlockBuilder::new_paragraph());
        assert(self.open() =~= open.push(
            OpenBlock { kind: BlockKind::Paragraph, spans: Seq::empty() },
        ));
        assert forall|i: int| 0 <= i < self.stack@.len() implies spans_in_order(
            (#[trigger] self.stack@[i]).spans@,
        ) && forall|k: int|
            0 <= k < self.stack@[i].spans@.len() ==> (#[trigger] self.stack@[i].spans@[k]).fits(
                self.data@,
            ) by {
            if i < old(self).stack@.len() {
                assert(self.stack@[i] == old(self).stack@[i]);
            }
        }
    }

    fn end_paragraph(&mut self, Ghost(before): Ghost<MachineState>)
        requires
            old(self).sound(),
            old(self).at(before),
            before.open.len() > 0,
        ensures
            final(self).data@ == old(self).data@,
            final(self).sound(),
            closed(old(self).data@, before) is Some,
            final(self).at(closed(old(self).data@, before)->0),
    {
        self.pop_current_block(Ghost(before));
    }

    fn start_heading(&mut self, Ghost(before): Ghost<MachineState>)
        requires
            old(self).sound(),
            old(self).at(before),
        ensures
            final(self).data@ == old(self).data@,
            final(self).sound(),
            final(self).at(opened(before, BlockKind::Heading)),
    {
        let ghost open = self.open();
        self.stack.push(BlockBuilder::new_heading());
        assert(self.open() =~= open.push(
            OpenBlock { kind: BlockKind::Heading, spans: Seq::empty() },
        ));
        assert forall|i: int| 0 <= i < self.stack@.len() implies spans_in_order(
            (#[trigger] self.stack@[i]).spans@,
        ) && forall|k: int|
            0 <= k < self.stack@[i].spans@.len() ==> (#[trigger] self.stack@[i].spans@[k]).fits(
                self.data@,
            ) by {
            if i < old(self).stack@.len() {
                assert(self.stack@[i] == old(self).stack@[i]);
            }
        }
    }

    fn end_heading(&mut self, Ghost(before): Ghost<MachineState>)
        requires
            old(self).sound(),
            old(self).at(before),
            before.open.len() > 0,
        ensures
            final(self).data@ == old(self).data@,
            final(self).sound(),
            closed(old(self).data@, before) is Some,
            final(self).at(closed(old(self).data@, before)->0),
    {
        self.pop_current_block(Ghost(before));
    }

    /// The number of blocks that are open.
    fn depth(&self) -> (depth: usize)
        ensures
            depth == self.open().len(),
    {
        self.stack.len()
    }

    fn pop_current_block(&mut self, Ghost(before): Ghost<MachineState>)
        requires
            old(self).sound(),
            old(self).at(before),
            before.open.len() > 0,
        ensures
            final(self).data@ == old(self).data@,
            final(self).sound(),
            closed(old(self).data@, before) is Some,
            final(self).at(closed(old(self).data@, before)->0),
    {
        let ghost open = self.open();
        let ghost done = self.blocks@;
        let block = self.stack.pop().unwrap();
        proof {
            assert(block.view() == open.last());
            assert(self.open() =~= open.drop_last());
            assert forall|i: int| 0 <= i < self.stack@.len() implies (#[trigger] self.stack@[i])
                == old(self).stack@[i] by {}
            assert(old(self).stack@[old(self).stack@.len() - 1] == block);
        }
        if !block.is_empty() {
            let ghost spans = block.spans@;
            let words = self.tokenizer.tokenize(self.data, block.build());
            self.blocks.push(words);
            proof {
                assert(outline(self.blocks@, self.data@) =~= outline(done, self.data@).push(
                    (words.spec_kind(), block_pieces(self.data@, spans)),
                ));
                assert forall|b: int| 0 <= b < self.blocks@.len() implies offsets_in_order(
                    (#[trigger] self.blocks@[b])@,
                ) && (forall|w: int|
                    0 <= w < self.blocks@[b]@.len() ==> (#[trigger] self.blocks@[b]@[w]).lies_in(
                        self.data@,
                    ) && self.blocks@[b]@[w].spec_tag() is None) by {
                    if b < done.len() {
                        assert(self.blocks@[b] == done[b]);
                    }
                }
            }
        }
    }

    fn push_span(&mut self, span: ByteSpan, Ghost(before): Ghost<MachineState>)
        requires
            old(self).sound(),
            old(self).at(before),
            before.open.len() > 0,
            span.fits(old(self).data@),
            before.open.last().spans.len() > 0 ==> before.open.last().spans.last().spec_end()
                <= span.spec_start(),
        ensures
            final(self).data@ == old(self).data@,
            final(self).sound(),
            final(self).at(
                MachineState {
                    open: before.open.drop_last().push(
                        OpenBlock {
                            kind: before.open.last().kind,
                            spans: before.open.last().spans.push(span),
                        },
                    ),
                    ..before
                },
            ),
    {
        let ghost open = self.open();
        let mut block = self.stack.pop().unwrap();
        let ghost spans = block.spans@;
        proof {
            assert(block.view() == open.last());
            assert(old(self).stack@[old(self).stack@.len() - 1] == block);
            assert forall|i: int| 0 <= i < self.stack@.len() implies (#[trigger] self.stack@[i])
                == old(self).stack@[i] by {}
        }
        block.spans.push(span);
        proof {
            assert forall|i: int, j: int| 0 <= i < j < block.spans@.len() implies (
            #[trigger] block.spans@[i]).spec_end() <= (#[trigger] block.spans@[j]).spec_start() by {
                if j < spans.len() {
                    assert(block.spans@[i] == spans[i] && block.spans@[j] == spans[j]);
                } else {
                    assert(block.spans@[i] == spans[i]);
                    assert(spans[i].fits(self.data@));
                    if i < spans.len() - 1 {
                        assert(spans[i].spec_end() <= spans[spans.len() - 1].spec_start());
                        assert(spans[spans.len() - 1].fits(self.data@));
                    }
                }
            }
            assert forall|k: int| 0 <= k < block.spans@.len() implies (
            #[trigger] block.spans@[k]).fits(self.data@) by {
                if k < spans.len() {
                    assert(block.spans@[k] == spans[k]);
                }
            }
        }
        self.stack.push(block);
        proof {
            assert(self.open() =~= open.drop_last().push(
                OpenBlock { kind: open.last().kind, spans: open.last().spans.push(span) },
            ));
            assert forall|i: int| 0 <= i < self.stack@.len() implies spans_in_order(
                (#[trigger] self.stack@[i]).spans@,
            ) && forall|k: int|
                0 <= k < self.stack@[i].spans@.len() ==> (#[trigger] self.stack@[i].spans@[k]).fits(
                    self.data@,
                ) by {
                if i < self.stack@.len() - 1 {
                    assert(self.stack@[i] == old(self).stack@[i]);
                }
            }
        }
    }

    /// The end of the last span of the innermost open block, if it holds a
    /// span.
    fn last_end(&self) -> (end: Option<usize>)
        requires
            self.open().len() > 0,
        ensures
            match end {
                Some(end) => self.open().last().spans.len() > 0 && end
                    == self.open().last().spans.last().spec_end(),
                None => self.open().last().spans.len() == 0,
            },
    {
        let block = &self.stack[self.stack.len() - 1];
        assert(block.view() == self.open().last());
        if block.spans.len() == 0 {
            None
        } else {
            Some(block.spans[block.spans.len() - 1].end())
        }
    }

    fn finish(self) -> (blocks: Vec<Block<Word<'a>>>)
        requires
            self.sound(),
            self.open().len() == 0,
        ensures
            blocks@ == self.blocks@,
    {
        self.blocks
    }
}

/// A parser for Markdown documents.
pub struct MarkdownParser {
    tokenizer: Tokenizer,
}

impl MarkdownParser {
    /// Create a new Markdown parser with the given tokenizer.
    pub fn new(tokenizer: Tokenizer) -> (parser: Self) {
        MarkdownParser { tokenizer }
    }

    /// An event of the outside parser, as far as it counts for blocks of
    /// words. Which kind of event it is, and of which tag, is what the
    /// outside parser's values tell; text keeps the byte offsets that the
    /// outside parser gave for it.
    fn read_event(raw: &OffsetEvent) -> (event: MarkdownEvent)
        ensures
            event matches MarkdownEvent::Text { start, end, .. } ==> start == raw.start && end
                == raw.end,
    {
        match event_shape(&raw.event) {
            EventShape::Start(end) => MarkdownEvent::Start(tag_kind(end)),
            EventShape::End(end) => MarkdownEvent::End(tag_kind(end)),
            EventShape::Text(storage) => MarkdownEvent::Text {
                start: raw.start,
                end: raw.end,
                storage,
            },
            EventShape::Other => MarkdownEvent::Other,
        }
    }

    /// The events of a text, as the outside parser finds them with the
    /// extensions that are read.
    pub fn events(data: &str) -> (events: Vec<MarkdownEvent>)
        ensures
            events@ == cmark_event_run(data@, EXTENSIONS),
    {
        cmark_events(data, EXTENSIONS)
    }

    /// Whether text is passed over after an event.
    fn ignores(tag: MarkdownTag) -> (ignored: bool)
        ensures
            ignored == is_ignored_tag(tag),
    {
        match tag {
            MarkdownTag::CodeBlock | MarkdownTag::MetadataBlock => true,
            _ => false,
        }
    }

    /// Whether the text of a tag makes a paragraph.
    fn makes_paragraph(tag: MarkdownTag) -> (paragraph: bool)
        ensures
            paragraph == is_paragraph_tag(tag),
    {
        match tag {
            MarkdownTag::Paragraph
            | MarkdownTag::Item
            | MarkdownTag::HtmlBlock
            | MarkdownTag::TableCell
            | MarkdownTag::DefinitionListTitle
            | MarkdownTag::DefinitionListDefinition
            | MarkdownTag::BlockQuote => true,
            _ => false,
        }
    }

    /// The span of text at the given byte offsets, trimmed, where the
    /// offsets are a part of the text.
    fn text_span(data: &str, start: usize, end: usize) -> (span: Option<ByteSpan>)
        ensures
            span is Some <==> (start <= end && is_boundary(data@, start as int) && is_boundary(
                data@,
                end as int,
            )),
            span is Some ==> span->0 == trimmed(
                data@,
                char_index(data@, start as int),
                char_index(data@, end as int),
            ) && span->0.fits(data@),
    {
        match FullByteSpan::try_of_range(data, start, end) {
            Some(full) => {
                full.check_state();
                let cut = full.trim();
                let span = cut.as_span();
                proof {
                    broadcast use ByteSpan::lemma_spec_new;

                    let part = full.text();
                    let from = cut.lo() - full.lo();
                    let to = cut.hi() - full.lo();
                    lemma_leading_whitespace(part, from);
                    if from < to {
                        lemma_trailing_whitespace(part, part.len() - to);
                    }
                    crate::text::lemma_boundary(data@, span.spec_start() as int);
                    crate::text::lemma_boundary(data@, span.spec_end() as int);
                    ByteSpan::lemma_ext(
                        span,
                        trimmed(data@, full.lo(), full.hi()),
                    );
                }
                Some(span)
            },
            None => None,
        }
    }

    /// The blocks of words that a run of events gives for a text, or `None`
    /// where the events do not fit together.
    pub fn blocks_of<'a>(&self, data: &'a str, events: &[MarkdownEvent]) -> (blocks: Option<
        Vec<Block<Word<'a>>>,
    >)
        ensures
            match blocks {
                Some(blocks) => {
                    &&& events_outline(data@, events@) == Some(outline(blocks@, data@))
                    &&& blocks_lie_in(blocks@, data@)
                    &&& forall|b: int, w: int|
                        0 <= b < blocks@.len() && 0 <= w < blocks@[b]@.len() ==> (
                        #[trigger] blocks@[b]@[w]).spec_tag() is None
                },
                None => events_outline(data@, events@) is None,
            },
    {
        let mut state = ParseState::new(data, &self.tokenizer);

        // Should we ignore any text events? This is used to skip some sections
        // of the document that aren't prose. For example, code blocks.
        let mut ignore_text = false;
        let ghost mut machine = MachineState {
            done: Seq::empty(),
            open: Seq::empty(),
            ignore_text: false,
        };
        let mut i: usize = 0;
        while i < events.len()
            invariant
                0 <= i <= events@.len(),
                state.data@ == data@,
                state.sound(),
                state.at(machine),
                machine.ignore_text == ignore_text,
                run(data@, events@, i as int) == Some(machine),
            decreases events@.len() - i,
        {
            let ghost next = step(data@, machine, events@[i as int]);
            proof {
                assert(run(data@, events@, i + 1) == next);
                if next is None {
                    lemma_run_fails(data@, events@, i + 1, events@.len() as int);
                }
            }
            match events[i] {
                MarkdownEvent::Start(tag) => {
                    if Self::makes_paragraph(tag) {
                        state.start_paragraph(Ghost(machine));
                    } else if tag == MarkdownTag::Heading {
                        state.start_heading(Ghost(machine));
                    } else if Self::ignores(tag) {
                        ignore_text = true;
                    }
                },
                MarkdownEvent::End(tag) => {
                    if Self::makes_paragraph(tag) {
                        if state.depth() == 0 {
                            return None;
                        }
                        state.end_paragraph(Ghost(machine));
                    } else if tag == MarkdownTag::Heading {
                        if state.depth() == 0 {
                            return None;
                        }
                        state.end_heading(Ghost(machine));
                    } else if Self::ignores(tag) {
                        ignore_text = false;
                    }
                },
                MarkdownEvent::Text { start, end, storage } => {
                    if !ignore_text {
                        match storage {
                            TextStorage::Boxed => {
                                return None;
                            },
                            _ => {},
                        }
                        let span = match Self::text_span(data, start, end) {
                            Some(span) => span,
                            None => {
                                return None;
                            },
                        };
                        if state.depth() == 0 {
                            return None;
                        }
                        match state.last_end() {
                            Some(last) => if span.start() < last {
                                return None;
                            },
                            None => {},
                        }
                        state.push_span(span, Ghost(machine));
                    }
                },
                MarkdownEvent::Other => {},
            }
            proof {
                machine = next->0;
            }
            i += 1;
        }
        if state.depth() == 0 {
            Some(state.finish())
        } else {
            None
        }
    }
}

/// Once an event did not fit, none of what follows mends it.
proof fn lemma_run_fails(text: Seq<char>, events: Seq<MarkdownEvent>, at: int, upto: int)
    requires
        0 <= at <= upto,
        run(text, events, at) is None,
    ensures
        run(text, events, upto) is None,
    decreases upto - at,
{
    if at < upto {
        lemma_run_fails(text, events, at, upto - 1);
    }
}

impl Default for MarkdownParser {
    fn default() -> (parser: Self) {
        MarkdownParser::new(Tokenizer {})
    }
}

impl Parser for MarkdownParser {
    /// The blocks are those that the events of the text give; where the
    /// events do not fit together, there are none.
    open spec fn parses(&self, input: Seq<char>, outline: Seq<(BlockKind, Seq<(int, int)>)>) -> bool {
        outline == match events_outline(input, cmark_event_run(input, EXTENSIONS)) {
            Some(found) => found,
            None => Seq::empty(),
        }
    }

    fn parse<'a>(&self, data: &'a str) -> (blocks: Vec<Block<Word<'a>>>) {
        let events = Self::events(data);
        match self.blocks_of(data, events.as_slice()) {
            Some(blocks) => blocks,
            None => {
                let blocks: Vec<Block<Word<'a>>> = Vec::new();
                assert(outline(blocks@, data@) =~= Seq::empty());
                assert(events_outline(data@, events@) is None);
                blocks
            },
        }
    }
}

} // verus!
