//! The tagger: gives every word of a block a part of speech.

use crate::block::{Block, Word};
use crate::model::Model;
use crate::perceptron::{lemma_tagging_is_deterministic, same_words, tag_at, Perceptron};
use crate::pos::POS;
use crate::text::first_char;
use vstd::prelude::*;
use vstd::std_specs::iter::IteratorSpec;
use vstd::string::*;

verus! {

/// The text is a single quotation mark.
pub open spec fn is_quote(text: Seq<char>) -> bool {
    text.len() == 1 && (text[0] == '"' || text[0] == '\'')
}

/// A digit: one of the characters from `0` to `9`.
pub open spec fn is_digit(c: char) -> bool {
    '0' <= c <= '9'
}

/// A character that may stand in a number: a digit or one of the signs
/// `, . - + _ /`.
pub open spec fn is_number_char(c: char) -> bool {
    is_digit(c) || c == ',' || c == '.' || c == '-' || c == '+' || c == '_' || c == '/'
}

/// The text holds a digit, and apart from digits only the signs that may
/// stand in a number.
pub open spec fn is_number(text: Seq<char>) -> bool {
    &&& exists|i: int| 0 <= i < text.len() && is_digit(#[trigger] text[i])
    &&& forall|i: int| 0 <= i < text.len() ==> is_number_char(#[trigger] text[i])
}

/// The tag that a token bears whatever stands around it, if there is one:
/// that of the model's table of such words, else that of a quotation mark
/// or of a number.
pub open spec fn static_tag_of(model: &Model, text: Seq<char>) -> Option<POS> {
    if model.static_tags().contains_key(text) {
        Some(model.static_tags()[text])
    } else if is_quote(text) {
        Some(POS::TwoQuotes)
    } else if is_number(text) {
        Some(POS::CardinalNumber)
    } else {
        None
    }
}

/// The tag of a word after the words that always bear the same tag were
/// given it.
pub open spec fn with_static_tag(model: &Model, word: Word) -> Option<POS> {
    match static_tag_of(model, word.text()) {
        Some(tag) => Some(tag),
        None => word.spec_tag(),
    }
}

/// The words bear the tags that they bear whatever stands around them, and
/// else the tags of `before`.
pub open spec fn statically_tagged(model: &Model, before: Seq<Word>, after: Seq<Word>) -> bool {
    &&& after.len() == before.len()
    &&& forall|k: int|
        0 <= k < before.len() ==> (#[trigger] after[k]).tagged(
            &before[k],
            with_static_tag(model, before[k]),
        )
}

/// `after` holds the words of `before` as the tagger leaves them: each with
/// its text and offset, and with the tag that going through the block from
/// left to right gives it once the words that always bear the same tag were
/// given theirs.
pub open spec fn tagged_by(model: &Model, before: Seq<Word>, after: Seq<Word>) -> bool {
    exists|between: Seq<Word>|
        #![trigger statically_tagged(model, before, between)]
        statically_tagged(model, before, between) && after.len() == between.len() && forall|
            k: int,
        |
            0 <= k < between.len() ==> (#[trigger] after[k]).tagged(
                &between[k],
                Some(tag_at(model, between, k)),
            )
}

/// Tagging is a function of the texts and tags of the words: however two
/// blocks with the same words came to be, one model gives them the same
/// tags.
pub proof fn lemma_tagger_is_deterministic(
    model: &Model,
    a: Seq<Word>,
    b: Seq<Word>,
    tagged_a: Seq<Word>,
    tagged_b: Seq<Word>,
)
    requires
        same_words(a, b),
        tagged_by(model, a, tagged_a),
        tagged_by(model, b, tagged_b),
    ensures
        same_words(tagged_a, tagged_b),
{
    let between_a = choose|between: Seq<Word>|
        #![trigger statically_tagged(model, a, between)]
        statically_tagged(model, a, between) && tagged_a.len() == between.len() && forall|k: int|
            0 <= k < between.len() ==> (#[trigger] tagged_a[k]).tagged(
                &between[k],
                Some(tag_at(model, between, k)),
            );
    let between_b = choose|between: Seq<Word>|
        #![trigger statically_tagged(model, b, between)]
        statically_tagged(model, b, between) && tagged_b.len() == between.len() && forall|k: int|
            0 <= k < between.len() ==> (#[trigger] tagged_b[k]).tagged(
                &between[k],
                Some(tag_at(model, between, k)),
            );
    assert forall|k: int| 0 <= k < between_a.len() implies (#[trigger] between_a[k]).text()
        == between_b[k].text() && between_a[k].spec_tag() == between_b[k].spec_tag() by {
        assert(between_a[k].tagged(&a[k], with_static_tag(model, a[k])));
        assert(between_b[k].tagged(&b[k], with_static_tag(model, b[k])));
        assert(a[k].text() == b[k].text());
    }
    assert(same_words(between_a, between_b));
    assert forall|k: int| 0 <= k < tagged_a.len() implies (#[trigger] tagged_a[k]).text()
        == tagged_b[k].text() && tagged_a[k].spec_tag() == tagged_b[k].spec_tag() by {
        lemma_tagging_is_deterministic(model, between_a, between_b, k);
        assert(tagged_a[k].tagged(&between_a[k], Some(tag_at(model, between_a, k))));
        assert(tagged_b[k].tagged(&between_b[k], Some(tag_at(model, between_b, k))));
    }
}

/// A part-of-speech tagger.
pub struct Tagger<'m> {
    model: &'m Model,
    perceptron: Perceptron<'m>,
}

impl<'m> Tagger<'m> {
    /// The model of the tagger.
    pub closed spec fn model(&self) -> &Model {
        self.model
    }

    /// The tagger and its perceptron have the same model.
    #[verifier::type_invariant]
    pub closed spec fn well_formed(&self) -> bool {
        self.perceptron.model() == self.model
    }

    /// Create a new tagger with the given model.
    pub fn new(model: &'m Model) -> (tagger: Self)
        ensures
            tagger.model() == model,
    {
        Self { model, perceptron: Perceptron::new(model) }
    }

    /// Tag the words in the given block.
    ///
    /// The words are modified in place: first those that always bear the
    /// same tag are given it, then the perceptron predicts the others from
    /// left to right. Every word has a tag afterwards.
    pub fn tag(&self, block: &mut Block<Word>)
        ensures
            final(block).spec_kind() == old(block).spec_kind(),
            tagged_by(self.model(), old(block)@, final(block)@),
    {
        proof {
            use_type_invariant(self);
        }
        self.add_static_tags(block);
        let ghost between = block@;
        self.perceptron.predict(block);
        assert(statically_tagged(self.model(), old(block)@, between));
    }

    /// Give the words that bear the same tag whatever stands around them
    /// that tag.
    fn add_static_tags(&self, block: &mut Block<Word>)
        ensures
            final(block).spec_kind() == old(block).spec_kind(),
            statically_tagged(self.model(), old(block)@, final(block)@),
    {
        let count = block.len();
        let mut i: usize = 0;
        while i < count
            invariant
                0 <= i <= count,
                count == old(block)@.len(),
                block@.len() == count,
                block.spec_kind() == old(block).spec_kind(),
                forall|k: int| i <= k < count ==> #[trigger] block@[k] == old(block)@[k],
                forall|k: int|
                    0 <= k < i ==> (#[trigger] block@[k]).tagged(
                        &old(block)@[k],
                        with_static_tag(self.model(), old(block)@[k]),
                    ),
            decreases count - i,
        {
            let mut word = block.as_slice()[i];
            if let Some(tag) = self.static_tag(word.as_str()) {
                word.set_tag(tag);
                block.set(i, word);
            }
            i += 1;
        }
    }

    /// The tag that a token bears whatever stands around it, if there is
    /// one.
    fn static_tag(&self, token: &str) -> (tag: Option<POS>)
        ensures
            tag == static_tag_of(self.model(), token@),
    {
        if let Some(tag) = self.model.get_static_tag(token) {
            return Some(tag);
        }
        if token.unicode_len() == 1 {
            match first_char(token) {
                Some(c) => if c == '"' || c == '\'' {
                    return Some(POS::TwoQuotes);
                },
                None => {},
            }
        }
        if Self::is_number_token(token) {
            return Some(POS::CardinalNumber);
        }
        None
    }

    /// Whether a token is a number.
    fn is_number_token(token: &str) -> (number: bool)
        ensures
            number == is_number(token@),
    {
        broadcast use vstd::string::group_string_axioms;

        let mut chars = token.chars();
        let ghost text = token@;
        let ghost mut k: int = 0;
        let mut any_digit = false;
        let mut scanning = true;
        proof {
            assert(text.skip(0) =~= text);
        }
        while scanning
            invariant
                text == token@,
                0 <= k <= text.len(),
                scanning ==> chars.remaining() == text.skip(k),
                !scanning ==> k == text.len(),
                any_digit == (exists|i: int| 0 <= i < k && is_digit(#[trigger] text[i])),
                forall|i: int| 0 <= i < k ==> is_number_char(#[trigger] text[i]),
            decreases text.len() - k + (if scanning { 1int } else { 0int }),
        {
            match chars.next() {
                None => {
                    scanning = false;
                },
                Some(c) => {
                    assert(c == text[k]);
                    proof {
                        assert(text.skip(k).drop_first() =~= text.skip(k + 1));
                    }
                    let digit = '0' <= c && c <= '9';
                    if !(digit || c == ',' || c == '.' || c == '-' || c == '+' || c == '_' || c
                        == '/') {
                        assert(!is_number_char(text[k]));
                        return false;
                    }
                    if digit {
                        any_digit = true;
                    }
                    proof {
                        k = k + 1;
                    }
                },
            }
        }
        any_digit
    }
}

} // verus!
