//! Adjectives and adverbs.

use crate::block::Word;
use crate::matcher::{OrS, SingleWordPattern};
use crate::pos::POS;
use crate::rule::{BoxedMeasure, BoxedPattern, Measure, MeasureKey};
use vstd::prelude::*;

verus! {

/// Counts the adjectives and the adverbs.
pub struct Adjectives;

impl Adjectives {
    /// This measure behind a pointer.
    pub fn boxed() -> (measure: BoxedMeasure)
        ensures
            measure.spec_key() == MeasureKey::Adjectives,
            forall|word: Word| #[trigger] measure.counts(word) == Adjectives.counts(word),
    {
        BoxedMeasure(Box::new(Adjectives))
    }
}

impl Measure for Adjectives {
    open spec fn spec_key(&self) -> MeasureKey {
        MeasureKey::Adjectives
    }

    open spec fn counts(&self, word: Word) -> bool {
        word.spec_tag() == Some(POS::Adjective) || word.spec_tag() == Some(POS::Adverb)
    }

    fn key(&self) -> (id: MeasureKey) {
        MeasureKey::Adjectives
    }

    fn pattern(&self) -> (boxed: BoxedPattern) {
        BoxedPattern(Box::new(OrS(POS::Adjective, POS::Adverb)))
    }
}

} // verus!
