//! Prepositions.

use crate::block::Word;
use crate::matcher::{OrS, SingleWordPattern};
use crate::pos::POS;
use crate::rule::{BoxedMeasure, BoxedPattern, Measure, MeasureKey};
use vstd::prelude::*;

verus! {

/// Counts the prepositions, `to` among them.
pub struct Prepositions;

impl Prepositions {
    /// This measure behind a pointer.
    pub fn boxed() -> (measure: BoxedMeasure)
        ensures
            measure.spec_key() == MeasureKey::Prepositions,
            forall|word: Word| #[trigger] measure.counts(word) == Prepositions.counts(word),
    {
        BoxedMeasure(Box::new(Prepositions))
    }
}

impl Measure for Prepositions {
    open spec fn spec_key(&self) -> MeasureKey {
        MeasureKey::Prepositions
    }

    open spec fn counts(&self, word: Word) -> bool {
        word.spec_tag() == Some(POS::PrepositionOrSubordinatingConjunction) || word.spec_tag()
            == Some(POS::To)
    }

    fn key(&self) -> (id: MeasureKey) {
        MeasureKey::Prepositions
    }

    fn pattern(&self) -> (boxed: BoxedPattern) {
        BoxedPattern(Box::new(OrS(POS::PrepositionOrSubordinatingConjunction, POS::To)))
    }
}

} // verus!
