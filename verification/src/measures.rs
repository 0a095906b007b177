//! The measures that come with the library.

use crate::block::Word;
use crate::measures::abstract_nouns::AbstractNouns;
use crate::measures::academic_ad_words::AcademicAdWords;
use crate::measures::adjectives::Adjectives;
use crate::measures::be_verbs::BeVerbs;
use crate::measures::prepositions::Prepositions;
use crate::rule::{BoxedMeasure, Measure, MeasureKey};
use vstd::prelude::*;

pub mod abstract_nouns;
pub mod academic_ad_words;
pub mod adjectives;
pub mod be_verbs;
pub mod prepositions;

verus! {

/// The measures that come with the library, in the order of their keys.
pub fn default_measures() -> (measures: Vec<BoxedMeasure>)
    ensures
        measures@.len() == 5,
        measures@[0].spec_key() == MeasureKey::AbstractNouns,
        measures@[1].spec_key() == MeasureKey::AcademicAdWords,
        measures@[2].spec_key() == MeasureKey::Adjectives,
        measures@[3].spec_key() == MeasureKey::BeVerbs,
        measures@[4].spec_key() == MeasureKey::Prepositions,
        forall|word: Word| #[trigger] measures@[0].counts(word) == AbstractNouns.counts(word),
        forall|word: Word| #[trigger] measures@[1].counts(word) == AcademicAdWords.counts(word),
        forall|word: Word| #[trigger] measures@[2].counts(word) == Adjectives.counts(word),
        forall|word: Word| #[trigger] measures@[3].counts(word) == BeVerbs.counts(word),
        forall|word: Word| #[trigger] measures@[4].counts(word) == Prepositions.counts(word),
{
    let mut measures: Vec<BoxedMeasure> = Vec::new();
    measures.push(AbstractNouns::boxed());
    measures.push(AcademicAdWords::boxed());
    measures.push(Adjectives::boxed());
    measures.push(BeVerbs::boxed());
    measures.push(Prepositions::boxed());
    measures
}

} // verus!
