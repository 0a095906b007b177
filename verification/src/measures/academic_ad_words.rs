//! Academic adjectives and adverbs.

use crate::block::Word;
use crate::matcher::{AndS, EndsWithIgnoreCase, OneOfS, OrS, SingleWordPattern};
use crate::pos::POS;
use crate::rule::{BoxedMeasure, BoxedPattern, Measure, MeasureKey};
use crate::text::eq_ignoring_ascii_case;
use vstd::prelude::*;
use vstd::string::*;

verus! {

/// Counts the adjectives and adverbs with an ending that is common in academic prose.
pub struct AcademicAdWords;

impl AcademicAdWords {
    /// This measure behind a pointer.
    pub fn boxed() -> (measure: BoxedMeasure)
        ensures
            measure.spec_key() == MeasureKey::AcademicAdWords,
            forall|word: Word| #[trigger] measure.counts(word) == AcademicAdWords.counts(word),
    {
        BoxedMeasure(Box::new(AcademicAdWords))
    }

    /// The endings that the measure looks for.
    pub open spec fn endings() -> Seq<Seq<char>> {
        seq!["able"@, "ac"@, "al"@, "ant"@, "ary"@, "ent"@, "ful"@, "ible"@, "ic"@, "ive"@, "less"@, "ous"@]
    }

    /// The text is longer than the ending and ends with it, up to the case
    /// of the letters.
    pub open spec fn ends_with(text: Seq<char>, ending: Seq<char>) -> bool {
        text.len() > ending.len() && eq_ignoring_ascii_case(
            text.skip(text.len() - ending.len()),
            ending,
        )
    }
}

impl Measure for AcademicAdWords {
    open spec fn spec_key(&self) -> MeasureKey {
        MeasureKey::AcademicAdWords
    }

    open spec fn counts(&self, word: Word) -> bool {
        &&& (word.spec_tag() == Some(POS::Adjective) || word.spec_tag() == Some(POS::Adverb))
        &&& exists|i: int|
            0 <= i < 12 && AcademicAdWords::ends_with(word.text(), #[trigger] AcademicAdWords::endings()[i])
    }

    fn key(&self) -> (id: MeasureKey) {
        MeasureKey::AcademicAdWords
    }

    fn pattern(&self) -> (boxed: BoxedPattern) {
        proof {
            reveal_strlit("able");
            reveal_strlit("ac");
            reveal_strlit("al");
            reveal_strlit("ant");
            reveal_strlit("ary");
            reveal_strlit("ent");
            reveal_strlit("ful");
            reveal_strlit("ible");
            reveal_strlit("ic");
            reveal_strlit("ive");
            reveal_strlit("less");
            reveal_strlit("ous");
        }
        let endings = OneOfS(
            [
                EndsWithIgnoreCase::new("able"),
                EndsWithIgnoreCase::new("ac"),
                EndsWithIgnoreCase::new("al"),
                EndsWithIgnoreCase::new("ant"),
                EndsWithIgnoreCase::new("ary"),
                EndsWithIgnoreCase::new("ent"),
                EndsWithIgnoreCase::new("ful"),
                EndsWithIgnoreCase::new("ible"),
                EndsWithIgnoreCase::new("ic"),
                EndsWithIgnoreCase::new("ive"),
                EndsWithIgnoreCase::new("less"),
                EndsWithIgnoreCase::new("ous"),
            ],
        );
        let pattern = AndS(OrS(POS::Adjective, POS::Adverb), endings);
        proof {
            assert forall|word: Word| #[trigger] pattern.accepts(word) == self.counts(word) by {
                assert forall|i: int| 0 <= i < 12 implies (#[trigger] endings.0@[i]).suffix()
                    == AcademicAdWords::endings()[i] by {}
                if endings.accepts(word) {
                    let i = choose|i: int| 0 <= i < 12 && (#[trigger] endings.0@[i]).accepts(word);
                    assert(AcademicAdWords::ends_with(word.text(), AcademicAdWords::endings()[i]));
                }
                if self.counts(word) {
                    let i = choose|i: int|
                        0 <= i < 12 && AcademicAdWords::ends_with(
                            word.text(),
                            #[trigger] AcademicAdWords::endings()[i],
                        );
                    assert(endings.0@[i].accepts(word));
                }
            }
        }
        BoxedPattern(Box::new(pattern))
    }
}

} // verus!
