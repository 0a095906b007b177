//! Abstract nouns.

use crate::block::Word;
use crate::matcher::{AndS, EndsWithIgnoreCase, OneOfS, SingleWordPattern};
use crate::pos::POS;
use crate::rule::{BoxedMeasure, BoxedPattern, Measure, MeasureKey};
use crate::text::eq_ignoring_ascii_case;
use vstd::prelude::*;
use vstd::string::*;

verus! {

/// Counts the nouns with an ending that marks an abstract noun.
pub struct AbstractNouns;

impl AbstractNouns {
    /// This measure behind a pointer.
    pub fn boxed() -> (measure: BoxedMeasure)
        ensures
            measure.spec_key() == MeasureKey::AbstractNouns,
            forall|word: Word| #[trigger] measure.counts(word) == AbstractNouns.counts(word),
    {
        BoxedMeasure(Box::new(AbstractNouns))
    }

    /// The endings that the measure looks for.
    pub open spec fn endings() -> Seq<Seq<char>> {
        seq!["ance"@, "ence"@, "ences"@, "ion"@, "ions"@, "ism"@, "isms"@, "ment"@, "ty"@, "ties"@]
    }

    /// The text is longer than the ending and ends with it, up to the case
    /// of the letters.
    pub open spec fn ends_with(text: Seq<char>, ending: Seq<char>) -> bool {
        text.len() > ending.len() && eq_ignoring_ascii_case(
            text.skip(text.len() - ending.len()),
            ending,
        )
    }
}

impl Measure for AbstractNouns {
    open spec fn spec_key(&self) -> MeasureKey {
        MeasureKey::AbstractNouns
    }

    open spec fn counts(&self, word: Word) -> bool {
        &&& (word.spec_tag() == Some(POS::NounPlural) || word.spec_tag() == Some(POS::NounSingularOrMass)
            || word.spec_tag() == Some(POS::ProperNounSingular) || word.spec_tag() == Some(
            POS::ProperNounPlural,
        ))
        &&& exists|i: int|
            0 <= i < 10 && AbstractNouns::ends_with(word.text(), #[trigger] AbstractNouns::endings()[i])
    }

    fn key(&self) -> (id: MeasureKey) {
        MeasureKey::AbstractNouns
    }

    fn pattern(&self) -> (boxed: BoxedPattern) {
        proof {
            reveal_strlit("ance");
            reveal_strlit("ence");
            reveal_strlit("ences");
            reveal_strlit("ion");
            reveal_strlit("ions");
            reveal_strlit("ism");
            reveal_strlit("isms");
            reveal_strlit("ment");
            reveal_strlit("ty");
            reveal_strlit("ties");
        }
        let endings = OneOfS(
            [
                EndsWithIgnoreCase::new("ance"),
                EndsWithIgnoreCase::new("ence"),
                EndsWithIgnoreCase::new("ences"),
                EndsWithIgnoreCase::new("ion"),
                EndsWithIgnoreCase::new("ions"),
                EndsWithIgnoreCase::new("ism"),
                EndsWithIgnoreCase::new("isms"),
                EndsWithIgnoreCase::new("ment"),
                EndsWithIgnoreCase::new("ty"),
                EndsWithIgnoreCase::new("ties"),
            ],
        );
        let nouns = OneOfS(
            [
                POS::NounPlural,
                POS::NounSingularOrMass,
                POS::ProperNounSingular,
                POS::ProperNounPlural,
            ],
        );
        let pattern = AndS(nouns, endings);
        proof {
            assert forall|word: Word| #[trigger] pattern.accepts(word) == self.counts(word) by {
                if nouns.accepts(word) {
                    let t = choose|t: int| 0 <= t < 4 && (#[trigger] nouns.0@[t]).accepts(word);
                    assert(word.spec_tag() == Some(nouns.0@[t]));
                }
                if word.spec_tag() == Some(POS::NounPlural) {
                    assert(nouns.0@[0].accepts(word));
                }
                if word.spec_tag() == Some(POS::NounSingularOrMass) {
                    assert(nouns.0@[1].accepts(word));
                }
                if word.spec_tag() == Some(POS::ProperNounSingular) {
                    assert(nouns.0@[2].accepts(word));
                }
                if word.spec_tag() == Some(POS::ProperNounPlural) {
                    assert(nouns.0@[3].accepts(word));
                }
                assert forall|i: int| 0 <= i < 10 implies (#[trigger] endings.0@[i]).suffix()
                    == AbstractNouns::endings()[i] by {}
                if endings.accepts(word) {
                    let i = choose|i: int| 0 <= i < 10 && (#[trigger] endings.0@[i]).accepts(word);
                    assert(AbstractNouns::ends_with(word.text(), AbstractNouns::endings()[i]));
                }
                if self.counts(word) {
                    let i = choose|i: int|
                        0 <= i < 10 && AbstractNouns::ends_with(
                            word.text(),
                            #[trigger] AbstractNouns::endings()[i],
                        );
                    assert(endings.0@[i].accepts(word));
                }
            }
        }
        BoxedPattern(Box::new(pattern))
    }
}

} // verus!
