//! Forms of `be`.

use crate::block::Word;
use crate::matcher::{IgnoreCase, OneOfS, SingleWordPattern};
use crate::rule::{BoxedMeasure, BoxedPattern, Measure, MeasureKey};
use crate::text::eq_ignoring_ascii_case;
use vstd::prelude::*;

verus! {

/// Counts the forms of `be`, in any case.
pub struct BeVerbs;

impl BeVerbs {
    /// This measure behind a pointer.
    pub fn boxed() -> (measure: BoxedMeasure)
        ensures
            measure.spec_key() == MeasureKey::BeVerbs,
            forall|word: Word| #[trigger] measure.counts(word) == BeVerbs.counts(word),
    {
        BoxedMeasure(Box::new(BeVerbs))
    }

    /// The forms of `be`.
    pub open spec fn forms() -> Seq<Seq<char>> {
        seq!["am"@, "are"@, "be"@, "been"@, "being"@, "is"@, "was"@, "were"@]
    }
}

impl Measure for BeVerbs {
    open spec fn spec_key(&self) -> MeasureKey {
        MeasureKey::BeVerbs
    }

    open spec fn counts(&self, word: Word) -> bool {
        exists|i: int|
            0 <= i < 8 && eq_ignoring_ascii_case(word.text(), #[trigger] BeVerbs::forms()[i])
    }

    fn key(&self) -> (id: MeasureKey) {
        MeasureKey::BeVerbs
    }

    fn pattern(&self) -> (boxed: BoxedPattern) {
        let pattern = OneOfS(
            [
                IgnoreCase::new("am"),
                IgnoreCase::new("are"),
                IgnoreCase::new("be"),
                IgnoreCase::new("been"),
                IgnoreCase::new("being"),
                IgnoreCase::new("is"),
                IgnoreCase::new("was"),
                IgnoreCase::new("were"),
            ],
        );
        proof {
            assert forall|word: Word| #[trigger] pattern.accepts(word) == self.counts(word) by {
                assert forall|i: int| 0 <= i < 8 implies (#[trigger] pattern.0@[i]).text()
                    == BeVerbs::forms()[i] by {}
                if pattern.accepts(word) {
                    let i = choose|i: int| 0 <= i < 8 && (#[trigger] pattern.0@[i]).accepts(word);
                    assert(eq_ignoring_ascii_case(word.text(), BeVerbs::forms()[i]));
                }
                if self.counts(word) {
                    let i = choose|i: int|
                        0 <= i < 8 && eq_ignoring_ascii_case(
                            word.text(),
                            #[trigger] BeVerbs::forms()[i],
                        );
                    assert(pattern.0@[i].accepts(word));
                }
            }
        }
        BoxedPattern(Box::new(pattern))
    }
}

} // verus!
