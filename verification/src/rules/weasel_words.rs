//! Weasel words: adverbs that say little.

use crate::block::Word;
use crate::matcher::{AndS, IgnoreCase, OneOfS};
use crate::pos::POS;
use crate::rule::{covering, MatcherRule, WarningBuilder, WarningView, WarningsBuilder};
use vstd::prelude::*;
use vstd::string::*;

verus! {

/// Finds the adverbs of a fixed list, in any case.
pub struct WeaselWords;

impl MatcherRule for WeaselWords {
    type Search = AndS<POS, OneOfS<IgnoreCase, 17>>;

    open spec fn spec_matcher() -> Self::Search {
        AndS(
            POS::Adverb,
            OneOfS(
                [
                    IgnoreCase::spec_new("absolutely"),
                    IgnoreCase::spec_new("actually"),
                    IgnoreCase::spec_new("basically"),
                    IgnoreCase::spec_new("certainly"),
                    IgnoreCase::spec_new("completely"),
                    IgnoreCase::spec_new("definitely"),
                    IgnoreCase::spec_new("easily"),
                    IgnoreCase::spec_new("just"),
                    IgnoreCase::spec_new("literally"),
                    IgnoreCase::spec_new("probably"),
                    IgnoreCase::spec_new("quite"),
                    IgnoreCase::spec_new("rather"),
                    IgnoreCase::spec_new("really"),
                    IgnoreCase::spec_new("somehow"),
                    IgnoreCase::spec_new("suddenly"),
                    IgnoreCase::spec_new("totally"),
                    IgnoreCase::spec_new("virtually"),
                ],
            ),
        )
    }

    open spec fn emitted(words: Seq<Word>) -> Seq<WarningView> {
        seq![WarningView { span: covering(words), message: "Weasel words"@ }]
    }

    fn matcher() -> (search: Self::Search) {
        AndS(
            POS::Adverb,
            OneOfS(
                [
                    IgnoreCase::new("absolutely"),
                    IgnoreCase::new("actually"),
                    IgnoreCase::new("basically"),
                    IgnoreCase::new("certainly"),
                    IgnoreCase::new("completely"),
                    IgnoreCase::new("definitely"),
                    IgnoreCase::new("easily"),
                    IgnoreCase::new("just"),
                    IgnoreCase::new("literally"),
                    IgnoreCase::new("probably"),
                    IgnoreCase::new("quite"),
                    IgnoreCase::new("rather"),
                    IgnoreCase::new("really"),
                    IgnoreCase::new("somehow"),
                    IgnoreCase::new("suddenly"),
                    IgnoreCase::new("totally"),
                    IgnoreCase::new("virtually"),
                ],
            ),
        )
    }

    fn on_match(words: &[Word], warnings: &mut WarningsBuilder) {
        warnings.add_warning(WarningBuilder::new(words).message("Weasel words".to_owned()).build());
        proof {
            assert(warnings@ =~= old(warnings)@ + Self::emitted(words@));
        }
    }
}

} // verus!
