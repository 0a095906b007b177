//! Weak forms in -ing: a modal, `be`, and a present participle.

use crate::block::Word;
use crate::pos::POS;
use crate::rule::{covering, MatcherRule, WarningBuilder, WarningView, WarningsBuilder};
use vstd::prelude::*;
use vstd::string::*;

verus! {

/// Finds a modal before `be` and a present participle.
pub struct WeakIng;

impl MatcherRule for WeakIng {
    type Search = (POS, &'static str, POS);

    open spec fn spec_matcher() -> Self::Search {
        (POS::Modal, "be", POS::VerbGerundOrPresentParticiple)
    }

    open spec fn emitted(words: Seq<Word>) -> Seq<WarningView> {
        seq![WarningView { span: covering(words), message: "Weak -ing"@ }]
    }

    fn matcher() -> (search: Self::Search) {
        (POS::Modal, "be", POS::VerbGerundOrPresentParticiple)
    }

    fn on_match(words: &[Word], warnings: &mut WarningsBuilder) {
        warnings.add_warning(WarningBuilder::new(words).message("Weak -ing".to_owned()).build());
        proof {
            assert(warnings@ =~= old(warnings)@ + Self::emitted(words@));
        }
    }
}

} // verus!
