//! Passive constructions: `was` or `were` before a past participle.

use crate::block::Word;
use crate::matcher::{Opt, Or};
use crate::pos::POS;
use crate::rule::{covering, MatcherRule, WarningBuilder, WarningView, WarningsBuilder};
use vstd::prelude::*;
use vstd::string::*;

verus! {

/// Finds `was` or `were` before a past participle, with or without an
/// adverb between them.
pub struct PassiveConstruction;

impl MatcherRule for PassiveConstruction {
    type Search = (Or<&'static str, &'static str>, Opt<POS>, POS);

    open spec fn spec_matcher() -> Self::Search {
        (Or("was", "were"), Opt(POS::Adverb), POS::VerbPastParticiple)
    }

    open spec fn emitted(words: Seq<Word>) -> Seq<WarningView> {
        seq![WarningView { span: covering(words), message: "Passive construction"@ }]
    }

    fn matcher() -> (search: Self::Search) {
        (Or("was", "were"), Opt(POS::Adverb), POS::VerbPastParticiple)
    }

    fn on_match(words: &[Word], warnings: &mut WarningsBuilder) {
        warnings.add_warning(
            WarningBuilder::new(words).message("Passive construction".to_owned()).build(),
        );
        proof {
            assert(warnings@ =~= old(warnings)@ + Self::emitted(words@));
        }
    }
}

} // verus!
