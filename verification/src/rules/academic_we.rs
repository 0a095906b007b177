//! The academic "we": `we` before a modal and a verb.

use crate::block::Word;
use crate::matcher::{IgnoreCase, OneOfS};
use crate::pos::POS;
use crate::rule::{covering, MatcherRule, WarningBuilder, WarningView, WarningsBuilder};
use vstd::prelude::*;
use vstd::string::*;

verus! {

/// Finds `we`, in any case, before a modal and a verb.
pub struct AcademicWe;

impl MatcherRule for AcademicWe {
    type Search = (IgnoreCase, POS, OneOfS<POS, 6>);

    open spec fn spec_matcher() -> Self::Search {
        (
            IgnoreCase::spec_new("we"),
            POS::Modal,
            OneOfS(
                [
                    POS::VerbBaseForm,
                    POS::VerbPastTense,
                    POS::VerbGerundOrPresentParticiple,
                    POS::VerbPastParticiple,
                    POS::VerbNon3rdPersonSingularPresent,
                    POS::Verb3rdPersonSingularPresent,
                ],
            ),
        )
    }

    open spec fn emitted(words: Seq<Word>) -> Seq<WarningView> {
        seq![WarningView { span: covering(words), message: "Academic we"@ }]
    }

    fn matcher() -> (search: Self::Search) {
        (
            IgnoreCase::new("we"),
            POS::Modal,
            OneOfS(
                [
                    POS::VerbBaseForm,
                    POS::VerbPastTense,
                    POS::VerbGerundOrPresentParticiple,
                    POS::VerbPastParticiple,
                    POS::VerbNon3rdPersonSingularPresent,
                    POS::Verb3rdPersonSingularPresent,
                ],
            ),
        )
    }

    fn on_match(words: &[Word], warnings: &mut WarningsBuilder) {
        warnings.add_warning(
            WarningBuilder::new(words).message("Academic we".to_owned()).build(),
        );
        proof {
            assert(warnings@ =~= old(warnings)@ + Self::emitted(words@));
        }
    }
}

} // verus!
