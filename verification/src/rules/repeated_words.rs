//! Repeated words: the same word twice in a row.

use crate::block::Word;
use crate::matcher::{lemma_first_match_len, Matcher, MultipleWordPattern, OneOf, Or};
use crate::pos::POS;
use crate::rule::{covering, MatcherRule, WarningBuilder, WarningView, WarningsBuilder};
use crate::text::{eq_ignoring_ascii_case, str_eq_ignore_ascii_case};
use vstd::prelude::*;
use vstd::string::*;

verus! {

/// Finds two words in a row that bear the same tag, of a fixed list of
/// tags, or that are the same form of `be`, and that are the same word up
/// to the case of their letters.
pub struct RepeatedWords;

impl MatcherRule for RepeatedWords {
    type Search = Or<OneOf<(POS, POS), 7>, OneOf<(&'static str, &'static str), 3>>;

    open spec fn spec_matcher() -> Self::Search {
        Or(
            OneOf(
                [
                    (POS::Determiner, POS::Determiner),
                    (POS::VerbNon3rdPersonSingularPresent, POS::VerbNon3rdPersonSingularPresent),
                    (POS::Modal, POS::Modal),
                    (
                        POS::PrepositionOrSubordinatingConjunction,
                        POS::PrepositionOrSubordinatingConjunction,
                    ),
                    (POS::PersonalPronoun, POS::PersonalPronoun),
                    (POS::PossesivePronoun, POS::PossesivePronoun),
                    (POS::To, POS::To),
                ],
            ),
            OneOf([("be", "be"), ("is", "is"), ("are", "are")]),
        )
    }

    open spec fn emitted(words: Seq<Word>) -> Seq<WarningView> {
        if words.len() == 2 && eq_ignoring_ascii_case(words[0].text(), words[1].text()) {
            seq![WarningView { span: covering(words), message: "Repeated words"@ }]
        } else {
            Seq::empty()
        }
    }

    fn matcher() -> (search: Self::Search) {
        Or(
            OneOf(
                [
                    (POS::Determiner, POS::Determiner),
                    (POS::VerbNon3rdPersonSingularPresent, POS::VerbNon3rdPersonSingularPresent),
                    (POS::Modal, POS::Modal),
                    (
                        POS::PrepositionOrSubordinatingConjunction,
                        POS::PrepositionOrSubordinatingConjunction,
                    ),
                    (POS::PersonalPronoun, POS::PersonalPronoun),
                    (POS::PossesivePronoun, POS::PossesivePronoun),
                    (POS::To, POS::To),
                ],
            ),
            OneOf([("be", "be"), ("is", "is"), ("are", "are")]),
        )
    }

    fn on_match(words: &[Word], warnings: &mut WarningsBuilder) {
        proof {
            let pattern = Self::spec_matcher();
            let rest = choose|rest: Seq<Word>|
                pattern.match_len(#[trigger] (words@ + rest)) == Some(words@.len());
            lemma_first_match_len(pattern.0.0@, words@ + rest, 0);
            lemma_first_match_len(pattern.1.0@, words@ + rest, 0);
            assert(words@.len() == 2);
        }
        let word0 = words[0];
        let word1 = words[1];
        if str_eq_ignore_ascii_case(word0.as_str(), word1.as_str()) {
            warnings.add_warning(
                WarningBuilder::new(words).message("Repeated words".to_owned()).build(),
            );
            proof {
                assert(warnings@ =~= old(warnings)@ + Self::emitted(words@));
            }
        } else {
            proof {
                assert(warnings@ =~= old(warnings)@ + Self::emitted(words@));
            }
        }
    }
}

} // verus!
