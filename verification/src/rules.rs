//! The rules that come with the library.

use crate::doc::Document;
use crate::rule::{BoxedRule, Rule};
use crate::rules::academic_we::AcademicWe;
use crate::rules::passive_construction::PassiveConstruction;
use crate::rules::repeated_words::RepeatedWords;
use crate::rules::weak_ing::WeakIng;
use crate::rules::weasel_words::WeaselWords;
use vstd::prelude::*;

pub mod academic_we;
pub mod passive_construction;
pub mod repeated_words;
pub mod weak_ing;
pub mod weasel_words;

verus! {

/// The rules that come with the library, in the order in which they are
/// applied.
pub fn default_rules() -> (rules: Vec<BoxedRule>)
    ensures
        rules@.len() == 5,
        forall|doc: &Document| #[trigger] rules@[0].findings(doc) == AcademicWe.findings(doc),
        forall|doc: &Document| #[trigger]
            rules@[1].findings(doc) == PassiveConstruction.findings(doc),
        forall|doc: &Document| #[trigger] rules@[2].findings(doc) == RepeatedWords.findings(doc),
        forall|doc: &Document| #[trigger] rules@[3].findings(doc) == WeakIng.findings(doc),
        forall|doc: &Document| #[trigger] rules@[4].findings(doc) == WeaselWords.findings(doc),
{
    let mut rules: Vec<BoxedRule> = Vec::new();
    rules.push(BoxedRule::new(AcademicWe));
    rules.push(BoxedRule::new(PassiveConstruction));
    rules.push(BoxedRule::new(RepeatedWords));
    rules.push(BoxedRule::new(WeakIng));
    rules.push(BoxedRule::new(WeaselWords));
    rules
}

} // verus!
