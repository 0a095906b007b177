//! Parts of speech.

use crate::text::str_eq;
use vstd::prelude::*;

verus! {

/// A part of speech, after the Penn Treebank tag set.
///
/// The first four are not parts of speech: they stand for the places just
/// outside a block, and no word is ever given one of them.
#[derive(Copy, Clone, Debug, PartialEq, Eq, Hash, PartialOrd, Ord, Structural)]
pub enum POS {
    /// The word before the first one; only ever context for the tagger.
    Start,
    /// The word two before the first one; only ever context for the tagger.
    Start2,
    /// The word after the last one; only ever context for the tagger.
    End,
    /// The word two after the last one; only ever context for the tagger.
    End2,
    /// Treebank tag `#`.
    Hash,
    /// Treebank tag `$`.
    Dollar,
    /// Treebank tag `''`.
    TwoQuotes,
    /// Treebank tag `(`.
    Open,
    /// Treebank tag `)`.
    Close,
    /// Treebank tag `,`.
    Comma,
    /// Treebank tag `.`.
    EndOfSentence,
    /// Treebank tag `:`.
    Colon,
    /// Treebank tag `CC`.
    CoordinatingConjunction,
    /// Treebank tag `CD`.
    CardinalNumber,
    /// Treebank tag `DT`.
    Determiner,
    /// Treebank tag `EX`.
    ExistentialThere,
    /// Treebank tag `FW`.
    ForeignWord,
    /// Treebank tag `IN`.
    PrepositionOrSubordinatingConjunction,
    /// Treebank tag `JJ`.
    Adjective,
    /// Treebank tag `JJR`.
    AdjectiveComparative,
    /// Treebank tag `JJS`.
    AdjectiveSuperlative,
    /// Treebank tag `LS`.
    ListItemMarker,
    /// Treebank tag `MD`.
    Modal,
    /// Treebank tag `NN`.
    NounSingularOrMass,
    /// Treebank tag `NNP`.
    ProperNounSingular,
    /// Treebank tag `NNPS`.
    ProperNounPlural,
    /// Treebank tag `NNS`.
    NounPlural,
    /// Treebank tag `PDT`.
    Predeterminer,
    /// Treebank tag `POS`.
    PossessiveEnding,
    /// Treebank tag `PRP`.
    PersonalPronoun,
    /// Treebank tag `PRP$`.
    PossesivePronoun,
    /// Treebank tag `RB`.
    Adverb,
    /// Treebank tag `RBR`.
    AdverbComparative,
    /// Treebank tag `RBS`.
    AdverbSuperlative,
    /// Treebank tag `RP`.
    Particle,
    /// Treebank tag `SYM`.
    Symbol,
    /// Treebank tag `TO`.
    To,
    /// Treebank tag `UH`.
    Interjection,
    /// Treebank tag `VB`.
    VerbBaseForm,
    /// Treebank tag `VBD`.
    VerbPastTense,
    /// Treebank tag `VBG`.
    VerbGerundOrPresentParticiple,
    /// Treebank tag `VBN`.
    VerbPastParticiple,
    /// Treebank tag `VBP`.
    VerbNon3rdPersonSingularPresent,
    /// Treebank tag `VBZ`.
    Verb3rdPersonSingularPresent,
    /// Treebank tag `WDT`.
    WhDeterminer,
    /// Treebank tag `WP`.
    WhPronoun,
    /// Treebank tag `WP$`.
    PossesiveWhPronoun,
    /// Treebank tag `WRB`.
    WhAdverb,
    /// Treebank tag ````.
    Backtick,
}

/// A part of speech, under the name that the tagger and the rules use.
pub type Tag = POS;

/// The length of a text and its first four characters, with a blank for
/// each that it lacks.
pub open spec fn marks(text: Seq<char>) -> (nat, char, char, char, char) {
    (
        text.len(),
        if text.len() > 0 {
            text[0]
        } else {
            ' '
        },
        if text.len() > 1 {
            text[1]
        } else {
            ' '
        },
        if text.len() > 2 {
            text[2]
        } else {
            ' '
        },
        if text.len() > 3 {
            text[3]
        } else {
            ' '
        },
    )
}

impl POS {
    /// The number of parts of speech.
    pub const COUNT: usize = 49;

    /// The place of this part of speech in the order of the declaration.
    pub open spec fn spec_index(self) -> usize {
        match self {
            POS::Start => 0,
            POS::Start2 => 1,
            POS::End => 2,
            POS::End2 => 3,
            POS::Hash => 4,
            POS::Dollar => 5,
            POS::TwoQuotes => 6,
            POS::Open => 7,
            POS::Close => 8,
            POS::Comma => 9,
            POS::EndOfSentence => 10,
            POS::Colon => 11,
            POS::CoordinatingConjunction => 12,
            POS::CardinalNumber => 13,
            POS::Determiner => 14,
            POS::ExistentialThere => 15,
            POS::ForeignWord => 16,
            POS::PrepositionOrSubordinatingConjunction => 17,
            POS::Adjective => 18,
            POS::AdjectiveComparative => 19,
            POS::AdjectiveSuperlative => 20,
            POS::ListItemMarker => 21,
            POS::Modal => 22,
            POS::NounSingularOrMass => 23,
            POS::ProperNounSingular => 24,
            POS::ProperNounPlural => 25,
            POS::NounPlural => 26,
            POS::Predeterminer => 27,
            POS::PossessiveEnding => 28,
            POS::PersonalPronoun => 29,
            POS::PossesivePronoun => 30,
            POS::Adverb => 31,
            POS::AdverbComparative => 32,
            POS::AdverbSuperlative => 33,
            POS::Particle => 34,
            POS::Symbol => 35,
            POS::To => 36,
            POS::Interjection => 37,
            POS::VerbBaseForm => 38,
            POS::VerbPastTense => 39,
            POS::VerbGerundOrPresentParticiple => 40,
            POS::VerbPastParticiple => 41,
            POS::VerbNon3rdPersonSingularPresent => 42,
            POS::Verb3rdPersonSingularPresent => 43,
            POS::WhDeterminer => 44,
            POS::WhPronoun => 45,
            POS::PossesiveWhPronoun => 46,
            POS::WhAdverb => 47,
            POS::Backtick => 48,
        }
    }

    /// The label of this part of speech in a model.
    pub open spec fn spec_label(self) -> Seq<char> {
        match self {
            POS::Start => "-START-"@,
            POS::Start2 => "-START2-"@,
            POS::End => "-END-"@,
            POS::End2 => "-END2-"@,
            POS::Hash => "#"@,
            POS::Dollar => "$"@,
            POS::TwoQuotes => "''"@,
            POS::Open => "("@,
            POS::Close => ")"@,
            POS::Comma => ","@,
            POS::EndOfSentence => "."@,
            POS::Colon => ":"@,
            POS::CoordinatingConjunction => "CC"@,
            POS::CardinalNumber => "CD"@,
            POS::Determiner => "DT"@,
            POS::ExistentialThere => "EX"@,
            POS::ForeignWord => "FW"@,
            POS::PrepositionOrSubordinatingConjunction => "IN"@,
            POS::Adjective => "JJ"@,
            POS::AdjectiveComparative => "JJR"@,
            POS::AdjectiveSuperlative => "JJS"@,
            POS::ListItemMarker => "LS"@,
            POS::Modal => "MD"@,
            POS::NounSingularOrMass => "NN"@,
            POS::ProperNounSingular => "NNP"@,
            POS::ProperNounPlural => "NNPS"@,
            POS::NounPlural => "NNS"@,
            POS::Predeterminer => "PDT"@,
            POS::PossessiveEnding => "POS"@,
            POS::PersonalPronoun => "PRP"@,
            POS::PossesivePronoun => "PRP$"@,
            POS::Adverb => "RB"@,
            POS::AdverbComparative => "RBR"@,
            POS::AdverbSuperlative => "RBS"@,
            POS::Particle => "RP"@,
            POS::Symbol => "SYM"@,
            POS::To => "TO"@,
            POS::Interjection => "UH"@,
            POS::VerbBaseForm => "VB"@,
            POS::VerbPastTense => "VBD"@,
            POS::VerbGerundOrPresentParticiple => "VBG"@,
            POS::VerbPastParticiple => "VBN"@,
            POS::VerbNon3rdPersonSingularPresent => "VBP"@,
            POS::Verb3rdPersonSingularPresent => "VBZ"@,
            POS::WhDeterminer => "WDT"@,
            POS::WhPronoun => "WP"@,
            POS::PossesiveWhPronoun => "WP$"@,
            POS::WhAdverb => "WRB"@,
            POS::Backtick => "``"@,
        }
    }

    /// The place of this part of speech in the order of the declaration.
    #[verifier::when_used_as_spec(spec_index)]
    pub fn index(self) -> (i: usize)
        ensures
            i == self.spec_index(),
            i < POS::COUNT,
    {
        match self {
            POS::Start => 0,
            POS::Start2 => 1,
            POS::End => 2,
            POS::End2 => 3,
            POS::Hash => 4,
            POS::Dollar => 5,
            POS::TwoQuotes => 6,
            POS::Open => 7,
            POS::Close => 8,
            POS::Comma => 9,
            POS::EndOfSentence => 10,
            POS::Colon => 11,
            POS::CoordinatingConjunction => 12,
            POS::CardinalNumber => 13,
            POS::Determiner => 14,
            POS::ExistentialThere => 15,
            POS::ForeignWord => 16,
            POS::PrepositionOrSubordinatingConjunction => 17,
            POS::Adjective => 18,
            POS::AdjectiveComparative => 19,
            POS::AdjectiveSuperlative => 20,
            POS::ListItemMarker => 21,
            POS::Modal => 22,
            POS::NounSingularOrMass => 23,
            POS::ProperNounSingular => 24,
            POS::ProperNounPlural => 25,
            POS::NounPlural => 26,
            POS::Predeterminer => 27,
            POS::PossessiveEnding => 28,
            POS::PersonalPronoun => 29,
            POS::PossesivePronoun => 30,
            POS::Adverb => 31,
            POS::AdverbComparative => 32,
            POS::AdverbSuperlative => 33,
            POS::Particle => 34,
            POS::Symbol => 35,
            POS::To => 36,
            POS::Interjection => 37,
            POS::VerbBaseForm => 38,
            POS::VerbPastTense => 39,
            POS::VerbGerundOrPresentParticiple => 40,
            POS::VerbPastParticiple => 41,
            POS::VerbNon3rdPersonSingularPresent => 42,
            POS::Verb3rdPersonSingularPresent => 43,
            POS::WhDeterminer => 44,
            POS::WhPronoun => 45,
            POS::PossesiveWhPronoun => 46,
            POS::WhAdverb => 47,
            POS::Backtick => 48,
        }
    }

    /// The part of speech at a place in the order of the declaration.
    pub fn from_index(i: usize) -> (pos: Option<POS>)
        ensures
            pos is Some <==> i < POS::COUNT,
            pos is Some ==> pos->0.spec_index() == i,
    {
        match i {
            0 => Some(POS::Start),
            1 => Some(POS::Start2),
            2 => Some(POS::End),
            3 => Some(POS::End2),
            4 => Some(POS::Hash),
            5 => Some(POS::Dollar),
            6 => Some(POS::TwoQuotes),
            7 => Some(POS::Open),
            8 => Some(POS::Close),
            9 => Some(POS::Comma),
            10 => Some(POS::EndOfSentence),
            11 => Some(POS::Colon),
            12 => Some(POS::CoordinatingConjunction),
            13 => Some(POS::CardinalNumber),
            14 => Some(POS::Determiner),
            15 => Some(POS::ExistentialThere),
            16 => Some(POS::ForeignWord),
            17 => Some(POS::PrepositionOrSubordinatingConjunction),
            18 => Some(POS::Adjective),
            19 => Some(POS::AdjectiveComparative),
            20 => Some(POS::AdjectiveSuperlative),
            21 => Some(POS::ListItemMarker),
            22 => Some(POS::Modal),
            23 => Some(POS::NounSingularOrMass),
            24 => Some(POS::ProperNounSingular),
            25 => Some(POS::ProperNounPlural),
            26 => Some(POS::NounPlural),
            27 => Some(POS::Predeterminer),
            28 => Some(POS::PossessiveEnding),
            29 => Some(POS::PersonalPronoun),
            30 => Some(POS::PossesivePronoun),
            31 => Some(POS::Adverb),
            32 => Some(POS::AdverbComparative),
            33 => Some(POS::AdverbSuperlative),
            34 => Some(POS::Particle),
            35 => Some(POS::Symbol),
            36 => Some(POS::To),
            37 => Some(POS::Interjection),
            38 => Some(POS::VerbBaseForm),
            39 => Some(POS::VerbPastTense),
            40 => Some(POS::VerbGerundOrPresentParticiple),
            41 => Some(POS::VerbPastParticiple),
            42 => Some(POS::VerbNon3rdPersonSingularPresent),
            43 => Some(POS::Verb3rdPersonSingularPresent),
            44 => Some(POS::WhDeterminer),
            45 => Some(POS::WhPronoun),
            46 => Some(POS::PossesiveWhPronoun),
            47 => Some(POS::WhAdverb),
            48 => Some(POS::Backtick),
            _ => None,
        }
    }

    /// The label of this part of speech in a model.
    pub fn label(self) -> (label: &'static str)
        ensures
            label@ == self.spec_label(),
    {
        match self {
            POS::Start => "-START-",
            POS::Start2 => "-START2-",
            POS::End => "-END-",
            POS::End2 => "-END2-",
            POS::Hash => "#",
            POS::Dollar => "$",
            POS::TwoQuotes => "''",
            POS::Open => "(",
            POS::Close => ")",
            POS::Comma => ",",
            POS::EndOfSentence => ".",
            POS::Colon => ":",
            POS::CoordinatingConjunction => "CC",
            POS::CardinalNumber => "CD",
            POS::Determiner => "DT",
            POS::ExistentialThere => "EX",
            POS::ForeignWord => "FW",
            POS::PrepositionOrSubordinatingConjunction => "IN",
            POS::Adjective => "JJ",
            POS::AdjectiveComparative => "JJR",
            POS::AdjectiveSuperlative => "JJS",
            POS::ListItemMarker => "LS",
            POS::Modal => "MD",
            POS::NounSingularOrMass => "NN",
            POS::ProperNounSingular => "NNP",
            POS::ProperNounPlural => "NNPS",
            POS::NounPlural => "NNS",
            POS::Predeterminer => "PDT",
            POS::PossessiveEnding => "POS",
            POS::PersonalPronoun => "PRP",
            POS::PossesivePronoun => "PRP$",
            POS::Adverb => "RB",
            POS::AdverbComparative => "RBR",
            POS::AdverbSuperlative => "RBS",
            POS::Particle => "RP",
            POS::Symbol => "SYM",
            POS::To => "TO",
            POS::Interjection => "UH",
            POS::VerbBaseForm => "VB",
            POS::VerbPastTense => "VBD",
            POS::VerbGerundOrPresentParticiple => "VBG",
            POS::VerbPastParticiple => "VBN",
            POS::VerbNon3rdPersonSingularPresent => "VBP",
            POS::Verb3rdPersonSingularPresent => "VBZ",
            POS::WhDeterminer => "WDT",
            POS::WhPronoun => "WP",
            POS::PossesiveWhPronoun => "WP$",
            POS::WhAdverb => "WRB",
            POS::Backtick => "``",
        }
    }

    /// The part of speech with the given label, if there is one. There is
    /// never more than one, see [`POS::lemma_label_injective`].
    pub fn from_label(label: &str) -> (pos: Option<POS>)
        ensures
            match pos {
                Some(p) => p.spec_label() == label@,
                None => forall|p: POS| p.spec_label() != label@,
            },
    {
        if str_eq(label, "-START-") {
            Some(POS::Start)
        } else if str_eq(label, "-START2-") {
            Some(POS::Start2)
        } else if str_eq(label, "-END-") {
            Some(POS::End)
        } else if str_eq(label, "-END2-") {
            Some(POS::End2)
        } else if str_eq(label, "#") {
            Some(POS::Hash)
        } else if str_eq(label, "$") {
            Some(POS::Dollar)
        } else if str_eq(label, "''") {
            Some(POS::TwoQuotes)
        } else if str_eq(label, "(") {
            Some(POS::Open)
        } else if str_eq(label, ")") {
            Some(POS::Close)
        } else if str_eq(label, ",") {
            Some(POS::Comma)
        } else if str_eq(label, ".") {
            Some(POS::EndOfSentence)
        } else if str_eq(label, ":") {
            Some(POS::Colon)
        } else if str_eq(label, "CC") {
            Some(POS::CoordinatingConjunction)
        } else if str_eq(label, "CD") {
            Some(POS::CardinalNumber)
        } else if str_eq(label, "DT") {
            Some(POS::Determiner)
        } else if str_eq(label, "EX") {
            Some(POS::ExistentialThere)
        } else if str_eq(label, "FW") {
            Some(POS::ForeignWord)
        } else if str_eq(label, "IN") {
            Some(POS::PrepositionOrSubordinatingConjunction)
        } else if str_eq(label, "JJ") {
            Some(POS::Adjective)
        } else if str_eq(label, "JJR") {
            Some(POS::AdjectiveComparative)
        } else if str_eq(label, "JJS") {
            Some(POS::AdjectiveSuperlative)
        } else if str_eq(label, "LS") {
            Some(POS::ListItemMarker)
        } else if str_eq(label, "MD") {
            Some(POS::Modal)
        } else if str_eq(label, "NN") {
            Some(POS::NounSingularOrMass)
        } else if str_eq(label, "NNP") {
            Some(POS::ProperNounSingular)
        } else if str_eq(label, "NNPS") {
            Some(POS::ProperNounPlural)
        } else if str_eq(label, "NNS") {
            Some(POS::NounPlural)
        } else if str_eq(label, "PDT") {
            Some(POS::Predeterminer)
        } else if str_eq(label, "POS") {
            Some(POS::PossessiveEnding)
        } else if str_eq(label, "PRP") {
            Some(POS::PersonalPronoun)
        } else if str_eq(label, "PRP$") {
            Some(POS::PossesivePronoun)
        } else if str_eq(label, "RB") {
            Some(POS::Adverb)
        } else if str_eq(label, "RBR") {
            Some(POS::AdverbComparative)
        } else if str_eq(label, "RBS") {
            Some(POS::AdverbSuperlative)
        } else if str_eq(label, "RP") {
            Some(POS::Particle)
        } else if str_eq(label, "SYM") {
            Some(POS::Symbol)
        } else if str_eq(label, "TO") {
            Some(POS::To)
        } else if str_eq(label, "UH") {
            Some(POS::Interjection)
        } else if str_eq(label, "VB") {
            Some(POS::VerbBaseForm)
        } else if str_eq(label, "VBD") {
            Some(POS::VerbPastTense)
        } else if str_eq(label, "VBG") {
            Some(POS::VerbGerundOrPresentParticiple)
        } else if str_eq(label, "VBN") {
            Some(POS::VerbPastParticiple)
        } else if str_eq(label, "VBP") {
            Some(POS::VerbNon3rdPersonSingularPresent)
        } else if str_eq(label, "VBZ") {
            Some(POS::Verb3rdPersonSingularPresent)
        } else if str_eq(label, "WDT") {
            Some(POS::WhDeterminer)
        } else if str_eq(label, "WP") {
            Some(POS::WhPronoun)
        } else if str_eq(label, "WP$") {
            Some(POS::PossesiveWhPronoun)
        } else if str_eq(label, "WRB") {
            Some(POS::WhAdverb)
        } else if str_eq(label, "``") {
            Some(POS::Backtick)
        } else {
            None
        }
    }

    /// No two parts of speech have the same label.
    pub proof fn lemma_label_injective(a: POS, b: POS)
        requires
            a.spec_label() == b.spec_label(),
        ensures
            a == b,
    {
        Self::lemma_marks(a);
        Self::lemma_marks(b);
    }

    /// The length and the first characters of the label of each part of
    /// speech, which tell the labels apart.
    proof fn lemma_marks(pos: POS)
        ensures
            marks(pos.spec_label()) == (match pos {
                POS::Start => (7nat, '-', 'S', 'T', 'A'),
                POS::Start2 => (8nat, '-', 'S', 'T', 'A'),
                POS::End => (5nat, '-', 'E', 'N', 'D'),
                POS::End2 => (6nat, '-', 'E', 'N', 'D'),
                POS::Hash => (1nat, '#', ' ', ' ', ' '),
                POS::Dollar => (1nat, '$', ' ', ' ', ' '),
                POS::TwoQuotes => (2nat, '\'', '\'', ' ', ' '),
                POS::Open => (1nat, '(', ' ', ' ', ' '),
                POS::Close => (1nat, ')', ' ', ' ', ' '),
                POS::Comma => (1nat, ',', ' ', ' ', ' '),
                POS::EndOfSentence => (1nat, '.', ' ', ' ', ' '),
                POS::Colon => (1nat, ':', ' ', ' ', ' '),
                POS::CoordinatingConjunction => (2nat, 'C', 'C', ' ', ' '),
                POS::CardinalNumber => (2nat, 'C', 'D', ' ', ' '),
                POS::Determiner => (2nat, 'D', 'T', ' ', ' '),
                POS::ExistentialThere => (2nat, 'E', 'X', ' ', ' '),
                POS::ForeignWord => (2nat, 'F', 'W', ' ', ' '),
                POS::PrepositionOrSubordinatingConjunction => (2nat, 'I', 'N', ' ', ' '),
                POS::Adjective => (2nat, 'J', 'J', ' ', ' '),
                POS::AdjectiveComparative => (3nat, 'J', 'J', 'R', ' '),
                POS::AdjectiveSuperlative => (3nat, 'J', 'J', 'S', ' '),
                POS::ListItemMarker => (2nat, 'L', 'S', ' ', ' '),
                POS::Modal => (2nat, 'M', 'D', ' ', ' '),
                POS::NounSingularOrMass => (2nat, 'N', 'N', ' ', ' '),
                POS::ProperNounSingular => (3nat, 'N', 'N', 'P', ' '),
                POS::ProperNounPlural => (4nat, 'N', 'N', 'P', 'S'),
                POS::NounPlural => (3nat, 'N', 'N', 'S', ' '),
                POS::Predeterminer => (3nat, 'P', 'D', 'T', ' '),
                POS::PossessiveEnding => (3nat, 'P', 'O', 'S', ' '),
                POS::PersonalPronoun => (3nat, 'P', 'R', 'P', ' '),
                POS::PossesivePronoun => (4nat, 'P', 'R', 'P', '$'),
                POS::Adverb => (2nat, 'R', 'B', ' ', ' '),
                POS::AdverbComparative => (3nat, 'R', 'B', 'R', ' '),
                POS::AdverbSuperlative => (3nat, 'R', 'B', 'S', ' '),
                POS::Particle => (2nat, 'R', 'P', ' ', ' '),
                POS::Symbol => (3nat, 'S', 'Y', 'M', ' '),
                POS::To => (2nat, 'T', 'O', ' ', ' '),
                POS::Interjection => (2nat, 'U', 'H', ' ', ' '),
                POS::VerbBaseForm => (2nat, 'V', 'B', ' ', ' '),
                POS::VerbPastTense => (3nat, 'V', 'B', 'D', ' '),
                POS::VerbGerundOrPresentParticiple => (3nat, 'V', 'B', 'G', ' '),
                POS::VerbPastParticiple => (3nat, 'V', 'B', 'N', ' '),
                POS::VerbNon3rdPersonSingularPresent => (3nat, 'V', 'B', 'P', ' '),
                POS::Verb3rdPersonSingularPresent => (3nat, 'V', 'B', 'Z', ' '),
                POS::WhDeterminer => (3nat, 'W', 'D', 'T', ' '),
                POS::WhPronoun => (2nat, 'W', 'P', ' ', ' '),
                POS::PossesiveWhPronoun => (3nat, 'W', 'P', '$', ' '),
                POS::WhAdverb => (3nat, 'W', 'R', 'B', ' '),
                POS::Backtick => (2nat, '`', '`', ' ', ' '),
            }),
    {
        reveal_strlit("-START-");
        reveal_strlit("-START2-");
        reveal_strlit("-END-");
        reveal_strlit("-END2-");
        reveal_strlit("#");
        reveal_strlit("$");
        reveal_strlit("''");
        reveal_strlit("(");
        reveal_strlit(")");
        reveal_strlit(",");
        reveal_strlit(".");
        reveal_strlit(":");
        reveal_strlit("CC");
        reveal_strlit("CD");
        reveal_strlit("DT");
        reveal_strlit("EX");
        reveal_strlit("FW");
        reveal_strlit("IN");
        reveal_strlit("JJ");
        reveal_strlit("JJR");
        reveal_strlit("JJS");
        reveal_strlit("LS");
        reveal_strlit("MD");
        reveal_strlit("NN");
        reveal_strlit("NNP");
        reveal_strlit("NNPS");
        reveal_strlit("NNS");
        reveal_strlit("PDT");
        reveal_strlit("POS");
        reveal_strlit("PRP");
        reveal_strlit("PRP$");
        reveal_strlit("RB");
        reveal_strlit("RBR");
        reveal_strlit("RBS");
        reveal_strlit("RP");
        reveal_strlit("SYM");
        reveal_strlit("TO");
        reveal_strlit("UH");
        reveal_strlit("VB");
        reveal_strlit("VBD");
        reveal_strlit("VBG");
        reveal_strlit("VBN");
        reveal_strlit("VBP");
        reveal_strlit("VBZ");
        reveal_strlit("WDT");
        reveal_strlit("WP");
        reveal_strlit("WP$");
        reveal_strlit("WRB");
        reveal_strlit("``");
    }

    /// Two parts of speech with the same place are the same.
    pub proof fn lemma_index_injective(a: POS, b: POS)
        requires
            a.spec_index() == b.spec_index(),
        ensures
            a == b,
    {
    }
}

} // verus!
