use fxhash::FxHashMap;
use pastelito::data::Feature;
use pastelito::doc::Document;
use pastelito::measures::abstract_nouns::AbstractNouns;
use pastelito::measures::academic_ad_words::AcademicAdWords;
use pastelito::measures::adjectives::Adjectives;
use pastelito::measures::be_verbs::BeVerbs;
use pastelito::measures::default_measures;
use pastelito::measures::prepositions::Prepositions;
use pastelito::model::{Model, Scores, WeightRange};
use pastelito::parsers::PlaintextParser;
use pastelito::pos::POS;
use pastelito::rule::{
    BoxedMeasure, BoxedRule, Measure, MeasureKey, Rule, RuleSet, WarningBuilder,
};
use pastelito::rules::academic_we::AcademicWe;
use pastelito::rules::default_rules;
use pastelito::rules::passive_construction::PassiveConstruction;
use pastelito::rules::repeated_words::RepeatedWords;
use pastelito::rules::weak_ing::WeakIng;
use pastelito::rules::weasel_words::WeaselWords;
use pastelito::tagger::Tagger;

/// A small model: the words of the sentences below with the tags that they
/// bear there, and a bias towards nouns for every other word.
fn small_model() -> Model {
    let tags: &[(&str, POS)] = &[
        (".", POS::EndOfSentence),
        (",", POS::Comma),
        ("?", POS::EndOfSentence),
        ("Your", POS::PossesivePronoun),
        ("is", POS::Verb3rdPersonSingularPresent),
        ("Is", POS::Verb3rdPersonSingularPresent),
        ("important", POS::Adjective),
        ("The", POS::Determiner),
        ("the", POS::Determiner),
        ("a", POS::Determiner),
        ("An", POS::Determiner),
        ("an", POS::Determiner),
        ("this", POS::Determiner),
        ("identities", POS::NounPlural),
        ("ties", POS::NounPlural),
        ("Mistakes", POS::NounPlural),
        ("were", POS::VerbPastTense),
        ("was", POS::VerbPastTense),
        ("gained", POS::VerbPastTense),
        ("hidden", POS::VerbPastParticiple),
        ("broken", POS::VerbPastParticiple),
        ("made", POS::VerbPastParticiple),
        ("asked", POS::VerbPastParticiple),
        ("leave", POS::VerbBaseForm),
        ("show", POS::VerbBaseForm),
        ("be", POS::VerbBaseForm),
        ("describe", POS::VerbBaseForm),
        ("try", POS::VerbBaseForm),
        ("I", POS::PersonalPronoun),
        ("You", POS::PersonalPronoun),
        ("He", POS::PersonalPronoun),
        ("he", POS::PersonalPronoun),
        ("It", POS::PersonalPronoun),
        ("it", POS::PersonalPronoun),
        ("we", POS::PersonalPronoun),
        ("We", POS::PersonalPronoun),
        ("They", POS::PersonalPronoun),
        ("His", POS::PossesivePronoun),
        ("his", POS::PossesivePronoun),
        ("am", POS::VerbNon3rdPersonSingularPresent),
        ("are", POS::VerbNon3rdPersonSingularPresent),
        ("true", POS::Adjective),
        ("novel", POS::Adjective),
        ("complex", POS::Adjective),
        ("difficult", POS::Adjective),
        ("On", POS::PrepositionOrSubordinatingConjunction),
        ("on", POS::PrepositionOrSubordinatingConjunction),
        ("by", POS::PrepositionOrSubordinatingConjunction),
        ("In", POS::PrepositionOrSubordinatingConjunction),
        ("that", POS::PrepositionOrSubordinatingConjunction),
        ("while", POS::PrepositionOrSubordinatingConjunction),
        ("Because", POS::PrepositionOrSubordinatingConjunction),
        ("because", POS::PrepositionOrSubordinatingConjunction),
        ("to", POS::To),
        ("will", POS::Modal),
        ("shall", POS::Modal),
        ("may", POS::Modal),
        ("going", POS::VerbGerundOrPresentParticiple),
        ("working", POS::VerbGerundOrPresentParticiple),
        ("describing", POS::VerbGerundOrPresentParticiple),
        ("attempting", POS::VerbGerundOrPresentParticiple),
        ("not", POS::Adverb),
        ("quite", POS::Adverb),
        ("Basically", POS::Adverb),
        ("here", POS::Adverb),
        ("there", POS::Adverb),
    ];
    let mut static_tags = FxHashMap::default();
    for (word, tag) in tags {
        static_tags.insert((*word).to_owned(), *tag);
    }
    let weights = vec![(POS::NounSingularOrMass, 1)];
    let mut mapping = FxHashMap::default();
    mapping.insert(Feature::Bias, WeightRange::new(0, 1));
    let mut initial_scores = Scores::default();
    initial_scores.update(POS::NounSingularOrMass, 1);
    Model::new(static_tags, weights, mapping, initial_scores)
}

fn rule_eq<R: Rule + 'static>(rule: R, input: &str, expected: usize) {
    let model = small_model();
    let tagger = Tagger::new(&model);
    let doc = Document::new(&PlaintextParser::default(), &tagger, input);
    let ruleset = RuleSet::new(vec![BoxedRule::new(rule)], Vec::new());
    let results = ruleset.apply(&doc);
    assert_eq!(results.iter_warnings().count(), expected, "\n\ninput={:?}", input);
}

fn measure_eq<M: Measure + 'static>(measure: M, input: &str, expected: usize) {
    let model = small_model();
    let tagger = Tagger::new(&model);
    let doc = Document::new(&PlaintextParser::default(), &tagger, input);
    let ruleset = RuleSet::new(Vec::new(), vec![BoxedMeasure(Box::new(measure))]);
    let results = ruleset.apply(&doc);
    let measurements = results.iter_measurements().collect::<Vec<_>>();
    assert_eq!(measurements.len(), expected, "\n\ninput={:?}", input);
}

#[test]
fn abstract_nouns_test() {
    measure_eq(AbstractNouns, "Your participation is important.", 1);
    measure_eq(AbstractNouns, "Your criticism is important.", 1);
    measure_eq(AbstractNouns, "Your involvement is important.", 1);
    measure_eq(AbstractNouns, "Your activity is important.", 1);
    measure_eq(AbstractNouns, "Your performance is important.", 1);
    measure_eq(AbstractNouns, "Your presence is important.", 1);
    measure_eq(AbstractNouns, "The identities were hidden.", 1);
    measure_eq(AbstractNouns, "The ties were hidden.", 0);
    measure_eq(AbstractNouns, "Criticism is important.", 1);
}

#[test]
fn be_verbs_test() {
    measure_eq(BeVerbs, "I am a person.", 1);
    measure_eq(BeVerbs, "You are a person.", 1);
    measure_eq(BeVerbs, "He is a person.", 1);
    measure_eq(BeVerbs, "Is this true?", 1);
}

#[test]
fn prepositions_test() {
    measure_eq(Prepositions, "On the table.", 1);
    measure_eq(Prepositions, "On the table by the bed.", 2);
    measure_eq(Prepositions, "I am going to the store.", 1);
}

#[test]
fn academic_we_test() {
    rule_eq(AcademicWe, "In this paper, we will show a novel blah.", 1);
    rule_eq(AcademicWe, "The knowledge that we gained while working.", 0);
}

#[test]
fn passive_construction_test() {
    rule_eq(PassiveConstruction, "The item was broken.", 1);
    rule_eq(PassiveConstruction, "The item was not broken.", 1);

    rule_eq(PassiveConstruction, "Mistakes were made.", 1);
    rule_eq(PassiveConstruction, "Mistakes were not made.", 1);

    rule_eq(PassiveConstruction, "They were asked to leave.", 1);
}

#[test]
fn repeated_words_test() {
    // Determiner
    rule_eq(RepeatedWords, "An an apple.", 1);
    // VerbNon3rdPersonSingularPresent
    rule_eq(RepeatedWords, "I am am describing.", 1);
    // Modal
    rule_eq(RepeatedWords, "I will will be describing.", 1);
    // PrepositionOrSubordinatingConjunction
    rule_eq(RepeatedWords, "It is on on the table.", 1);
    // PersonalPronoun
    rule_eq(RepeatedWords, "He he is here.", 1);
    // PossesivePronoun
    rule_eq(RepeatedWords, "His his cat is here.", 1);
    // To
    rule_eq(RepeatedWords, "We are going to to the store.", 1);
    // be
    rule_eq(RepeatedWords, "I will be be there.", 1);
    // is
    rule_eq(RepeatedWords, "It is is a cat.", 1);
    // are
    rule_eq(RepeatedWords, "They are are here.", 1);

    // Prepositions are allowed to repeat if they are different
    rule_eq(RepeatedWords, "Because because it was difficult.", 1);
}

#[test]
fn weak_ing_test() {
    rule_eq(WeakIng, "I will be describing.", 1);
    rule_eq(WeakIng, "I shall be attempting to describe.", 1);
    rule_eq(WeakIng, "I may be attempting to try.", 1);
}

#[test]
fn weasel_words_test() {
    rule_eq(WeaselWords, "It was quite complex.", 1);
    rule_eq(WeaselWords, "Basically, it was blah.", 1);
}

#[test]
fn two_different_determiners_are_no_repeat() {
    rule_eq(RepeatedWords, "An the apple.", 0);
}

#[test]
fn other_measures_count_by_tag_and_ending() {
    measure_eq(Adjectives, "It was quite complex.", 2);
    measure_eq(AcademicAdWords, "Basically, it was important.", 1);
    measure_eq(AcademicAdWords, "It was true.", 0);
}

#[test]
fn results_come_sorted_whatever_the_order_of_the_rules() {
    let input = "We will be describing that it was quite broken.\n\nMistakes were were made by by us.";
    let model = small_model();
    let tagger = Tagger::new(&model);
    let doc = Document::new(&PlaintextParser::default(), &tagger, input);

    let forwards = RuleSet::new(default_rules(), default_measures());
    let mut rules = default_rules();
    rules.reverse();
    let mut measures = default_measures();
    measures.reverse();
    let backwards = RuleSet::new(rules, measures);

    let first = forwards.apply(&doc);
    let second = backwards.apply(&doc);
    assert_eq!(first.as_warnings(), second.as_warnings());
    assert_eq!(first.as_measurements(), second.as_measurements());

    let found: Vec<(usize, usize, &str)> = first
        .iter_warnings()
        .map(|w| (w.span.start(), w.span.end(), w.message.as_str()))
        .collect();
    assert_eq!(
        found,
        vec![
            (0, 10, "Academic we"),
            (3, 21, "Weak -ing"),
            (30, 46, "Passive construction"),
            (34, 39, "Weasel words"),
            (63, 72, "Passive construction"),
            (73, 78, "Repeated words"),
        ]
    );
    for pair in first.as_warnings().windows(2) {
        assert!(pair[0].span <= pair[1].span);
    }
    let measured: Vec<(usize, MeasureKey)> = first
        .iter_measurements()
        .map(|m| (m.word.as_offset(), m.key))
        .collect();
    assert_eq!(
        measured,
        vec![
            (8, MeasureKey::BeVerbs),
            (22, MeasureKey::Prepositions),
            (30, MeasureKey::BeVerbs),
            (34, MeasureKey::Adjectives),
            (58, MeasureKey::BeVerbs),
            (63, MeasureKey::BeVerbs),
            (73, MeasureKey::Prepositions),
            (76, MeasureKey::Prepositions),
        ]
    );

    let ranges = first.iter_warnings_with_ranges();
    assert_eq!(ranges.len(), 6);
    assert_eq!(
        (ranges[4].0.start_line, ranges[4].0.start_char_utf16),
        (2, 14)
    );
    assert_eq!((ranges[4].0.end_line, ranges[4].0.end_char_utf16), (2, 23));
    assert_eq!(ranges[4].1.message, "Passive construction");
    let ranges = first.iter_measurements_with_ranges();
    assert_eq!((ranges[7].0.start_line, ranges[7].0.start_char_utf16), (2, 27));
}

#[test]
fn a_warning_covers_its_words() {
    let input = "one two three";
    let words = vec![
        pastelito::block::Word::new("one", 0),
        pastelito::block::Word::new("two", 4),
        pastelito::block::Word::new("three", 8),
    ];
    let warning = WarningBuilder::new(&words[1..]).message("message".into()).build();
    assert_eq!((warning.span.start(), warning.span.end()), (4, 13));
    assert_eq!(warning.span.as_str(input), "two three");
    assert_eq!(warning.message, "message");
}

#[test]
fn keys_of_measures_have_names() {
    let names: Vec<&str> = MeasureKey::all().iter().map(|key| key.name()).collect();
    assert_eq!(
        names,
        vec!["AbstractNouns", "AcademicAdWords", "Adjectives", "BeVerbs", "Prepositions"]
    );
    let keys: Vec<MeasureKey> = default_measures().iter().map(|m| m.key()).collect();
    assert_eq!(keys, MeasureKey::all().to_vec());
    assert_eq!(MeasureKey::BeVerbs.index(), 3);
}
