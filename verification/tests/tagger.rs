use fxhash::FxHashMap;
use pastelito::block::{Block, BlockKind, Word};
use pastelito::data::{ContextSuffix, ContextWord, Feature};
use pastelito::model::{Model, Scores, WeightRange};
use pastelito::perceptron::Perceptron;
use pastelito::pos::POS;
use pastelito::tagger::Tagger;

enum TestWord {
    Word(&'static str, POS),
    Space,
}

fn testing_words(words: &[TestWord]) -> (String, Vec<(std::ops::Range<usize>, POS)>) {
    let mut input = String::new();
    let mut ranges = Vec::new();
    for word in words {
        match word {
            TestWord::Space => input.push(' '),
            TestWord::Word(word, tag) => {
                let start = input.len();
                input.push_str(word);
                let end = input.len();
                ranges.push((start..end, *tag));
            }
        }
    }
    (input, ranges)
}

/// A model that knows a few words by heart, leans towards nouns, and takes
/// what follows a noun for a verb in the past tense.
fn small_model() -> Model {
    let mut static_tags = FxHashMap::default();
    for (word, tag) in [
        ("The", POS::Determiner),
        ("the", POS::Determiner),
        ("on", POS::PrepositionOrSubordinatingConjunction),
        (".", POS::EndOfSentence),
    ] {
        static_tags.insert(word.to_owned(), tag);
    }
    let weights = vec![
        (POS::NounSingularOrMass, 10),
        (POS::VerbPastTense, 25),
        (POS::NounSingularOrMass, -5),
        (POS::Adjective, 3),
        (POS::Adverb, 3),
    ];
    let mut mapping = FxHashMap::default();
    mapping.insert(Feature::Bias, WeightRange::new(0, 1));
    mapping.insert(Feature::IMinus1Tag(POS::NounSingularOrMass), WeightRange::new(1, 3));
    mapping.insert(
        Feature::Suffix(ContextSuffix::new([b'i', b's', b'h'])),
        WeightRange::new(3, 5),
    );
    mapping.insert(
        Feature::IPlus1Word(ContextWord::new_from_model("mat")),
        WeightRange::new(9, 12),
    );
    let mut initial_scores = Scores::default();
    initial_scores.update(POS::NounSingularOrMass, 10);
    Model::new(static_tags, weights, mapping, initial_scores)
}

fn eq(words: &[TestWord]) {
    let (input, ranges) = testing_words(words);
    let expected: Vec<Word> = ranges
        .iter()
        .map(|(range, tag)| Word::new_with_tag(&input[range.clone()], range.start, *tag))
        .collect();
    let unknown: Vec<Word> = ranges
        .iter()
        .map(|(range, _)| Word::new(&input[range.clone()], range.start))
        .collect();
    let mut unknown_block = Block::new(BlockKind::Paragraph, unknown);

    let model = small_model();
    let tagger = Tagger::new(&model);
    tagger.tag(&mut unknown_block);

    assert_eq!(unknown_block.as_slice(), expected.as_slice());
}

#[test]
fn tagger_test_numbers() {
    eq(&[TestWord::Word("1", POS::CardinalNumber)]);
    eq(&[TestWord::Word("20", POS::CardinalNumber)]);
    eq(&[TestWord::Word("3.3", POS::CardinalNumber)]);
    eq(&[TestWord::Word("-4", POS::CardinalNumber)]);
    eq(&[TestWord::Word("-5.5", POS::CardinalNumber)]);
    eq(&[TestWord::Word("+6", POS::CardinalNumber)]);
    eq(&[TestWord::Word("+7.7", POS::CardinalNumber)]);
    eq(&[TestWord::Word("8,000", POS::CardinalNumber)]);
    eq(&[TestWord::Word("9_000", POS::CardinalNumber)]);
    eq(&[TestWord::Word("10/100", POS::CardinalNumber)]);
}

#[test]
fn test_static() {
    eq(&[
        TestWord::Word("The", POS::Determiner),
        TestWord::Space,
        TestWord::Word("cat", POS::NounSingularOrMass),
        TestWord::Space,
        TestWord::Word("sat", POS::VerbPastTense),
        TestWord::Space,
        TestWord::Word("on", POS::PrepositionOrSubordinatingConjunction),
        TestWord::Space,
        TestWord::Word("the", POS::Determiner),
        TestWord::Space,
        TestWord::Word("mat", POS::NounSingularOrMass),
        TestWord::Word(".", POS::EndOfSentence),
    ]);
}

static SOME_TEXT: &str = "The cat sat on the mat. A dog, 12 and reddish, ran off -- quickly! \
                          \"Why?\" it asked; 'no reason' came the well-known reply in 1984.";

fn test_block() -> Block<Word<'static>> {
    let mut words = Vec::new();
    let mut offset = 0;
    for part in SOME_TEXT.split(' ') {
        if !part.is_empty() {
            words.push(Word::new(part, offset));
        }
        offset += part.len() + 1;
    }
    Block::new(BlockKind::Paragraph, words)
}

#[test]
fn string_deterministic() {
    let model = small_model();
    let mut block = test_block();
    let tagger = Tagger::new(&model);
    tagger.tag(&mut block);

    let mut block_string_2 = test_block();
    tagger.tag(&mut block_string_2);

    assert_eq!(block.as_slice().len(), block_string_2.as_slice().len());

    for (i, (word_l, word_r)) in block
        .as_slice()
        .iter()
        .zip(block_string_2.as_slice())
        .enumerate()
    {
        assert_eq!(word_l.tag(), word_r.tag(), "i: {}", i);
    }
}

#[test]
fn feature_deterministic() {
    let model = small_model();
    let mut block_l = test_block();
    let tagger = Tagger::new(&model);
    tagger.tag(&mut block_l);

    let other_model = small_model();
    let other_tagger = Tagger::new(&other_model);
    let mut block_r = test_block();
    other_tagger.tag(&mut block_r);

    assert_eq!(block_l.as_slice().len(), block_r.as_slice().len());

    for (i, (word_l, word_r)) in block_l
        .as_slice()
        .iter()
        .zip(block_r.as_slice())
        .enumerate()
    {
        assert_eq!(word_l.tag(), word_r.tag(), "i: {}", i);
        assert!(word_l.tag().is_some());
    }
}

#[test]
fn quotation_marks_and_numbers_need_no_model() {
    eq(&[
        TestWord::Word("\"", POS::TwoQuotes),
        TestWord::Space,
        TestWord::Word("'", POS::TwoQuotes),
        TestWord::Space,
        TestWord::Word("3,000", POS::CardinalNumber),
        TestWord::Space,
        TestWord::Word("-", POS::NounSingularOrMass),
        TestWord::Space,
        TestWord::Word("''", POS::VerbPastTense),
        TestWord::Space,
        TestWord::Word("3a", POS::NounSingularOrMass),
        TestWord::Space,
        // A fraction in one character is no digit.
        TestWord::Word("\u{bd}", POS::VerbPastTense),
    ]);
}

#[test]
fn a_tag_that_is_known_stays_and_counts_as_context() {
    let model = small_model();
    let input = "dog ran";
    let mut block = Block::new(
        BlockKind::Paragraph,
        vec![
            Word::new_with_tag("dog", 0, POS::NounSingularOrMass),
            Word::new("ran", 4),
        ],
    );
    Perceptron::new(&model).predict(&mut block);
    assert_eq!(block.as_slice()[0].tag(), Some(POS::NounSingularOrMass));
    assert_eq!(block.as_slice()[1].tag(), Some(POS::VerbPastTense));
    assert_eq!(block.as_slice()[1].as_str(), &input[4..]);

    let mut block = Block::new(
        BlockKind::Paragraph,
        vec![Word::new_with_tag("dog", 0, POS::Adjective), Word::new("ran", 4)],
    );
    Perceptron::new(&model).predict(&mut block);
    assert_eq!(block.as_slice()[1].tag(), Some(POS::NounSingularOrMass));
}

#[test]
fn of_two_tags_with_the_best_score_the_first_wins() {
    let mut static_tags = FxHashMap::default();
    static_tags.insert("x".to_owned(), POS::Symbol);
    let model = Model::new(
        static_tags,
        vec![(POS::Adverb, 7), (POS::Adjective, 7), (POS::Adverb, 1)],
        {
            let mut mapping = FxHashMap::default();
            mapping.insert(
                Feature::Suffix(ContextSuffix::new([b'i', b's', b'h'])),
                WeightRange::new(0, 2),
            );
            mapping.insert(Feature::Pref1(b'f'), WeightRange::new(2, 3));
            mapping.insert(Feature::Pref1(b'g'), WeightRange::new(2, 9));
            mapping
        },
        Scores::default(),
    );
    let mut block = Block::new(
        BlockKind::Heading,
        vec![
            Word::new("reddish", 0),
            Word::new("foolish", 8),
            Word::new("x", 16),
            Word::new("ghoulish", 18),
            Word::new("", 27),
        ],
    );
    Tagger::new(&model).tag(&mut block);
    let tags: Vec<POS> = block.iter().map(|word| word.tag().unwrap()).collect();
    assert_eq!(
        tags,
        vec![POS::Adjective, POS::Adverb, POS::Symbol, POS::Adjective, POS::Start]
    );
    assert_eq!(block.kind(), BlockKind::Heading);
    assert_eq!(model.get_static_tag("x"), Some(POS::Symbol));
    assert_eq!(model.get_static_tag("y"), None);
    assert_eq!(
        model.get(&Feature::Pref1(b'f')),
        Some(&[(POS::Adverb, 1)][..])
    );
    assert_eq!(model.get(&Feature::Pref1(b'g')), None);
    assert_eq!(model.get(&Feature::Bias), None);
}
