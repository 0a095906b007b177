use pastelito::block::{Block, BlockKind, Word};
use pastelito::matcher::{
    match_words, AndS, Any, EndsWithIgnoreCase, Ignore, IgnoreCase, Matcher, MultipleWordPattern,
    OneOf, OneOfS, Opt, Or, OrS, StrFn, TagFn,
};
use pastelito::pos::POS;

enum TestWord {
    Word(&'static str, POS),
    Space,
}

fn join_words(words: &[TestWord]) -> (String, Vec<(std::ops::Range<usize>, POS)>) {
    let mut input = String::new();
    let mut ranges = Vec::new();
    for word in words {
        match word {
            TestWord::Space => input.push(' '),
            TestWord::Word(word, tag) => {
                let start = input.len();
                input.push_str(word);
                let end = input.len();
                ranges.push((start..end, *tag));
            }
        }
    }
    (input, ranges)
}

fn eq<P: Matcher>(pattern: P, expected: Vec<Vec<&str>>) {
    let words = &[
        TestWord::Word("The", POS::Determiner),
        TestWord::Space,
        TestWord::Word("cat", POS::NounSingularOrMass),
        TestWord::Space,
        TestWord::Word("sat", POS::VerbPastTense),
        TestWord::Space,
        TestWord::Word("on", POS::PrepositionOrSubordinatingConjunction),
        TestWord::Space,
        TestWord::Word("the", POS::Determiner),
        TestWord::Space,
        TestWord::Word("big", POS::Adjective),
        TestWord::Word(",", POS::Comma),
        TestWord::Space,
        TestWord::Word("green", POS::Adjective),
        TestWord::Space,
        TestWord::Word("mat", POS::NounSingularOrMass),
        TestWord::Word(".", POS::EndOfSentence),
    ];
    let (input, ranges) = join_words(words);
    let mut block_words = Vec::new();
    for (range, tag) in &ranges {
        block_words.push(Word::new_with_tag(&input[range.clone()], range.start, *tag));
    }
    let block = Block::new(BlockKind::Paragraph, block_words);

    let matches: Vec<Vec<&str>> = match_words(&block, &pattern)
        .iter()
        .map(|words| words.iter().map(|word| word.as_str()).collect())
        .collect();
    assert_eq!(matches, expected);
}

#[test]
fn test_any() {
    eq(
        Any,
        vec![
            vec!["The"],
            vec!["cat"],
            vec!["sat"],
            vec!["on"],
            vec!["the"],
            vec!["big"],
            vec![","],
            vec!["green"],
            vec!["mat"],
            vec!["."],
        ],
    );
}

#[test]
fn test_match_tag() {
    eq(POS::Determiner, vec![vec!["The"], vec!["the"]]);
    eq(POS::Adjective, vec![vec!["big"], vec!["green"]]);
}

#[test]
fn test_match_literal() {
    eq("cat", vec![vec!["cat"]]);
}

#[test]
fn matcher_test_multiple() {
    eq((POS::Determiner, "cat"), vec![vec!["The", "cat"]]);
    eq(
        (POS::Determiner, Any),
        vec![vec!["The", "cat"], vec!["the", "big"]],
    );
    eq(
        ("green", POS::NounSingularOrMass),
        vec![vec!["green", "mat"]],
    );
    eq(
        (POS::Determiner, "big", POS::Comma, POS::Adjective),
        vec![vec!["the", "big", ",", "green"]],
    );
}

#[test]
fn test_or() {
    eq(
        Or(POS::Determiner, "big"),
        vec![vec!["The"], vec!["the"], vec!["big"]],
    );
}

#[test]
fn test_opt() {
    eq(
        (POS::Determiner, Opt("very"), "big"),
        vec![vec!["the", "big"]],
    );
}

#[test]
fn test_fn() {
    eq(
        TagFn(|tag: POS| tag == POS::Determiner),
        vec![vec!["The"], vec!["the"]],
    );
}

#[test]
fn test_ignore() {
    eq(
        Ignore(POS::Comma, (POS::Adjective, POS::Adjective)),
        vec![vec!["big", "green"]],
    )
}

#[test]
fn test_backtracking() {
    eq(
        Or((POS::Determiner, "dog"), (POS::Determiner, "cat")),
        vec![vec!["The", "cat"]],
    );

    eq(
        Or(
            (POS::Determiner, "cat", "lay"),
            (POS::Determiner, "cat", "sat"),
        ),
        vec![vec!["The", "cat", "sat"]],
    );

    eq(
        Or(
            (POS::Determiner, "cat", "sat", "by"),
            (POS::Determiner, "cat", "sat", "on"),
        ),
        vec![vec!["The", "cat", "sat", "on"]],
    );
}

#[test]
fn test_ignore_case() {
    eq(IgnoreCase::new("the"), vec![vec!["The"], vec!["the"]]);
    eq(IgnoreCase::new("BIG"), vec![vec!["big"]]);
}

#[test]
fn test_ends_with_ignore_case() {
    eq(
        EndsWithIgnoreCase::new("aT"),
        vec![vec!["cat"], vec!["sat"], vec!["mat"]],
    );

    eq(EndsWithIgnoreCase::new("cat"), vec![])
}

#[test]
fn matches_may_overlap() {
    eq(
        (Any, Any),
        vec![
            vec!["The", "cat"],
            vec!["cat", "sat"],
            vec!["sat", "on"],
            vec!["on", "the"],
            vec!["the", "big"],
            vec!["big", ","],
            vec![",", "green"],
            vec!["green", "mat"],
            vec!["mat", "."],
        ],
    );
}

#[test]
fn an_optional_pattern_alone_matches_everywhere() {
    eq(
        Opt("cat"),
        vec![
            vec![],
            vec!["cat"],
            vec![],
            vec![],
            vec![],
            vec![],
            vec![],
            vec![],
            vec![],
            vec![],
        ],
    );
}

#[test]
fn single_word_combinators() {
    eq(OrS("cat", POS::Comma), vec![vec!["cat"], vec![","]]);
    eq(AndS(POS::Determiner, "the"), vec![vec!["the"]]);
    eq(
        OneOfS(["mat", "sat", "hat"]),
        vec![vec!["sat"], vec!["mat"]],
    );
    eq(StrFn(|s: &str| s.len() == 2), vec![vec!["on"]]);
    eq(
        OneOf([("cat", "sat"), ("the", "big"), ("cat", "lay")]),
        vec![vec!["cat", "sat"], vec!["the", "big"]],
    );
}

#[test]
fn size_hints_add_up_and_take_the_greatest() {
    assert_eq!(Any.size_hint(), 1);
    assert_eq!((Any, "cat", POS::Comma).size_hint(), 3);
    assert_eq!(Or((Any, Any), Any).size_hint(), 2);
    assert_eq!(OneOf([(Any, Any), (Any, Any)]).size_hint(), 2);
    assert_eq!(Opt((Any, Any, Any, Any)).size_hint(), 4);
    let none: [Any; 0] = [];
    assert_eq!(OneOf(none).size_hint(), 1);
}

#[test]
fn a_pattern_that_fails_leaves_the_matched_words_as_they_were() {
    let input = "The cat";
    let words = vec![
        Word::new_with_tag("The", 0, POS::Determiner),
        Word::new_with_tag("cat", 4, POS::NounSingularOrMass),
    ];
    let mut matched = vec![words[1]];
    let pattern = (POS::Determiner, "dog");
    assert_eq!(pattern.matches(&mut matched, &words), None);
    assert_eq!(matched, vec![words[1]]);
    let pattern = (POS::Determiner, "cat");
    assert_eq!(pattern.matches(&mut matched, &words), Some(2));
    assert_eq!(matched, vec![words[1], words[0], words[1]]);
    assert_eq!(input.len(), 7);
}

#[test]
fn a_suffix_does_not_match_a_word_that_is_no_longer() {
    let block = Block::new(
        BlockKind::Paragraph,
        vec![
            Word::new("ION", 0),
            Word::new("Lion", 4),
            Word::new("caf\u{e9}ion", 9),
            Word::new("i\u{f6}n", 17),
        ],
    );
    let found: Vec<Vec<&str>> = match_words(&block, &EndsWithIgnoreCase::new("ion"))
        .iter()
        .map(|words| words.iter().map(|word| word.as_str()).collect())
        .collect();
    assert_eq!(found, vec![vec!["Lion"], vec!["caf\u{e9}ion"]]);
}
