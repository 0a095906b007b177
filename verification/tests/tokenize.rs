use pastelito::block::{Block, BlockKind};
use pastelito::span::{ByteSpan, FullByteSpan};
use pastelito::tokenize::Tokenizer;

fn eq(input: &str, expected: Vec<&str>) {
    let span = FullByteSpan::of_document(input);
    let block = Block::singleton(BlockKind::Paragraph, span.as_span());

    let tokenizer = Tokenizer {};
    let words = tokenizer.tokenize(input, block);

    let words = words.iter().map(|word| word.as_str()).collect::<Vec<&str>>();
    assert_eq!(words, expected);
}

#[test]
fn test_just_contraction() {
    let input = "n't";
    let expected = vec!["n't"];
    eq(input, expected);
}

#[test]
fn tokenize_test_quotes() {
    let input = "'one', \"two\", 'they're', \"three\".";
    let expected = vec![
        "'", "one", "'", ",", "\"", "two", "\"", ",", "'", "they", "'re", "'", ",", "\"",
        "three", "\"", ".",
    ];
    eq(input, expected);
}

#[test]
fn test_prefixes() {
    let input = "($1), [\"two\"], 'three'.";
    let expected = vec![
        "(", "$", "1", ")", ",", "[", "\"", "two", "\"", "]", ",", "'", "three", "'", ".",
    ];
    eq(input, expected);
}

#[test]
fn test_contractions() {
    let input = "I'll, you're, he's, I'm, isn't.";
    let expected = vec![
        "I", "'ll", ",", "you", "'re", ",", "he", "'s", ",", "I", "'m", ",", "is", "n't", ".",
    ];
    eq(input, expected);
}

#[test]
fn test_suffixes() {
    let input = "one, two! three? four!?";
    let expected = vec!["one", ",", "two", "!", "three", "?", "four", "!", "?"];
    eq(input, expected);
}

#[test]
fn test_commas() {
    let input = "one, two, 3,000, and four.";
    let expected = vec!["one", ",", "two", ",", "3,000", ",", "and", "four", "."];
    eq(input, expected);
}

#[test]
fn tokenize_test_numbers() {
    let input = "1, -2, 3.14, -4.2, 5%";
    let expected = vec!["1", ",", "-2", ",", "3.14", ",", "-4.2", ",", "5", "%"];
    eq(input, expected);
}

#[test]
fn words_spell_the_text_without_white_space() {
    let input = " \"Don't\" (stop), she'll say;\n\tit's 3,000%  caf\u{e9}s!\u{2009}";
    let span = FullByteSpan::of_document(input);
    let block = Block::singleton(BlockKind::Paragraph, span.as_span());
    let words = Tokenizer {}.tokenize(input, block);
    let joined: String = words.iter().map(|word| word.as_str()).collect();
    let stripped: String = input.chars().filter(|c| !c.is_whitespace()).collect();
    assert_eq!(joined, stripped);
    for word in words.iter() {
        assert_eq!(word.as_span().as_str(input), word.as_str());
        assert!(word.is_unknown_tag());
    }
}

#[test]
fn words_of_several_spans_keep_their_offsets() {
    let input = "one two  three";
    let spans = vec![ByteSpan::new_unchecked(0, 7), ByteSpan::new_unchecked(9, 14)];
    let words = Tokenizer {}.tokenize(input, Block::new(BlockKind::Heading, spans));
    assert_eq!(words.kind(), BlockKind::Heading);
    let places: Vec<(usize, &str)> =
        words.iter().map(|word| (word.as_offset(), word.as_str())).collect();
    assert_eq!(places, vec![(0, "one"), (4, "two"), (9, "three")]);
}

#[test]
fn a_token_of_punctuation_alone_is_cut_into_single_characters() {
    eq("(\"...\")", vec!["(", "\"", ".", ".", ".", "\"", ")"]);
    eq("", vec![]);
    eq("   \n ", vec![]);
}
