use fxhash::FxHashMap;
use pastelito::block::BlockKind;
use pastelito::doc::Document;
use pastelito::model::{Model, Scores};
use pastelito::parsers::PlaintextParser;
use pastelito::tagger::Tagger;

fn eq(data: &str, expected: Vec<Vec<&str>>) {
    let model = Model::new(
        FxHashMap::default(),
        Vec::new(),
        FxHashMap::default(),
        Scores::default(),
    );
    let tagger = Tagger::new(&model);
    let parser = PlaintextParser::default();
    let doc = Document::new(&parser, &tagger, data);
    let blocks: Vec<_> = doc
        .iter()
        .map(|block| {
            (
                block.kind(),
                block.iter().map(|word| word.as_str()).collect::<Vec<_>>(),
            )
        })
        .collect();
    let expected = expected
        .into_iter()
        .map(|parts| (BlockKind::Paragraph, parts))
        .collect::<Vec<_>>();
    assert_eq!(blocks, expected, "data={:?}", data);
    assert_eq!(doc.input(), data);
}

#[test]
fn plaintext_test_empty() {
    eq("", vec![]);
    eq("\n", vec![]);
    eq("\n\n", vec![]);
    eq("\n\n\n", vec![]);
}

#[test]
fn plaintext_test_single() {
    eq("one", vec![vec!["one"]]);
    eq("one\n", vec![vec!["one"]]);
    eq("one\n\n", vec![vec!["one"]]);
    eq("one\n\n\n", vec![vec!["one"]]);
    eq("\none", vec![vec!["one"]]);
    eq("\none\n", vec![vec!["one"]]);
    eq("\none\n\n", vec![vec!["one"]]);
    eq("\none\n\n\n", vec![vec!["one"]]);
    eq("\n\none", vec![vec!["one"]]);
    eq("\n\none\n", vec![vec!["one"]]);
    eq("\n\none\n\n", vec![vec!["one"]]);
}

#[test]
fn plaintext_test_multiple() {
    eq("one\n\ntwo", vec![vec!["one"], vec!["two"]]);
    eq("one\n\ntwo\n", vec![vec!["one"], vec!["two"]]);
    eq("one\n\ntwo\n\n", vec![vec!["one"], vec!["two"]]);
    eq("one\n\ntwo\n\n\n", vec![vec!["one"], vec!["two"]]);
    eq("\none\n\ntwo", vec![vec!["one"], vec!["two"]]);
    eq("\none\n\ntwo\n", vec![vec!["one"], vec!["two"]]);
    eq("\none\n\ntwo\n\n", vec![vec!["one"], vec!["two"]]);
    eq("\none\n\ntwo\n\n\n", vec![vec!["one"], vec!["two"]]);
    eq("\n\none\n\ntwo", vec![vec!["one"], vec!["two"]]);
    eq("\n\none\n\ntwo\n", vec![vec!["one"], vec!["two"]]);
    eq("\n\none\n\ntwo\n\n", vec![vec!["one"], vec!["two"]]);
    eq("\n\none\n\ntwo\n\n\n", vec![vec!["one"], vec!["two"]]);
}

#[test]
fn paragraphs_keep_their_words_and_lose_their_white_space() {
    eq(
        "  It's here,\nis it?\n\n \t\n\n(Yes.)  ",
        vec![
            vec!["It", "'s", "here", ",", "is", "it", "?"],
            vec!["(", "Yes", ".", ")"],
        ],
    );
}
