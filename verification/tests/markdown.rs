use fxhash::FxHashMap;
use pastelito::block::BlockKind;
use pastelito::doc::Document;
use pastelito::model::{Model, Scores};
use pastelito::parsers::markdown::{MarkdownEvent, MarkdownTag, TextStorage};
use pastelito::parsers::MarkdownParser;
use pastelito::tagger::Tagger;
use pulldown_cmark::Options;

fn eq(data: &str, expected: Vec<(BlockKind, Vec<&str>)>) {
    let model = Model::new(
        FxHashMap::default(),
        Vec::new(),
        FxHashMap::default(),
        Scores::default(),
    );
    let tagger = Tagger::new(&model);
    let parser = MarkdownParser::default();
    let doc = Document::new(&parser, &tagger, data);

    let blocks: Vec<_> = doc
        .iter()
        .map(|block| {
            (
                block.kind(),
                block.iter().map(|word| word.as_str()).collect::<Vec<_>>(),
            )
        })
        .collect();
    assert_eq!(blocks, expected, "data={:?}", data);
}

fn p(strs: Vec<&str>) -> (BlockKind, Vec<&str>) {
    (BlockKind::Paragraph, strs.to_vec())
}

fn h(strs: Vec<&str>) -> (BlockKind, Vec<&str>) {
    (BlockKind::Heading, strs.to_vec())
}

#[test]
fn markdown_test_empty() {
    eq("", vec![]);
    eq("\n", vec![]);
    eq("\n\n", vec![]);
    eq("\n\n\n", vec![]);
}

#[test]
fn markdown_test_single() {
    eq("one", vec![p(vec!["one"])]);
    eq("one\n", vec![p(vec!["one"])]);
    eq("one\n\n", vec![p(vec!["one"])]);
    eq("one\n\n\n", vec![p(vec!["one"])]);
    eq("\none", vec![p(vec!["one"])]);
    eq("\none\n", vec![p(vec!["one"])]);
    eq("\none\n\n", vec![p(vec!["one"])]);
    eq("\none\n\n\n", vec![p(vec!["one"])]);
    eq("\n\none", vec![p(vec!["one"])]);
    eq("\n\none\n", vec![p(vec!["one"])]);
    eq("\n\none\n\n", vec![p(vec!["one"])]);
}

#[test]
fn markdown_test_multiple() {
    eq("one\n\ntwo", vec![p(vec!["one"]), p(vec!["two"])]);
    eq("one\n\ntwo\n", vec![p(vec!["one"]), p(vec!["two"])]);
    eq("one\n\ntwo\n\n", vec![p(vec!["one"]), p(vec!["two"])]);
    eq("one\n\ntwo\n\n\n", vec![p(vec!["one"]), p(vec!["two"])]);
    eq("\none\n\ntwo", vec![p(vec!["one"]), p(vec!["two"])]);
    eq("\none\n\ntwo\n", vec![p(vec!["one"]), p(vec!["two"])]);
    eq("\none\n\ntwo\n\n", vec![p(vec!["one"]), p(vec!["two"])]);
    eq("\none\n\ntwo\n\n\n", vec![p(vec!["one"]), p(vec!["two"])]);
    eq("\n\none\n\ntwo", vec![p(vec!["one"]), p(vec!["two"])]);
    eq("\n\none\n\ntwo\n", vec![p(vec!["one"]), p(vec!["two"])]);
    eq("\n\none\n\ntwo\n\n", vec![p(vec!["one"]), p(vec!["two"])]);
    eq("\n\none\n\ntwo\n\n\n", vec![p(vec!["one"]), p(vec!["two"])]);
}

#[test]
fn test_paragraph() {
    eq("aaa\n\nbbb", vec![p(vec!["aaa"]), p(vec!["bbb"])]);
    eq(
        "aaa bbb\n\nccc",
        vec![p(vec!["aaa", "bbb"]), p(vec!["ccc"])],
    );
    eq(
        "aaa\nbbb\n\nccc",
        vec![p(vec!["aaa", "bbb"]), p(vec!["ccc"])],
    );
}

#[test]
fn test_code_blocks() {
    eq(
        "aaa\n```\ncode1\n```\n\n```\ncode2\n```\nbbb",
        vec![p(vec!["aaa"]), p(vec!["bbb"])],
    );
}

#[test]
fn test_formatting() {
    eq("aaa *bbb* ccc", vec![p(vec!["aaa", "bbb", "ccc"])]);
    eq("aaa _bbb_ ccc", vec![p(vec!["aaa", "bbb", "ccc"])]);
    eq(
        "aaa ~bbb ccc~ ddd",
        vec![p(vec!["aaa", "bbb", "ccc", "ddd"])],
    );
}

#[test]
fn test_heading() {
    eq("# aaa", vec![h(vec!["aaa"])]);
    eq("# aaa\n## bbb", vec![h(vec!["aaa"]), h(vec!["bbb"])]);
    eq("# aaa\n\nbbb", vec![h(vec!["aaa"]), p(vec!["bbb"])]);
    eq(
        "# aaa\nbbb\n\nccc",
        vec![h(vec!["aaa"]), p(vec!["bbb"]), p(vec!["ccc"])],
    );
    eq("aaa\n# bbb", vec![p(vec!["aaa"]), h(vec!["bbb"])]);
}

#[test]
fn test_list() {
    eq("* aaa\n* bbb", vec![p(vec!["aaa"]), p(vec!["bbb"])]);
    eq("1. aaa\n1. bbb", vec![p(vec!["aaa"]), p(vec!["bbb"])]);
}

#[test]
fn test_html_comment() {
    eq("aaa <!-- bbb --> ccc", vec![p(vec!["aaa", "ccc"])]);
}

#[test]
fn test_html() {
    eq("<div>aaa</div>", vec![]);
    eq("aaa<br>bbb", vec![p(vec!["aaa", "bbb"])]);
    eq("aaa<div>bbb</div>ccc", vec![p(vec!["aaa", "bbb", "ccc"])]);
    eq("aaa<div> bbb </div>ccc", vec![p(vec!["aaa", "bbb", "ccc"])]);
    eq("aaa<div>\n  bbb\n</div>ccc", vec![p(vec!["aaa", "bbb"])]);
    eq("aaa<div>\n  bbb\n</div>\nccc", vec![p(vec!["aaa", "bbb"])]);
    eq(
        "aaa<div>\n  bbb\n</div>\n\nccc",
        vec![p(vec!["aaa", "bbb"]), p(vec!["ccc"])],
    );
}

#[test]
fn test_escape() {
    eq("\\\\", vec![p(vec!["\\"])]);
    eq("*\\\n\x0c", vec![p(vec!["*", "\\"])]);
}

#[test]
fn test_regressions() {
    eq(",]", vec![p(vec![",", "]"])]);
}

#[test]
fn test_tables() {
    eq(
        "| t0 | t1 |\n| :-- | --: |\n| v0 | v1 |",
        vec![p(vec!["t0"]), p(vec!["t1"]), p(vec!["v0"]), p(vec!["v1"])],
    );
}

#[test]
fn markdown_test_quotes() {
    eq("> aaa", vec![p(vec!["aaa"])]);
}

#[test]
fn test_footnotes() {
    eq("aaa[^1]\n\n[^1]: bbb", vec![p(vec!["aaa"]), p(vec!["bbb"])]);
}

#[test]
fn test_definition_list() {
    eq(
        "aaa\n: bbb\n: ccc",
        vec![p(vec!["aaa"]), p(vec!["bbb"]), p(vec!["ccc"])],
    );
}

#[test]
fn test_task_lists() {
    eq("- [x] aaa\n- [ ] bbb", vec![p(vec!["aaa"]), p(vec!["bbb"])]);
}

#[test]
fn test_math() {
    eq(
        "aaa $`\n\\sum_{i=1}^{n} i\n`$ bbb",
        vec![p(vec!["aaa", "bbb"])],
    );
}

#[test]
fn test_heading_attributes() {
    eq("# aaa {#id .class key=value}", vec![h(vec!["aaa"])]);
}

#[test]
fn test_yaml_metadata() {
    eq("---\nkey: value\n---\n\naaa", vec![p(vec!["aaa"])]);
    eq("+++\nkey: value\n+++\n\naaa", vec![p(vec!["aaa"])]);
}

fn blocks_of(data: &str, events: &[MarkdownEvent]) -> Option<Vec<(BlockKind, Vec<String>)>> {
    let parser = MarkdownParser::default();
    parser.blocks_of(data, events).map(|blocks| {
        blocks
            .iter()
            .map(|block| {
                (
                    block.kind(),
                    block.iter().map(|word| word.as_str().to_owned()).collect(),
                )
            })
            .collect()
    })
}

fn text(start: usize, end: usize) -> MarkdownEvent {
    MarkdownEvent::Text { start, end, storage: TextStorage::Borrowed }
}

#[test]
fn events_of_a_heading_and_a_paragraph() {
    assert_eq!(
        MarkdownParser::events("# aaa\n\nbbb *ccc*"),
        vec![
            MarkdownEvent::Start(MarkdownTag::Heading),
            text(2, 5),
            MarkdownEvent::End(MarkdownTag::Heading),
            MarkdownEvent::Start(MarkdownTag::Paragraph),
            text(7, 11),
            MarkdownEvent::Start(MarkdownTag::Other),
            text(12, 15),
            MarkdownEvent::End(MarkdownTag::Other),
            MarkdownEvent::End(MarkdownTag::Paragraph),
        ]
    );
    assert_eq!(
        MarkdownParser::events("```\nx\n```\n"),
        vec![
            MarkdownEvent::Start(MarkdownTag::CodeBlock),
            text(4, 6),
            MarkdownEvent::End(MarkdownTag::CodeBlock),
        ]
    );
}

#[test]
fn the_same_text_gives_the_same_events() {
    let text = "# One\n\n* two *three*\n* `four`\n\n> five \\* six\n";
    let first = MarkdownParser::events(text);
    let second = MarkdownParser::events(&text.to_owned());
    assert_eq!(first, second);
    assert!(first.len() > 10);
    assert!(MarkdownParser::events("").is_empty());
}

#[test]
fn blocks_of_events_that_fit_together() {
    let data = "ab  cd, ef \u{e9}";
    let events = [
        MarkdownEvent::Start(MarkdownTag::Item),
        text(0, 4),
        MarkdownEvent::Start(MarkdownTag::Heading),
        MarkdownEvent::Other,
        text(3, 8),
        MarkdownEvent::Start(MarkdownTag::Other),
        MarkdownEvent::End(MarkdownTag::Heading),
        MarkdownEvent::Start(MarkdownTag::MetadataBlock),
        text(5, 1),
        MarkdownEvent::End(MarkdownTag::MetadataBlock),
        MarkdownEvent::Start(MarkdownTag::BlockQuote),
        text(10, 11),
        MarkdownEvent::End(MarkdownTag::BlockQuote),
        MarkdownEvent::Text { start: 8, end: 13, storage: TextStorage::Inlined },
        MarkdownEvent::End(MarkdownTag::Paragraph),
    ];
    assert_eq!(
        blocks_of(data, &events),
        Some(vec![
            (BlockKind::Heading, vec!["cd".to_owned(), ",".to_owned()]),
            // Text that is all white space still makes a block, of no word.
            (BlockKind::Paragraph, vec![]),
            (
                BlockKind::Paragraph,
                vec!["ab".to_owned(), "ef".to_owned(), "\u{e9}".to_owned()]
            ),
        ])
    );
    assert_eq!(blocks_of(data, &[]), Some(vec![]));
}

#[test]
fn events_that_do_not_fit_together_give_nothing() {
    let data = "ab \u{e9}d";
    let open = MarkdownEvent::Start(MarkdownTag::Paragraph);
    let close = MarkdownEvent::End(MarkdownTag::Paragraph);
    // A block is left open.
    assert_eq!(blocks_of(data, &[open]), None);
    // No block is open.
    assert_eq!(blocks_of(data, &[close]), None);
    assert_eq!(blocks_of(data, &[MarkdownEvent::End(MarkdownTag::Heading)]), None);
    assert_eq!(blocks_of(data, &[text(0, 2)]), None);
    // The text is held elsewhere.
    let boxed = MarkdownEvent::Text { start: 0, end: 2, storage: TextStorage::Boxed };
    assert_eq!(blocks_of(data, &[open, boxed, close]), None);
    // The offsets are no part of the text.
    assert_eq!(blocks_of(data, &[open, text(2, 1), close]), None);
    assert_eq!(blocks_of(data, &[open, text(0, 4), close]), None);
    assert_eq!(blocks_of(data, &[open, text(0, 7), close]), None);
    // The text starts before the end of the text before it.
    assert_eq!(blocks_of(data, &[open, text(0, 2), text(1, 6), close]), None);
    // Text that is passed over may be anything.
    assert_eq!(
        blocks_of(
            data,
            &[
                open,
                MarkdownEvent::Start(MarkdownTag::CodeBlock),
                boxed,
                text(7, 0),
                MarkdownEvent::End(MarkdownTag::CodeBlock),
                text(0, 6),
                close
            ]
        ),
        Some(vec![(BlockKind::Paragraph, vec!["ab".to_owned(), "\u{e9}d".to_owned()])])
    );
}

#[test]
fn the_extensions_are_those_of_the_outside_parser() {
    assert_eq!(pastelito::parsers::markdown::TABLES, Options::ENABLE_TABLES.bits());
    assert_eq!(pastelito::parsers::markdown::FOOTNOTES, Options::ENABLE_FOOTNOTES.bits());
    assert_eq!(pastelito::parsers::markdown::STRIKETHROUGH, Options::ENABLE_STRIKETHROUGH.bits());
    assert_eq!(pastelito::parsers::markdown::TASK_LISTS, Options::ENABLE_TASKLISTS.bits());
    assert_eq!(pastelito::parsers::markdown::HEADING_ATTRIBUTES, Options::ENABLE_HEADING_ATTRIBUTES.bits());
    assert_eq!(pastelito::parsers::markdown::YAML_METADATA, Options::ENABLE_YAML_STYLE_METADATA_BLOCKS.bits());
    assert_eq!(
        pastelito::parsers::markdown::PLUSES_METADATA,
        Options::ENABLE_PLUSES_DELIMITED_METADATA_BLOCKS.bits()
    );
    assert_eq!(pastelito::parsers::markdown::MATH, Options::ENABLE_MATH.bits());
    assert_eq!(pastelito::parsers::markdown::GFM, Options::ENABLE_GFM.bits());
    assert_eq!(pastelito::parsers::markdown::DEFINITION_LISTS, Options::ENABLE_DEFINITION_LIST.bits());
    assert_eq!(pastelito::parsers::markdown::EXTENSIONS, 0x1dde);
    let all = Options::ENABLE_TABLES
        | Options::ENABLE_FOOTNOTES
        | Options::ENABLE_STRIKETHROUGH
        | Options::ENABLE_TASKLISTS
        | Options::ENABLE_HEADING_ATTRIBUTES
        | Options::ENABLE_YAML_STYLE_METADATA_BLOCKS
        | Options::ENABLE_PLUSES_DELIMITED_METADATA_BLOCKS
        | Options::ENABLE_MATH
        | Options::ENABLE_GFM
        | Options::ENABLE_DEFINITION_LIST;
    assert_eq!(Options::from_bits_truncate(pastelito::parsers::markdown::EXTENSIONS), all);
}

#[test]
fn a_table_is_read_as_a_table() {
    // Without the extension for tables the lines would be one paragraph
    // that holds the bars.
    let events = MarkdownParser::events("| a | b |\n|---|---|\n| c | d |\n");
    let texts = events
        .iter()
        .filter(|event| matches!(event, MarkdownEvent::Text { .. }))
        .count();
    assert_eq!(texts, 4);
}
