use fxhash::FxHashMap;
use pastelito::doc::Document;
use pastelito::export::{key_number, rule_results_to_results, to_range, Measurement, Range};
use pastelito::lines::LineCharRange;
use pastelito::model::{Model, Scores};
use pastelito::parsers::MarkdownParser;
use pastelito::pos::POS;
use pastelito::rule::{MeasureKey, RuleSet};
use pastelito::tagger::Tagger;

#[test]
fn ranges_and_keys_are_handed_over_as_they_are() {
    assert_eq!(
        to_range(LineCharRange::new(1, 2, 3, 4)),
        Range { start_line: 1, start_char_utf16: 2, end_line: 3, end_char_utf16: 4 }
    );
    let numbers: Vec<u32> = MeasureKey::all().iter().map(|key| key_number(*key)).collect();
    assert_eq!(numbers, vec![0, 1, 2, 3, 4]);
}

#[test]
fn results_of_a_markdown_document() {
    let mut static_tags = FxHashMap::default();
    for (word, tag) in [
        ("was", POS::VerbPastTense),
        ("broken", POS::VerbPastParticiple),
        ("on", POS::PrepositionOrSubordinatingConjunction),
    ] {
        static_tags.insert(word.to_owned(), tag);
    }
    let mut initial = Scores::default();
    initial.update(POS::NounSingularOrMass, 1);
    let model = Model::new(static_tags, Vec::new(), FxHashMap::default(), initial);
    let tagger = Tagger::new(&model);

    let input = "# \u{1f995} on ice\n\n```\nwas broken\n```\n\nIt *was\nbroken*.\n";
    let doc = Document::new(&MarkdownParser::default(), &tagger, input);
    let results = RuleSet::default().apply(&doc);
    let out = rule_results_to_results(&results);

    assert_eq!(out.warnings.len(), 1);
    assert_eq!(out.warnings[0].message, "Passive construction");
    assert_eq!(
        out.warnings[0].range,
        Range { start_line: 6, start_char_utf16: 4, end_line: 7, end_char_utf16: 6 }
    );
    assert_eq!(
        out.measurements,
        vec![
            Measurement {
                range: Range { start_line: 0, start_char_utf16: 5, end_line: 0, end_char_utf16: 7 },
                key: 4,
            },
            Measurement {
                range: Range { start_line: 6, start_char_utf16: 4, end_line: 6, end_char_utf16: 7 },
                key: 3,
            },
        ]
    );
}
