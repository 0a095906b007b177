use pastelito::block::{Block, BlockKind, Word};
use pastelito::lines::{spans_to_ranges, LineCharRange, LineCounter};
use pastelito::pos::POS;
use pastelito::span::ByteSpan;

enum TestWord {
    Word(&'static str, POS),
    Space,
    Newline,
}

fn join_words(words: &[TestWord]) -> (String, Vec<(std::ops::Range<usize>, POS)>) {
    let mut input = String::new();
    let mut ranges = Vec::new();
    for word in words {
        match word {
            TestWord::Newline => input.push('\n'),
            TestWord::Space => input.push(' '),
            TestWord::Word(word, tag) => {
                let start = input.len();
                input.push_str(word);
                let end = input.len();
                ranges.push((start..end, *tag));
            }
        }
    }
    (input, ranges)
}

fn testing_block<'input>(
    input: &'input str,
    ranges: &[(std::ops::Range<usize>, POS)],
) -> Block<Word<'input>> {
    let mut words = Vec::new();
    for (range, tag) in ranges {
        let word = &input[range.clone()];
        words.push(Word::new_with_tag(word, range.start, *tag));
    }
    Block::new(BlockKind::Paragraph, words)
}

#[test]
fn test_spans_to_ranges() {
    let words = &[
        TestWord::Word("one", POS::CardinalNumber),
        TestWord::Space,
        TestWord::Word("two", POS::CardinalNumber),
        TestWord::Newline,
        TestWord::Word("three", POS::CardinalNumber),
        TestWord::Space,
        TestWord::Word("four", POS::CardinalNumber),
        TestWord::Newline,
    ];
    let (input, ranges) = join_words(words);
    let block = testing_block(&input, &ranges);
    let ranges = spans_to_ranges(&input, block.as_slice())
        .into_iter()
        .map(|(range, _)| range)
        .collect::<Vec<_>>();
    assert_eq!(
        ranges,
        vec![
            LineCharRange::new(0, 0, 0, 3),
            LineCharRange::new(0, 4, 0, 7),
            LineCharRange::new(1, 0, 1, 5),
            LineCharRange::new(1, 6, 1, 10),
        ]
    );
}

#[test]
fn test_spans_to_ranges_multibyte() {
    let words = &[
        TestWord::Word("🦕", POS::CardinalNumber),
        TestWord::Space,
        TestWord::Word("two", POS::CardinalNumber),
        TestWord::Newline,
        TestWord::Word("🦕", POS::CardinalNumber),
        TestWord::Space,
        TestWord::Word("four", POS::CardinalNumber),
        TestWord::Newline,
    ];
    let (input, ranges) = join_words(words);
    let block = testing_block(&input, &ranges);
    let ranges = spans_to_ranges(&input, block.as_slice())
        .into_iter()
        .map(|(range, _)| range)
        .collect::<Vec<_>>();
    assert_eq!(
        ranges,
        vec![
            LineCharRange::new(0, 0, 0, 2),
            LineCharRange::new(0, 3, 0, 6),
            LineCharRange::new(1, 0, 1, 2),
            LineCharRange::new(1, 3, 1, 7),
        ]
    );
}

#[test]
fn a_span_over_a_line_feed_ends_on_the_next_line() {
    let input = "ab\ncd\n\nef";
    let mut counter = LineCounter::default();
    assert_eq!(
        counter.span_to_range(input, ByteSpan::new_unchecked(1, 4)),
        LineCharRange::new(0, 1, 1, 1)
    );
    assert_eq!(
        counter.span_to_range(input, ByteSpan::new_unchecked(1, 2)),
        LineCharRange::new(0, 1, 0, 2)
    );
    assert_eq!(
        counter.span_to_range(input, ByteSpan::new_unchecked(7, 9)),
        LineCharRange::new(3, 0, 3, 2)
    );
    assert_eq!(
        counter.span_to_range(input, ByteSpan::new_unchecked(9, 9)),
        LineCharRange::new(3, 2, 3, 2)
    );
}

#[test]
fn ranges_start_in_the_order_of_their_spans() {
    let input = "a🦕b\nc d\n\n🦕🦕 e";
    let cuts: Vec<usize> = (0..=input.len()).filter(|&i| input.is_char_boundary(i)).collect();
    let mut spans = Vec::new();
    for (i, &start) in cuts.iter().enumerate() {
        for &end in &cuts[i..] {
            spans.push(ByteSpan::new_unchecked(start, end));
        }
    }
    let words: Vec<Word> = spans
        .iter()
        .map(|span| Word::new(span.as_str(input), span.start()))
        .collect();
    let ranges = spans_to_ranges(input, &words);
    assert_eq!(ranges.len(), words.len());
    for pair in ranges.windows(2) {
        let (a, b) = (&pair[0].0, &pair[1].0);
        assert!((a.start_line, a.start_char_utf16) <= (b.start_line, b.start_char_utf16));
    }
    for (range, _) in &ranges {
        assert!(
            (range.start_line, range.start_char_utf16) <= (range.end_line, range.end_char_utf16)
        );
    }
}
