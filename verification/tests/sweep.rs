use pastelito::block::{Block, BlockKind, Word};
use pastelito::lines::{spans_to_ranges, LineCharRange};
use pastelito::matcher::{match_words, EndsWithIgnoreCase, IgnoreCase};
use pastelito::span::{ByteSpan, FullByteSpan};
use pastelito::tokenize::Tokenizer;

/// A small generator of numbers that gives the same run every time.
struct Numbers(u64);

impl Numbers {
    fn next(&mut self) -> u64 {
        self.0 ^= self.0 << 13;
        self.0 ^= self.0 >> 7;
        self.0 ^= self.0 << 17;
        self.0
    }

    fn below(&mut self, n: usize) -> usize {
        (self.next() % n as u64) as usize
    }

    fn text(&mut self, alphabet: &[&str], max: usize) -> String {
        let n = self.below(max + 1);
        (0..n).map(|_| alphabet[self.below(alphabet.len())]).collect()
    }
}

const ALPHABET: &[&str] = &[
    "a", "b", "n", "t", "s", "l", "r", "e", "m", "I", "'", "'", "\"", "(", ")", "[", "]", "$", ",",
    ".", "!", "?", ";", ":", "%", "-", "3", " ", " ", "\n", "\t", "\u{2009}", "\u{e9}", "\u{1f995}",
    "'s", "n't", "'ll", "'re", "'m",
];

/// The words of one token, by the rules of the tokenizer, spelled out with
/// the string methods of the standard library.
fn split(mut token: &str) -> Vec<&str> {
    let mut words = Vec::new();
    let mut suffixes = Vec::new();
    while let Some(c) = token.chars().next() {
        if !"$(\"'[".contains(c) {
            break;
        }
        words.push(&token[..c.len_utf8()]);
        token = &token[c.len_utf8()..];
    }
    'contractions: loop {
        for marker in ["'ll", "'s", "'re", "'m", "n't"] {
            if let Some(at) = token.find(marker) {
                if at > 0 {
                    words.push(&token[..at]);
                }
                words.push(&token[at..at + marker.len()]);
                token = &token[at + marker.len()..];
                continue 'contractions;
            }
        }
        break;
    }
    while let Some(c) = token.chars().last() {
        if !",)\"]!;.?:'%".contains(c) {
            break;
        }
        suffixes.push(&token[token.len() - c.len_utf8()..]);
        token = &token[..token.len() - c.len_utf8()];
    }
    if !token.is_empty() {
        words.push(token);
    }
    words.extend(suffixes.into_iter().rev());
    words
}

#[test]
fn the_tokenizer_agrees_with_its_rules_on_many_texts() {
    let mut numbers = Numbers(0x9e3779b97f4a7c15);
    for _ in 0..2000 {
        let input = numbers.text(ALPHABET, 24);
        let mut expected: Vec<(usize, &str)> = Vec::new();
        let mut at = 0;
        for token in input.split_whitespace() {
            at += input[at..].find(token).unwrap();
            for word in split(token) {
                expected.push((at, word));
                at += word.len();
            }
        }

        let span = FullByteSpan::of_document(&input);
        let block = Block::singleton(BlockKind::Paragraph, span.as_span());
        let words = Tokenizer {}.tokenize(&input, block);
        let found: Vec<(usize, &str)> =
            words.iter().map(|word| (word.as_offset(), word.as_str())).collect();
        assert_eq!(found, expected, "input={:?}", input);

        let joined: String = words.iter().map(|word| word.as_str()).collect();
        let stripped: String = input.chars().filter(|c| !c.is_whitespace()).collect();
        assert_eq!(joined, stripped, "input={:?}", input);
    }
}

#[test]
fn spans_agree_with_the_string_methods_on_many_texts() {
    let mut numbers = Numbers(0x2545f4914f6cdd1d);
    for _ in 0..2000 {
        let input = numbers.text(ALPHABET, 16);
        let span = FullByteSpan::of_document(&input);
        assert_eq!(span.trim().as_str(), input.trim(), "input={:?}", input);
        assert_eq!(
            span.skip_while(|c| c.is_whitespace()).as_str(),
            input.trim_start(),
            "input={:?}",
            input
        );
        let tokens: Vec<&str> = span.split_whitespace().iter().map(|t| t.as_str()).collect();
        assert_eq!(tokens, input.split_whitespace().collect::<Vec<_>>(), "input={:?}", input);
        assert_eq!(span.last(), input.chars().last());
        for needle in ["'s", " ", "\u{e9}", "", "nt"] {
            let parts = span.split3(needle).map(|(a, b, c)| (a.as_str(), b.as_str(), c.as_str()));
            let expected = input
                .find(needle)
                .map(|at| (&input[..at], needle, &input[at + needle.len()..]));
            assert_eq!(parts, expected, "input={:?} needle={:?}", input, needle);
        }
    }
}

/// The line and the column of a byte offset, counted from the start.
fn place(input: &str, offset: usize) -> (u32, u32) {
    let before = &input[..offset];
    let line = before.matches('\n').count() as u32;
    let column: usize = before
        .rsplit('\n')
        .next()
        .unwrap_or("")
        .chars()
        .map(|c| c.len_utf16())
        .sum();
    (line, column as u32)
}

#[test]
fn lines_and_columns_agree_with_a_count_from_the_start() {
    let mut numbers = Numbers(0xd1342543de82ef95);
    for _ in 0..500 {
        let input = numbers.text(ALPHABET, 30);
        let cuts: Vec<usize> = (0..=input.len()).filter(|&i| input.is_char_boundary(i)).collect();
        let mut spans: Vec<ByteSpan> = (0..8)
            .map(|_| {
                let a = cuts[numbers.below(cuts.len())];
                let b = cuts[numbers.below(cuts.len())];
                ByteSpan::new_unchecked(a.min(b), a.max(b))
            })
            .collect();
        spans.sort();
        let words: Vec<Word> =
            spans.iter().map(|span| Word::new(span.as_str(&input), span.start())).collect();
        let found: Vec<LineCharRange> =
            spans_to_ranges(&input, &words).into_iter().map(|(range, _)| range).collect();
        let expected: Vec<LineCharRange> = spans
            .iter()
            .map(|span| {
                let (start_line, start_column) = place(&input, span.start());
                let (end_line, end_column) = place(&input, span.end());
                LineCharRange::new(start_line, start_column, end_line, end_column)
            })
            .collect();
        assert_eq!(found, expected, "input={:?}", input);
        for pair in found.windows(2) {
            assert!(
                (pair[0].start_line, pair[0].start_char_utf16)
                    <= (pair[1].start_line, pair[1].start_char_utf16)
            );
        }
    }
}

#[test]
fn patterns_on_text_agree_with_the_string_methods() {
    let mut numbers = Numbers(0x853c49e6748fea9b);
    let letters = &["a", "A", "t", "T", "i", "I", "o", "n", "N", "\u{e9}", "\u{c9}", "-"];
    for _ in 0..2000 {
        let text = numbers.text(letters, 6);
        let block = Block::new(BlockKind::Paragraph, vec![Word::new(&text, 0)]);
        for suffix in ["ion", "at", "n", ""] {
            let expected = text.chars().count() > suffix.len()
                && text.is_char_boundary(text.len() - suffix.len())
                && text[text.len() - suffix.len()..].eq_ignore_ascii_case(suffix);
            let found = !match_words(&block, &EndsWithIgnoreCase::new(suffix)).is_empty();
            assert_eq!(found, expected, "text={:?} suffix={:?}", text, suffix);
        }
        for other in ["ion", "tat", "\u{e9}", ""] {
            let found = !match_words(&block, &IgnoreCase::new(other)).is_empty();
            assert_eq!(found, text.eq_ignore_ascii_case(other), "text={:?}", text);
        }
    }
}
