use pastelito::block::Word;
use pastelito::pos::POS;
use pastelito::rule::{str_le, MeasureKey, Measurement, Warning};
use pastelito::sort::sort;
use pastelito::span::{ByteSpan, FullByteSpan};
use pastelito::text::{
    at_boundary, byte_len, first_char, slice, split_at_space, str_eq, strip_prefix, to_ascii_lower,
};

#[test]
fn boundaries_are_where_characters_start() {
    let data = "a\u{e9}\u{1f995}z";
    let cuts: Vec<usize> = (0..=data.len() + 1).filter(|&i| at_boundary(data, i)).collect();
    assert_eq!(cuts, vec![0, 1, 3, 7, 8]);
    assert_eq!(byte_len(data), 8);
    assert_eq!(slice(data, 1, 7), "\u{e9}\u{1f995}");
    assert_eq!(slice(data, 3, 3), "");
    assert_eq!(first_char(data), Some('a'));
    assert_eq!(first_char(&data[1..]), Some('\u{e9}'));
    assert_eq!(first_char(""), None);
}

#[test]
fn strings_are_compared_by_their_characters() {
    assert!(str_eq("", ""));
    assert!(str_eq("caf\u{e9}", "caf\u{e9}"));
    assert!(!str_eq("cafe", "caf\u{e9}"));
    assert!(!str_eq("ab", "abc"));
    assert!(!str_eq("abd", "abc"));

    let texts = ["", "a", "ab", "b", "B", "\u{e9}", "a\u{1f995}", "a\u{e9}"];
    for a in texts {
        for b in texts {
            assert_eq!(str_le(a, b), a <= b, "{:?} {:?}", a, b);
        }
    }

    assert_eq!(to_ascii_lower('A'), 'a');
    assert_eq!(to_ascii_lower('Z'), 'z');
    assert_eq!(to_ascii_lower('a'), 'a');
    assert_eq!(to_ascii_lower('['), '[');
    assert_eq!(to_ascii_lower('@'), '@');
    assert_eq!(to_ascii_lower('\u{c9}'), '\u{c9}');
}

#[test]
fn prefixes_and_spaces_cut_a_string() {
    assert_eq!(strip_prefix("i word abc", "i word "), Some("abc"));
    assert_eq!(strip_prefix("i word ", "i word "), Some(""));
    assert_eq!(strip_prefix("i word", "i word "), None);
    assert_eq!(strip_prefix("\u{e9}t\u{e9}", "\u{e9}"), Some("t\u{e9}"));
    assert_eq!(strip_prefix("\u{e9}t\u{e9}", "\u{c3}"), None);
    assert_eq!(strip_prefix("abc", ""), Some("abc"));

    assert_eq!(split_at_space("CC a b"), Some(("CC", "a b")));
    assert_eq!(split_at_space(" a"), Some(("", "a")));
    assert_eq!(split_at_space("\u{e9} "), Some(("\u{e9}", "")));
    assert_eq!(split_at_space("a\u{a0}b"), None);
    assert_eq!(split_at_space(""), None);
}

#[test]
fn spans_are_checked_against_their_text() {
    let data = "a\u{e9}b";
    assert!(FullByteSpan::try_of_range(data, 0, 4).is_some());
    assert_eq!(FullByteSpan::try_of_range(data, 1, 3).unwrap().as_str(), "\u{e9}");
    assert!(FullByteSpan::try_of_range(data, 1, 2).is_none());
    assert!(FullByteSpan::try_of_range(data, 2, 3).is_none());
    assert!(FullByteSpan::try_of_range(data, 3, 1).is_none());
    assert!(FullByteSpan::try_of_range(data, 0, 5).is_none());

    // A range in order that ends within the text is taken as it is, also
    // where its ends are no character boundaries.
    let inside = FullByteSpan::of_range(data, 2..3);
    assert_eq!((inside.as_span().start(), inside.as_span().end()), (2, 3));
    assert!(!inside.is_empty());
    let nowhere = FullByteSpan::of_span(data, ByteSpan::new_unchecked(2, 2));
    assert!(nowhere.is_empty());
    assert_eq!(nowhere.last(), None);
    assert!(nowhere.split_first().is_none());
    assert!(nowhere.split_last().is_none());

    let span = FullByteSpan::of_range(data, 1..4);
    assert_eq!(span.as_span(), ByteSpan::of_range(1..4));
    assert_eq!(span.last(), Some('b'));
    assert!(!span.is_empty());
    assert_eq!(span.as_span().as_str(data), "\u{e9}b");
    assert!(ByteSpan::new_unchecked(2, 2).is_empty());
    assert!(FullByteSpan::of_span(data, ByteSpan::new_unchecked(4, 4)).split_last().is_none());
    assert!(FullByteSpan::of_span(data, ByteSpan::new_unchecked(4, 4)).split2("").is_some());
    assert!(span.split3("x").is_none());

    let word = Word::of_span(span);
    assert_eq!((word.as_offset(), word.as_str(), word.tag()), (1, "\u{e9}b", None));
    assert_eq!(word.as_span(), span.as_span());

    let mut word = word;
    word.set_tag(pastelito::pos::POS::Adverb);
    assert!(!word.is_unknown_tag());
    word.clear_tag();
    assert!(word.is_unknown_tag());
}

#[test]
fn sorting_keeps_what_there_is() {
    let warning = |start: usize, end: usize, message: &str| Warning {
        span: ByteSpan::new_unchecked(start, end),
        message: message.to_owned(),
    };
    let given = vec![
        warning(4, 9, "b"),
        warning(0, 3, "z"),
        warning(4, 9, "a"),
        warning(4, 5, "c"),
        warning(0, 3, "z"),
        warning(2, 20, ""),
    ];
    let mut expected = given.clone();
    expected.sort();
    assert_eq!(sort(given), expected);
    assert_eq!(sort(Vec::<Warning>::new()), Vec::new());
}

#[test]
fn sorting_many_items_gives_what_std_gives() {
    // A sequence without pattern, long enough to be split several times.
    let mut seed: u64 = 0x2545_f491_4f6c_dd1d;
    let mut given: Vec<Warning> = Vec::new();
    for _ in 0..1000 {
        seed = seed.wrapping_mul(6364136223846793005).wrapping_add(1442695040888963407);
        let start = ((seed >> 33) % 50) as usize;
        let len = ((seed >> 20) % 7) as usize;
        let message = if (seed >> 13) % 2 == 0 { "a" } else { "b" };
        given.push(Warning {
            span: ByteSpan::new_unchecked(start, start + len),
            message: message.to_owned(),
        });
    }
    let mut expected = given.clone();
    expected.sort();
    assert_eq!(sort(given), expected);
}

#[test]
fn measurements_of_one_rank_keep_their_order() {
    let word = |tag: POS| Word::new_with_tag("was", 4, tag);
    let given = vec![
        Measurement::new(MeasureKey::BeVerbs, word(POS::VerbPastTense)),
        Measurement::new(MeasureKey::Adjectives, word(POS::Adjective)),
        Measurement::new(MeasureKey::BeVerbs, word(POS::NounSingularOrMass)),
        Measurement::new(MeasureKey::BeVerbs, Word::new_with_tag("I", 0, POS::PersonalPronoun)),
        Measurement::new(MeasureKey::BeVerbs, word(POS::Adverb)),
    ];
    let mut expected = given.clone();
    expected.sort_by_key(|m| (m.word.as_span(), m.key.index()));
    let sorted = sort(given);
    assert_eq!(sorted, expected);
    let tags: Vec<Option<POS>> = sorted.iter().map(|m| m.word.tag()).collect();
    assert_eq!(
        tags,
        vec![
            Some(POS::PersonalPronoun),
            Some(POS::Adjective),
            Some(POS::VerbPastTense),
            Some(POS::NounSingularOrMass),
            Some(POS::Adverb),
        ]
    );
}

#[test]
fn white_space_is_what_unicode_says() {
    let spaces: Vec<u32> = (0x09..=0x0d)
        .chain([0x20, 0x85, 0xa0, 0x1680])
        .chain(0x2000..=0x200a)
        .chain([0x2028, 0x2029, 0x202f, 0x205f, 0x3000])
        .collect();
    let mut buffer = [0u8; 4];
    for code in 0..=0x10ffffu32 {
        if let Some(c) = char::from_u32(code) {
            let text: &str = c.encode_utf8(&mut buffer);
            let trimmed = FullByteSpan::of_document(text).trim();
            assert_eq!(trimmed.is_empty(), spaces.contains(&code), "code={:x}", code);
        }
    }
}
