use pastelito::data::{ContextSuffix, ContextWord, Feature};
use pastelito::model::{Scores, WeightRange};
use pastelito::pos::POS;

fn eq(data: &str, expected: Feature) {
    let actual = Feature::from(data.to_owned());
    assert_eq!(actual, expected);
    assert_eq!(Feature::parse(data), Some(expected));
}

fn word(text: &str) -> ContextWord {
    let mut chars = [0u8; 23];
    let bytes = text.as_bytes();
    for (i, b) in bytes.iter().enumerate() {
        chars[23 - bytes.len() + i] = *b;
    }
    let word = ContextWord::new_from_model(text);
    assert_eq!(word.bytes(), chars);
    word
}

#[test]
fn test_feature() {
    eq("bias", Feature::Bias);

    eq("i suffix a", Feature::Suffix(ContextSuffix::new([0, 0, 97])));
    eq("i suffix ab", Feature::Suffix(ContextSuffix::new([0, 97, 98])));
    eq("i suffix abc", Feature::Suffix(ContextSuffix::new([97, 98, 99])));
    eq("i suffix abcd", Feature::Suffix(ContextSuffix::new([98, 99, 100])));

    eq("i-1 suffix a", Feature::IMinus1Suffix(ContextSuffix::new([0, 0, 97])));
    eq("i-1 suffix ab", Feature::IMinus1Suffix(ContextSuffix::new([0, 97, 98])));
    eq("i-1 suffix abc", Feature::IMinus1Suffix(ContextSuffix::new([97, 98, 99])));
    eq("i-1 suffix abcd", Feature::IMinus1Suffix(ContextSuffix::new([98, 99, 100])));

    eq("i-1 tag CC", Feature::IMinus1Tag(POS::CoordinatingConjunction));

    eq("i-2 tag CC", Feature::IMinus2Tag(POS::CoordinatingConjunction));

    eq(
        "i tag+i-2 tag CC CC",
        Feature::ITagPlusIMinus2Tag(POS::CoordinatingConjunction, POS::CoordinatingConjunction),
    );

    let alphabet = "abcdefghijklmnopqrstuvw";
    for n in 1..=alphabet.len() {
        let text = &alphabet[..n];
        let label = format!("i word {}", text);
        eq(&label, Feature::IWord(word(text)));
    }

    eq(
        "i-1 tag+i word CC a",
        Feature::IMinus1TagPlusIWord(POS::CoordinatingConjunction, word("a")),
    );

    eq("i-1 word a", Feature::IMinus1Word(word("a")));

    eq("i+1 word a", Feature::IPlus1Word(word("a")));

    eq("i+1 suffix a", Feature::IPlus1Suffix(ContextSuffix::new([0, 0, 97])));
    eq("i+1 suffix ab", Feature::IPlus1Suffix(ContextSuffix::new([0, 97, 98])));
    eq("i+1 suffix abc", Feature::IPlus1Suffix(ContextSuffix::new([97, 98, 99])));

    eq("i+2 word a", Feature::IPlus2Word(word("a")));

    eq("i-2 word a", Feature::IMinus2Word(word("a")));
}

#[test]
fn pos_indexes() {
    let actual = (0..POS::COUNT)
        .map(|i| POS::from_index(i).unwrap().index())
        .collect::<Vec<_>>();
    let expected = (0..POS::COUNT).collect::<Vec<_>>();
    assert_eq!(actual, expected);
    assert_eq!(POS::COUNT, 49);
    assert_eq!(POS::from_index(POS::COUNT), None);
}

#[test]
fn a_label_that_names_no_feature_gives_none() {
    assert_eq!(Feature::parse("unknown"), None);
    assert_eq!(Feature::parse("i word abcdefghijklmnopqrstuvwx"), None);
    assert_eq!(Feature::parse("i word caf\u{e9}"), None);
    assert_eq!(Feature::parse("i suffix "), None);
    assert_eq!(Feature::parse("i suffix \u{e9}"), None);
    assert_eq!(Feature::parse("i pref1 "), None);
    assert_eq!(Feature::parse("i pref1 \u{e9}"), None);
    assert_eq!(Feature::parse("i-1 tag XX"), None);
    assert_eq!(Feature::parse("i tag+i-2 tag CC"), None);
    assert_eq!(Feature::parse("i tag+i-2 tag CC XX"), None);
    assert_eq!(Feature::parse("i-1 tag+i word CC"), None);
    assert_eq!(Feature::parse("Bias"), None);
    assert_eq!(Feature::parse(""), None);
}

#[test]
fn the_first_character_alone_counts_for_pref1() {
    assert_eq!(Feature::parse("i pref1 a"), Some(Feature::Pref1(97)));
    assert_eq!(Feature::parse("i pref1 abc"), Some(Feature::Pref1(97)));
    assert_eq!(
        Feature::parse("i-1 tag+i word PRP$ hello world"),
        Some(Feature::IMinus1TagPlusIWord(
            POS::PossesivePronoun,
            ContextWord::new_from_model("hello world")
        ))
    );
    assert_eq!(Feature::num_features(), 14);
}

#[test]
fn labels_of_tags_go_both_ways() {
    for i in 0..POS::COUNT {
        let pos = POS::from_index(i).unwrap();
        assert_eq!(POS::from_label(pos.label()), Some(pos));
    }
    assert_eq!(POS::from_label("NN"), Some(POS::NounSingularOrMass));
    assert_eq!(POS::from_label("-START2-"), Some(POS::Start2));
    assert_eq!(POS::from_label("``"), Some(POS::Backtick));
    assert_eq!(POS::from_label("nn"), None);
    assert_eq!(POS::NounSingularOrMass.label(), "NN");
    assert_eq!(POS::PossesiveWhPronoun.label(), "WP$");
}

#[test]
fn words_of_context() {
    let year = ContextWord::new_from_word("1984", Some(POS::CardinalNumber)).unwrap();
    assert_eq!(&year.bytes()[18..], b"!YEAR");
    assert_eq!(year.bytes()[17], 0);
    let digits = ContextWord::new_from_word("12345", Some(POS::CardinalNumber)).unwrap();
    assert_eq!(&digits.bytes()[16..], b"!DIGITS");
    let digits = ContextWord::new_from_word("19a4", Some(POS::CardinalNumber)).unwrap();
    assert_eq!(&digits.bytes()[16..], b"!DIGITS");
    let digits = ContextWord::new_from_word("\u{1f995}", Some(POS::CardinalNumber)).unwrap();
    assert_eq!(&digits.bytes()[16..], b"!DIGITS");
    let hyphen = ContextWord::new_from_word("well-known", None).unwrap();
    assert_eq!(&hyphen.bytes()[16..], b"!HYPHEN");
    let hyphen = ContextWord::new_from_word("caf\u{e9}-au-lait", Some(POS::Adjective)).unwrap();
    assert_eq!(&hyphen.bytes()[16..], b"!HYPHEN");
    let minus = ContextWord::new_from_word("-4", None).unwrap();
    assert_eq!(&minus.bytes()[21..], b"-4");
    assert_eq!(ContextWord::new_from_word("1984", None), Some(ContextWord::new_from_model("1984")));
    assert_eq!(&ContextWord::new_from_model("1984").bytes()[19..], b"1984");
    assert_eq!(ContextWord::new_from_word("caf\u{e9}", None), None);
    assert_eq!(ContextWord::new_from_word("abcdefghijklmnopqrstuvwx", None), None);
    let empty = ContextWord::new_from_word("", None).unwrap();
    assert_eq!(empty.bytes(), [0u8; 23]);

    assert_eq!(&ContextWord::start().bytes()[16..], b"-START-");
    assert_eq!(&ContextWord::start2().bytes()[15..], b"-START2-");
    assert_eq!(&ContextWord::end().bytes()[18..], b"-END-");
    assert_eq!(&ContextWord::end2().bytes()[17..], b"-END2-");
    assert_eq!(ContextWord::LENGTH, 23);

    assert_eq!(ContextWord::start().suffix(), ContextSuffix::new([b'R', b'T', b'-']));
    assert_eq!(
        ContextWord::new_from_model("ab").suffix(),
        ContextSuffix::new([0, b'a', b'b'])
    );
}

#[test]
fn suffixes_of_tokens() {
    assert_eq!(ContextSuffix::from_token(""), None);
    assert_eq!(ContextSuffix::from_token("a"), Some(ContextSuffix::new([0, 0, 97])));
    assert_eq!(ContextSuffix::from_token("\u{e9}bcd"), Some(ContextSuffix::new([98, 99, 100])));
    assert_eq!(ContextSuffix::from_token("a\u{e9}cd"), None);
    assert_eq!(ContextSuffix::from_token("\u{e9}a"), None);
    assert_eq!(ContextSuffix::new([1, 2, 3]).bytes(), [1, 2, 3]);
}

#[test]
fn scores_hold_at_their_ends_and_the_first_of_the_best_wins() {
    let mut scores = Scores::default();
    assert_eq!(scores.max(), POS::Start);
    scores.update(POS::Adjective, 5);
    scores.update(POS::Comma, 5);
    assert_eq!(scores.max(), POS::Comma);
    scores.update(POS::Adjective, 1);
    assert_eq!(scores.max(), POS::Adjective);
    assert_eq!(scores.get(POS::Adjective), 6);
    scores.update(POS::Adjective, -10);
    assert_eq!(scores.get(POS::Adjective), -4);
    assert_eq!(scores.max(), POS::Comma);

    let mut scores = Scores::default();
    for _ in 0..3 {
        for _ in 0..(1u64 << 16) {
            scores.update(POS::Backtick, i32::MIN);
        }
    }
    assert_eq!(scores.get(POS::Backtick), 3 * (1i64 << 16) * (i32::MIN as i64));
}

#[test]
fn weight_ranges_keep_the_low_bits() {
    let range = WeightRange::new(3, 7);
    assert_eq!(range.as_range(), 3..7);
    let range = WeightRange::new((1usize << 32) + 5, 9);
    assert_eq!(range.as_range(), 5..9);
}
