use pastelito::span::{ByteSpan, FullByteSpan};

fn of(s: &str) -> FullByteSpan<'_> {
    FullByteSpan::of_document(s)
}

#[test]
fn test_multibyte() {
    let span = of("รณ");
    assert_eq!(span.as_str(), "รณ");
    assert_eq!(span.as_span().start(), 0);
    assert_eq!(span.as_span().end(), 6);
}

#[test]
fn test_split_first() {
    let span = of("  abc");
    let span = span.skip_while(|c| c.is_whitespace());
    let ((c, prefix), suffix) = span.split_first().unwrap();
    assert_eq!(c, 'a');
    assert_eq!(prefix.as_str(), "a");
    assert_eq!(suffix.as_str(), "bc");
}

#[test]
fn test_split_last() {
    let span = of("  abc");
    let span = span.skip_while(|c| c.is_whitespace());
    let (prefix, (c, suffix)) = span.split_last().unwrap();
    assert_eq!(prefix.as_str(), "ab");
    assert_eq!(c, 'c');
    assert_eq!(suffix.as_str(), "c");
}

#[test]
fn test_split2() {
    let span = of("  key=value=123");
    let span = span.skip_while(|c| c.is_whitespace());
    let (prefix, suffix) = span.split2("=").unwrap();
    assert_eq!(prefix.as_str(), "key");
    assert_eq!(suffix.as_str(), "value=123");
}

#[test]
fn test_split3() {
    let span = of("  key=value=123");
    let span = span.skip_while(|c| c.is_whitespace());
    let (prefix, needle, suffix) = span.split3("=").unwrap();
    assert_eq!(prefix.as_str(), "key");
    assert_eq!(needle.as_str(), "=");
    assert_eq!(suffix.as_str(), "value=123");
}

#[test]
fn test_skip_while() {
    let span = of("\n");
    let span = span.skip_while(|c| c.is_whitespace());
    assert!(span.is_empty(), "span={:?}", span);
}

#[test]
fn test_trim() {
    assert_eq!(of("").trim().as_str(), "");
    assert_eq!(of("abc").trim().as_span(), ByteSpan::new_unchecked(0, 3));
    assert_eq!(of(" abc").trim().as_span(), ByteSpan::new_unchecked(1, 4));
    assert_eq!(of("  abc").trim().as_span(), ByteSpan::new_unchecked(2, 5));
    assert_eq!(of("abc ").trim().as_span(), ByteSpan::new_unchecked(0, 3));
    assert_eq!(of("abc  ").trim().as_span(), ByteSpan::new_unchecked(0, 3));
    assert_eq!(of(" abc ").trim().as_span(), ByteSpan::new_unchecked(1, 4));
    assert_eq!(of("  abc  ").trim().as_span(), ByteSpan::new_unchecked(2, 5));
}

#[test]
fn test_split_whitespace() {
    let data = " Mary   had\ta\u{2009}little  \n\t lamb";
    let span = of(data);
    let tokens = span.split_whitespace();
    let tokens = tokens.iter().map(|span| span.as_str()).collect::<Vec<_>>();
    assert_eq!(tokens, vec!["Mary", "had", "a", "little", "lamb"]);

    let data = " abc";
    let span = of(data);
    let span = span.skip_while(|c| c.is_whitespace());
    let tokens = span.split_whitespace();
    let tokens = tokens.iter().map(|span| span.as_str()).collect::<Vec<_>>();
    assert_eq!(tokens, vec!["abc"]);
}
