// The combining-mark predicate comes straight from the UCD provider;
// these checks pin its behaviour on the ranges the library's ASCII fast
// paths rely on.
use unicode_normalization::char::is_combining_mark;

#[test]
fn test_is_combining_mark_ascii() {
    for cp in 0..0x7f {
        assert!(!is_combining_mark(char::from_u32(cp).unwrap()));
    }
}

#[test]
fn test_is_combining_mark_misc() {
    // https://github.com/unicode-rs/unicode-normalization/issues/16
    // U+11C3A BHAIKSUKI VOWEL SIGN O
    // Category: Mark, Nonspacing [Mn]
    assert!(is_combining_mark('\u{11C3A}'));

    // U+11C3F BHAIKSUKI SIGN VIRAMA
    // Category: Mark, Nonspacing [Mn]
    assert!(is_combining_mark('\u{11C3F}'));
}

#[test]
fn test_stream_safe_iterator() {
    let input: Vec<char> = "a\u{0301}b".chars().collect();
    let mut it = uninorm::StreamSafe::new(input);
    let mut out = String::new();
    while let Some(c) = it.next() {
        out.push(c);
    }
    assert_eq!(out, "a\u{0301}b");
}
