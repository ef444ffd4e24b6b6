use uninorm::{nfc, nfd, nfkc, nfkd};

fn t_nfd(input: &str, expected: &str) {
    assert_eq!(nfd(input), expected);
}

#[test]
fn test_nfd() {
    t_nfd("abc", "abc");
    t_nfd("\u{1e0b}\u{1c4}", "d\u{307}\u{1c4}");
    t_nfd("\u{2026}", "\u{2026}");
    t_nfd("\u{2126}", "\u{3a9}");
    t_nfd("\u{1e0b}\u{323}", "d\u{323}\u{307}");
    t_nfd("\u{1e0d}\u{307}", "d\u{323}\u{307}");
    t_nfd("a\u{301}", "a\u{301}");
    t_nfd("\u{301}a", "\u{301}a");
    t_nfd("\u{d4db}", "\u{1111}\u{1171}\u{11b6}");
    t_nfd("\u{ac1c}", "\u{1100}\u{1162}");
}

fn t_nfkd(input: &str, expected: &str) {
    assert_eq!(nfkd(input), expected);
}

#[test]
fn test_nfkd() {
    t_nfkd("abc", "abc");
    t_nfkd("\u{1e0b}\u{1c4}", "d\u{307}DZ\u{30c}");
    t_nfkd("\u{2026}", "...");
    t_nfkd("\u{2126}", "\u{3a9}");
    t_nfkd("\u{1e0b}\u{323}", "d\u{323}\u{307}");
    t_nfkd("\u{1e0d}\u{307}", "d\u{323}\u{307}");
    t_nfkd("a\u{301}", "a\u{301}");
    t_nfkd("\u{301}a", "\u{301}a");
    t_nfkd("\u{d4db}", "\u{1111}\u{1171}\u{11b6}");
    t_nfkd("\u{ac1c}", "\u{1100}\u{1162}");
}

fn t_nfc(input: &str, expected: &str) {
    assert_eq!(nfc(input), expected);
}

#[test]
fn test_nfc() {
    t_nfc("abc", "abc");
    t_nfc("\u{1e0b}\u{1c4}", "\u{1e0b}\u{1c4}");
    t_nfc("\u{2026}", "\u{2026}");
    t_nfc("\u{2126}", "\u{3a9}");
    t_nfc("\u{1e0b}\u{323}", "\u{1e0d}\u{307}");
    t_nfc("\u{1e0d}\u{307}", "\u{1e0d}\u{307}");
    t_nfc("a\u{301}", "\u{e1}");
    t_nfc("\u{301}a", "\u{301}a");
    t_nfc("\u{d4db}", "\u{d4db}");
    t_nfc("\u{ac1c}", "\u{ac1c}");
    t_nfc("a\u{300}\u{305}\u{315}\u{5ae}b", "\u{e0}\u{5ae}\u{305}\u{315}b");
}

fn t_nfkc(input: &str, expected: &str) {
    assert_eq!(nfkc(input), expected);
}

#[test]
fn test_nfkc() {
    t_nfkc("abc", "abc");
    t_nfkc("\u{1e0b}\u{1c4}", "\u{1e0b}D\u{17d}");
    t_nfkc("\u{2026}", "...");
    t_nfkc("\u{2126}", "\u{3a9}");
    t_nfkc("\u{1e0b}\u{323}", "\u{1e0d}\u{307}");
    t_nfkc("\u{1e0d}\u{307}", "\u{1e0d}\u{307}");
    t_nfkc("a\u{301}", "\u{e1}");
    t_nfkc("\u{301}a", "\u{301}a");
    t_nfkc("\u{d4db}", "\u{d4db}");
    t_nfkc("\u{ac1c}", "\u{ac1c}");
    t_nfkc("a\u{300}\u{305}\u{315}\u{5ae}b", "\u{e0}\u{5ae}\u{305}\u{315}b");
}

#[test]
fn test_hangul_round_trip() {
    // U+AC1C decomposes to L+V jamo and recomposes from them.
    assert_eq!(nfd("\u{ac1c}"), "\u{1100}\u{1162}");
    assert_eq!(nfc("\u{1100}\u{1162}"), "\u{ac1c}");
    // An LVT syllable round-trips through its three jamo.
    assert_eq!(nfc("\u{1111}\u{1171}\u{11b6}"), "\u{d4db}");
}

#[test]
fn test_discontiguous_composition() {
    // The acute accent combines with the base letter across the
    // intervening mark of lower combining class.
    assert_eq!(nfc("a\u{05ae}\u{0301}"), "\u{e1}\u{5ae}");
    assert_eq!(nfd("\u{e1}\u{5ae}"), "a\u{5ae}\u{301}");
}

#[test]
fn test_idempotence_samples() {
    let samples = [
        "abc",
        "\u{1e0b}\u{1c4}",
        "\u{2126}",
        "a\u{301}",
        "\u{301}a",
        "\u{d4db}",
        "\u{ac1c}",
        "a\u{300}\u{305}\u{315}\u{5ae}b",
        "\u{0344}\u{0344}\u{0344}",
    ];
    for s in samples {
        assert_eq!(nfd(&nfd(s)), nfd(s));
        assert_eq!(nfkd(&nfkd(s)), nfkd(s));
        assert_eq!(nfc(&nfc(s)), nfc(s));
        assert_eq!(nfkc(&nfkc(s)), nfkc(s));
    }
}
