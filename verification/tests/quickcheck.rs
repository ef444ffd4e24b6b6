use uninorm::{
    is_nfc, is_nfc_quick, is_nfc_stream_safe_quick, is_nfd, is_nfd_quick, is_nfd_stream_safe_quick,
    is_nfkc, is_nfkd, is_nfkd_quick, nfc, nfd, nfkc, nfkd, IsNormalized,
};

#[test]
fn test_stream_safe_nfd() {
    let okay = "Da\u{031b}\u{0316}\u{0317}\u{0318}\u{0319}\u{031c}\u{031d}\u{0300}\u{0301}\u{0302}\u{0303}\u{0304}\u{0305}\u{0306}\u{0307}\u{0308}\u{0309}\u{030a}\u{030b}\u{030c}\u{030d}\u{030e}\u{030f}\u{0310}\u{0311}\u{0312}\u{0313}\u{0314}\u{0315}\u{031a}ngerzone";
    assert_eq!(is_nfd_stream_safe_quick(okay), IsNormalized::Yes);

    let too_much = "Da\u{031b}\u{0316}\u{0317}\u{0318}\u{0319}\u{031c}\u{031d}\u{031e}\u{0300}\u{0301}\u{0302}\u{0303}\u{0304}\u{0305}\u{0306}\u{0307}\u{0308}\u{0309}\u{030a}\u{030b}\u{030c}\u{030d}\u{030e}\u{030f}\u{0310}\u{0311}\u{0312}\u{0313}\u{0314}\u{0315}\u{031a}ngerzone";
    assert_eq!(is_nfd_stream_safe_quick(too_much), IsNormalized::No);
}

#[test]
fn test_stream_safe_nfc() {
    let okay = "ok\u{e0}\u{031b}\u{0316}\u{0317}\u{0318}\u{0319}\u{031c}\u{031d}\u{0301}\u{0302}\u{0303}\u{0304}\u{0305}\u{0306}\u{0307}\u{0308}\u{0309}\u{030a}\u{030b}\u{030c}\u{030d}\u{030e}\u{030f}\u{0310}\u{0311}\u{0312}\u{0313}\u{0314}\u{0315}\u{031a}y";
    assert_eq!(is_nfc_stream_safe_quick(okay), IsNormalized::Maybe);

    let too_much = "not ok\u{e0}\u{031b}\u{0316}\u{0317}\u{0318}\u{0319}\u{031c}\u{031d}\u{031e}\u{0301}\u{0302}\u{0303}\u{0304}\u{0305}\u{0306}\u{0307}\u{0308}\u{0309}\u{030a}\u{030b}\u{030c}\u{030d}\u{030e}\u{030f}\u{0310}\u{0311}\u{0312}\u{0313}\u{0314}\u{0315}\u{031a}y";
    assert_eq!(is_nfc_stream_safe_quick(too_much), IsNormalized::No);
}

#[test]
fn test_quick_check_properties() {
    // A character with a canonical decomposition can never appear in NFD.
    assert_eq!(is_nfd_quick("\u{2126}"), IsNormalized::No);
    // The same singleton is excluded from composition, so not NFC either.
    assert_eq!(is_nfc_quick("\u{2126}"), IsNormalized::No);
    // A bare combining mark may combine backwards: NFC cannot be decided
    // without normalizing.
    assert_eq!(is_nfc_quick("a\u{301}"), IsNormalized::Maybe);
    // Marks out of canonical order are decided immediately.
    assert_eq!(is_nfd_quick("d\u{307}\u{323}"), IsNormalized::No);
    // Plain ASCII is in every form.
    assert_eq!(is_nfkd_quick("abc"), IsNormalized::Yes);
}

#[test]
fn test_authoritative_checks() {
    assert!(is_nfd("a\u{301}"));
    assert!(!is_nfc("a\u{301}"));
    assert!(is_nfc("\u{e1}"));
    assert!(!is_nfd("\u{e1}"));
    assert!(is_nfkc("\u{e1}"));
    assert!(!is_nfkd("\u{2026}"));
    assert!(is_nfkd("..."));
    // The Maybe fallback resolves correctly in both directions.
    assert!(is_nfc("\u{1e0d}\u{307}"));
    assert!(!is_nfc("\u{1e0b}\u{323}"));
}

#[test]
fn test_quick_check_agrees_with_normalization() {
    // Quick-check soundness on samples: the quick check never contradicts
    // the authoritative transforms.
    let samples = ["abc", "\u{1e0b}\u{1c4}", "\u{2126}", "a\u{301}", "\u{301}a", "\u{ac1c}"];
    for s in samples {
        assert_ne!(is_nfc_quick(&nfc(s)), IsNormalized::No);
        assert_ne!(is_nfd_quick(&nfd(s)), IsNormalized::No);
        assert_ne!(is_nfkd_quick(&nfkd(s)), IsNormalized::No);
        assert!(is_nfc(&nfc(s)));
        assert!(is_nfd(&nfd(s)));
        assert!(is_nfkc(&nfkc(s)));
        assert!(is_nfkd(&nfkd(s)));
    }
}
