use uninorm::{classify_nonstarters, stream_safe};

#[test]
fn test_simple() {
    let technically_okay = "Da\u{0300}\u{0301}\u{0302}\u{0303}\u{0304}\u{0305}\u{0306}\u{0307}\u{0308}\u{0309}\u{030a}\u{030b}\u{030c}\u{030d}\u{030e}\u{030f}\u{0310}\u{0311}\u{0312}\u{0313}\u{0314}\u{0315}\u{0316}\u{0317}\u{0318}\u{0319}\u{031a}\u{031b}\u{031c}\u{031d}ngerzone";
    assert_eq!(stream_safe(technically_okay), technically_okay);

    let too_much = "Da\u{0300}\u{0301}\u{0302}\u{0303}\u{0304}\u{0305}\u{0306}\u{0307}\u{0308}\u{0309}\u{030a}\u{030b}\u{030c}\u{030d}\u{030e}\u{030f}\u{0310}\u{0311}\u{0312}\u{0313}\u{0314}\u{0315}\u{0316}\u{0317}\u{0318}\u{0319}\u{031a}\u{031b}\u{031c}\u{031d}\u{032e}ngerzone";
    assert_ne!(stream_safe(too_much), too_much);
}

#[test]
fn test_classify_nonstarters() {
    // Highest character in the `compat_fully_decomp` table is 2FA1D
    for ch in 0..0x2FA1E {
        let ch = match char::from_u32(ch) {
            Some(c) => c,
            None => continue,
        };
        let c = classify_nonstarters(ch);
        let mut s = vec![];
        unicode_normalization::char::decompose_compatible(ch, |c| s.push(c));

        assert_eq!(s.len(), c.decomposition_len);

        let num_leading = s
            .iter()
            .take_while(|&c| unicode_normalization::char::canonical_combining_class(*c) != 0)
            .count();
        let num_trailing = s
            .iter()
            .rev()
            .take_while(|&c| unicode_normalization::char::canonical_combining_class(*c) != 0)
            .count();

        assert_eq!(num_leading, c.leading_nonstarters);
        assert_eq!(num_trailing, c.trailing_nonstarters);
    }
}

#[test]
fn test_joiner_insertion() {
    // One starter, then 31 combining acute accents: the 31st would be the
    // 31st consecutive nonstarter, so a joiner precedes it and the run
    // restarts.
    let mut input = String::from("a");
    for _ in 0..31 {
        input.push('\u{0301}');
    }
    let mut expected = String::from("a");
    for _ in 0..30 {
        expected.push('\u{0301}');
    }
    expected.push('\u{034f}');
    expected.push('\u{0301}');
    assert_eq!(stream_safe(&input), expected);
}

#[test]
fn test_bounded_runs() {
    // The transformed output of a pathological run never holds more than
    // 30 consecutive nonstarters, measured on the NFKD image.
    let mut input = String::new();
    input.push('x');
    for _ in 0..100 {
        input.push('\u{0301}');
    }
    // U+0344 decomposes to two nonstarters.
    for _ in 0..20 {
        input.push('\u{0344}');
    }
    let out = uninorm::nfkd(&stream_safe(&input));
    let mut run = 0;
    let mut longest = 0;
    for c in out.chars() {
        if unicode_normalization::char::canonical_combining_class(c) != 0 {
            run += 1;
            if run > longest {
                longest = run;
            }
        } else {
            run = 0;
        }
    }
    assert!(longest <= 30);
}

#[test]
fn test_classify_samples() {
    let a = classify_nonstarters('a');
    assert_eq!(a.leading_nonstarters, 0);
    assert_eq!(a.trailing_nonstarters, 0);
    assert_eq!(a.decomposition_len, 1);

    // U+0344 decomposes to U+0308 U+0301, both nonstarters.
    let d = classify_nonstarters('\u{0344}');
    assert_eq!(d.leading_nonstarters, 2);
    assert_eq!(d.trailing_nonstarters, 2);
    assert_eq!(d.decomposition_len, 2);

    // An LVT Hangul syllable decomposes to three starter jamo.
    let h = classify_nonstarters('\u{d4db}');
    assert_eq!(h.leading_nonstarters, 0);
    assert_eq!(h.trailing_nonstarters, 0);
    assert_eq!(h.decomposition_len, 3);

    // U+01C4 decomposes to D, Z and a trailing caron.
    let dz = classify_nonstarters('\u{01c4}');
    assert_eq!(dz.leading_nonstarters, 0);
    assert_eq!(dz.trailing_nonstarters, 1);
    assert_eq!(dz.decomposition_len, 3);
}
