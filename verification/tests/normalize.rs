use uninorm::compose_hangul;

// Regression test from a bugfix where we were composing an LV_Syllable with
// T_BASE directly. (We should only compose an LV_Syllable with a character
// in the range `T_BASE + 1 ... T_LAST`.)
#[test]
fn test_hangul_composition() {
    assert_eq!(compose_hangul('\u{c8e0}', '\u{11a7}'), None);
}

#[test]
fn test_hangul_composition_lv() {
    // An L jamo followed by a V jamo composes into the LV syllable.
    assert_eq!(compose_hangul('\u{1100}', '\u{1162}'), Some('\u{ac1c}'));
    // An LV syllable followed by a real T jamo composes further.
    assert_eq!(compose_hangul('\u{ac00}', '\u{11a8}'), Some('\u{ac01}'));
    // An LVT syllable composes no further.
    assert_eq!(compose_hangul('\u{ac01}', '\u{11a8}'), None);
    // Two starters outside the jamo ranges do not compose.
    assert_eq!(compose_hangul('a', 'b'), None);
}
