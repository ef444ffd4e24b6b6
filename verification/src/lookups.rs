//! Trusted interface to the Unicode Character Database provider.
//!
//! The per-character properties that drive normalization (combining
//! classes, full decompositions, the primary composition table and the
//! per-form quick-check properties) are tabulated data, generated offline
//! from the UCD. This module names each table lookup with an
//! uninterpreted spec function and wraps the provider's accessors so the
//! verified algorithms can be proved against those names.

use vstd::prelude::*;

use crate::quick_check::IsNormalized;

verus! {

/// Combining class assigned to `c` by the UCD (0 = starter).
pub uninterp spec fn combining_class_of(c: char) -> u8;

/// Full canonical decomposition tabulated for a non-Hangul `c`
/// (`c` itself when the UCD maps `c` to no other sequence).
pub uninterp spec fn canonical_expansion(c: char) -> Seq<char>;

/// Full compatibility decomposition tabulated for a non-Hangul `c`
/// (`c` itself when the UCD maps `c` to no other sequence).
pub uninterp spec fn compatibility_expansion(c: char) -> Seq<char>;

/// Primary composite for the pair `(a, b)`, excluding Hangul composition
/// and the composition exclusion set.
pub uninterp spec fn composition_entry(a: char, b: char) -> Option<char>;

/// Per-character quick-check property for NFC.
pub uninterp spec fn qc_nfc_property(c: char) -> IsNormalized;

/// Per-character quick-check property for NFD.
pub uninterp spec fn qc_nfd_property(c: char) -> IsNormalized;

/// Per-character quick-check property for NFKC.
pub uninterp spec fn qc_nfkc_property(c: char) -> IsNormalized;

/// Per-character quick-check property for NFKD.
pub uninterp spec fn qc_nfkd_property(c: char) -> IsNormalized;

/// A code point that `char` can represent.
pub open spec fn is_unicode_scalar(v: u32) -> bool {
    v < 0xD800 || (0xE000 <= v && v <= 0x10FFFF)
}

/// Relies on core::char::from_u32: `Some` exactly on Unicode scalar
/// values, yielding the character with that code.
pub assume_specification[ core::char::from_u32 ](i: u32) -> (r: Option<char>)
    ensures
        r is Some <==> is_unicode_scalar(i),
        r matches Some(c) ==> c as u32 == i,
;

/// Relies on unicode_normalization::char::canonical_combining_class:
/// the tabulated canonical combining class of `c`.
#[verifier::external_body]
pub(crate) fn combining_class(c: char) -> (r: u8)
    ensures
        r == combining_class_of(c),
{
    unicode_normalization::char::canonical_combining_class(c)
}

/// Relies on unicode_normalization::char::decompose_canonical: emits the
/// full (recursively expanded) canonical decomposition of `c`, which for
/// a non-Hangul character is the tabulated sequence, or `c` itself.
#[verifier::external_body]
pub(crate) fn canonical_decomposition(c: char) -> (r: Vec<char>)
    requires
        !crate::hangul::is_hangul_syllable_spec(c),
    ensures
        r@ == canonical_expansion(c),
{
    let mut out = Vec::new();
    unicode_normalization::char::decompose_canonical(c, |d| out.push(d));
    out
}

/// Relies on unicode_normalization::char::decompose_compatible: emits the
/// full compatibility decomposition of `c` (the compatibility table,
/// falling back to the canonical table, falling back to `c` itself).
#[verifier::external_body]
pub(crate) fn compatibility_decomposition(c: char) -> (r: Vec<char>)
    requires
        !crate::hangul::is_hangul_syllable_spec(c),
    ensures
        r@ == compatibility_expansion(c),
{
    let mut out = Vec::new();
    unicode_normalization::char::decompose_compatible(c, |d| out.push(d));
    out
}

/// Relies on unicode_normalization::char::compose: it tries Hangul
/// composition first and the primary composition table second, so when
/// Hangul composition yields nothing it returns exactly the table entry.
#[verifier::external_body]
pub(crate) fn composition(a: char, b: char) -> (r: Option<char>)
    requires
        crate::hangul::compose_hangul_spec(a, b) is None,
    ensures
        r == composition_entry(a, b),
{
    unicode_normalization::char::compose(a, b)
}

/// Relies on unicode_normalization::is_nfc_quick: on a single character
/// it skips the ordering check (nothing precedes the character) and
/// returns that character's tabulated NFC quick-check property.
#[verifier::external_body]
pub(crate) fn qc_nfc(c: char) -> (r: IsNormalized)
    ensures
        r == qc_nfc_property(c),
{
    match unicode_normalization::is_nfc_quick(core::iter::once(c)) {
        unicode_normalization::IsNormalized::Yes => IsNormalized::Yes,
        unicode_normalization::IsNormalized::No => IsNormalized::No,
        unicode_normalization::IsNormalized::Maybe => IsNormalized::Maybe,
    }
}

/// Relies on unicode_normalization::is_nfd_quick: on a single character
/// it returns that character's tabulated NFD quick-check property.
#[verifier::external_body]
pub(crate) fn qc_nfd(c: char) -> (r: IsNormalized)
    ensures
        r == qc_nfd_property(c),
{
    match unicode_normalization::is_nfd_quick(core::iter::once(c)) {
        unicode_normalization::IsNormalized::Yes => IsNormalized::Yes,
        unicode_normalization::IsNormalized::No => IsNormalized::No,
        unicode_normalization::IsNormalized::Maybe => IsNormalized::Maybe,
    }
}

/// Relies on unicode_normalization::is_nfkc_quick: on a single character
/// it returns that character's tabulated NFKC quick-check property.
#[verifier::external_body]
pub(crate) fn qc_nfkc(c: char) -> (r: IsNormalized)
    ensures
        r == qc_nfkc_property(c),
{
    match unicode_normalization::is_nfkc_quick(core::iter::once(c)) {
        unicode_normalization::IsNormalized::Yes => IsNormalized::Yes,
        unicode_normalization::IsNormalized::No => IsNormalized::No,
        unicode_normalization::IsNormalized::Maybe => IsNormalized::Maybe,
    }
}

/// Relies on unicode_normalization::is_nfkd_quick: on a single character
/// it returns that character's tabulated NFKD quick-check property.
#[verifier::external_body]
pub(crate) fn qc_nfkd(c: char) -> (r: IsNormalized)
    ensures
        r == qc_nfkd_property(c),
{
    match unicode_normalization::is_nfkd_quick(core::iter::once(c)) {
        unicode_normalization::IsNormalized::Yes => IsNormalized::Yes,
        unicode_normalization::IsNormalized::No => IsNormalized::No,
        unicode_normalization::IsNormalized::Maybe => IsNormalized::Maybe,
    }
}

/// Relies on alloc::string::String::push: appends one character.
#[verifier::external_body]
pub(crate) fn push_char(s: &mut String, c: char)
    ensures
        final(s)@ == old(s)@.push(c),
{
    s.push(c)
}

} // verus!
