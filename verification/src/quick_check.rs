//! Quick-check detection of normalization status, and the authoritative
//! membership checks built on it.
//!
//! A single forward pass checks canonical ordering and each character's
//! per-form quick-check property; it can answer `Maybe`, which the
//! authoritative checks resolve by normalizing and comparing.

use vstd::prelude::*;
use vstd::string::StringExecFns;

use crate::decompose::{nfd_seq, nfkd_seq};
use crate::lookups::{
    combining_class, combining_class_of, qc_nfc, qc_nfc_property, qc_nfd, qc_nfd_property, qc_nfkc,
    qc_nfkc_property, qc_nfkd, qc_nfkd_property,
};
use crate::recompose::{nfc_seq, nfkc_seq};
use crate::stream_safe::{
    classify_nonstarters, decomposition_len_of, leading_ns_of, stream_safe_seq, trailing_ns_of,
    MAX_NONSTARTERS,
};
use crate::text::str_chars;

verus! {

/// Tri-state answer of the quick-check algorithm.
#[derive(Debug, PartialEq, Eq, Structural, Clone, Copy)]
pub enum IsNormalized {
    /// The text is definitely normalized.
    Yes,
    /// The text is definitely not normalized.
    No,
    /// The text may be normalized.
    Maybe,
}

/// The four standard normalization forms.
#[derive(Debug, PartialEq, Eq, Structural, Clone, Copy)]
pub enum Form {
    Nfc,
    Nfd,
    Nfkc,
    Nfkd,
}

/// The provider's per-character quick-check property for the form `f`.
pub open spec fn qc_property(f: Form, c: char) -> IsNormalized {
    match f {
        Form::Nfc => qc_nfc_property(c),
        Form::Nfd => qc_nfd_property(c),
        Form::Nfkc => qc_nfkc_property(c),
        Form::Nfkd => qc_nfkd_property(c),
    }
}

fn qc_lookup(f: Form, c: char) -> (r: IsNormalized)
    ensures
        r == qc_property(f, c),
{
    match f {
        Form::Nfc => qc_nfc(c),
        Form::Nfd => qc_nfd(c),
        Form::Nfkc => qc_nfkc(c),
        Form::Nfkd => qc_nfkd(c),
    }
}

/// Quick check over `s` from position `i` onwards, given the combining
/// class of the last examined character, the running NFKD nonstarter
/// count (used only with `ss`, the stream-safety check) and whether a
/// `Maybe` property has been seen. ASCII characters are starters whose
/// property is `Yes` for every form; a combining class out of canonical
/// order, a `No` property, or (with `ss`) a nonstarter run past the
/// bound each decide `No` at once.
pub open spec fn quick_check_from(
    f: Form,
    ss: bool,
    s: Seq<char>,
    i: int,
    last_cc: u8,
    count: int,
    maybe: bool,
) -> IsNormalized
    decreases s.len() - i,
{
    if i < 0 || i >= s.len() {
        if maybe {
            IsNormalized::Maybe
        } else {
            IsNormalized::Yes
        }
    } else {
        let c = s[i];
        if c as u32 <= 0x7f {
            quick_check_from(f, ss, s, i + 1, 0, 0, maybe)
        } else {
            let cc = combining_class_of(c);
            if last_cc > cc && cc != 0 {
                IsNormalized::No
            } else if qc_property(f, c) is No {
                IsNormalized::No
            } else {
                let saw_maybe = maybe || qc_property(f, c) is Maybe;
                if ss {
                    if count + leading_ns_of(c) > MAX_NONSTARTERS as int {
                        IsNormalized::No
                    } else {
                        let count2 = if leading_ns_of(c) == decomposition_len_of(c) {
                            count + decomposition_len_of(c)
                        } else {
                            trailing_ns_of(c)
                        };
                        quick_check_from(f, ss, s, i + 1, cc, count2, saw_maybe)
                    }
                } else {
                    quick_check_from(f, ss, s, i + 1, cc, count, saw_maybe)
                }
            }
        }
    }
}

/// Result of the quick-check pass for form `f` over `s`, with the
/// stream-safety check when `ss`.
pub open spec fn quick_check_spec(f: Form, ss: bool, s: Seq<char>) -> IsNormalized {
    quick_check_from(f, ss, s, 0, 0, 0, false)
}

fn quick_check(s: &Vec<char>, f: Form, ss: bool) -> (r: IsNormalized)
    ensures
        r == quick_check_spec(f, ss, s@),
{
    let mut last_cc: u8 = 0;
    let mut count: usize = 0;
    let mut maybe: bool = false;
    let mut i: usize = 0;
    while i < s.len()
        invariant
            i <= s@.len(),
            quick_check_spec(f, ss, s@) == quick_check_from(
                f,
                ss,
                s@,
                i as int,
                last_cc,
                count as int,
                maybe,
            ),
        decreases s@.len() - i,
    {
        let c = s[i];
        if (c as u32) <= 0x7f {
            last_cc = 0;
            count = 0;
            i += 1;
            continue ;
        }
        let cc = combining_class(c);
        if last_cc > cc && cc != 0 {
            return IsNormalized::No;
        }
        match qc_lookup(f, c) {
            IsNormalized::Yes => {},
            IsNormalized::No => {
                return IsNormalized::No;
            },
            IsNormalized::Maybe => {
                maybe = true;
            },
        }
        if ss {
            let d = classify_nonstarters(c);
            let lead = d.leading_nonstarters;
            if lead > MAX_NONSTARTERS || count > MAX_NONSTARTERS - lead {
                return IsNormalized::No;
            }
            if lead == d.decomposition_len {
                count = count + d.decomposition_len;
            } else {
                count = d.trailing_nonstarters;
            }
        }
        last_cc = cc;
        i += 1;
    }
    if maybe {
        IsNormalized::Maybe
    } else {
        IsNormalized::Yes
    }
}

/// Quickly check if a string is in NFC, potentially returning `Maybe`
/// when only full normalization can decide.
pub fn is_nfc_quick(s: &str) -> (r: IsNormalized)
    ensures
        r == quick_check_spec(Form::Nfc, false, s@),
{
    let v = str_chars(s);
    quick_check(&v, Form::Nfc, false)
}

/// Quickly check if a string is in NFKC.
pub fn is_nfkc_quick(s: &str) -> (r: IsNormalized)
    ensures
        r == quick_check_spec(Form::Nfkc, false, s@),
{
    let v = str_chars(s);
    quick_check(&v, Form::Nfkc, false)
}

/// Quickly check if a string is in NFD.
pub fn is_nfd_quick(s: &str) -> (r: IsNormalized)
    ensures
        r == quick_check_spec(Form::Nfd, false, s@),
{
    let v = str_chars(s);
    quick_check(&v, Form::Nfd, false)
}

/// Quickly check if a string is in NFKD.
pub fn is_nfkd_quick(s: &str) -> (r: IsNormalized)
    ensures
        r == quick_check_spec(Form::Nfkd, false, s@),
{
    let v = str_chars(s);
    quick_check(&v, Form::Nfkd, false)
}

/// Quickly check if a string is stream-safe NFC.
pub fn is_nfc_stream_safe_quick(s: &str) -> (r: IsNormalized)
    ensures
        r == quick_check_spec(Form::Nfc, true, s@),
{
    let v = str_chars(s);
    quick_check(&v, Form::Nfc, true)
}

/// Quickly check if a string is stream-safe NFD.
pub fn is_nfd_stream_safe_quick(s: &str) -> (r: IsNormalized)
    ensures
        r == quick_check_spec(Form::Nfd, true, s@),
{
    let v = str_chars(s);
    quick_check(&v, Form::Nfd, true)
}

/// What the authoritative NFC check answers: the quick check where it
/// decides, else a structural comparison against the normalization.
pub open spec fn is_nfc_spec(s: Seq<char>) -> bool {
    match quick_check_spec(Form::Nfc, false, s) {
        IsNormalized::Yes => true,
        IsNormalized::No => false,
        IsNormalized::Maybe => s == nfc_seq(s),
    }
}

/// What the authoritative NFKC check answers.
pub open spec fn is_nfkc_spec(s: Seq<char>) -> bool {
    match quick_check_spec(Form::Nfkc, false, s) {
        IsNormalized::Yes => true,
        IsNormalized::No => false,
        IsNormalized::Maybe => s == nfkc_seq(s),
    }
}

/// What the authoritative NFD check answers.
pub open spec fn is_nfd_spec(s: Seq<char>) -> bool {
    match quick_check_spec(Form::Nfd, false, s) {
        IsNormalized::Yes => true,
        IsNormalized::No => false,
        IsNormalized::Maybe => s == nfd_seq(s),
    }
}

/// What the authoritative NFKD check answers.
pub open spec fn is_nfkd_spec(s: Seq<char>) -> bool {
    match quick_check_spec(Form::Nfkd, false, s) {
        IsNormalized::Yes => true,
        IsNormalized::No => false,
        IsNormalized::Maybe => s == nfkd_seq(s),
    }
}

/// What the authoritative stream-safe NFC check answers: the fallback
/// compares against the stream-safe transform normalized to NFC.
pub open spec fn is_nfc_stream_safe_spec(s: Seq<char>) -> bool {
    match quick_check_spec(Form::Nfc, true, s) {
        IsNormalized::Yes => true,
        IsNormalized::No => false,
        IsNormalized::Maybe => s == nfc_seq(stream_safe_seq(s)),
    }
}

/// What the authoritative stream-safe NFD check answers.
pub open spec fn is_nfd_stream_safe_spec(s: Seq<char>) -> bool {
    match quick_check_spec(Form::Nfd, true, s) {
        IsNormalized::Yes => true,
        IsNormalized::No => false,
        IsNormalized::Maybe => s == nfd_seq(stream_safe_seq(s)),
    }
}

/// Authoritatively check if a string is in NFC.
pub fn is_nfc(s: &str) -> (r: bool)
    ensures
        r == is_nfc_spec(s@),
{
    match is_nfc_quick(s) {
        IsNormalized::Yes => true,
        IsNormalized::No => false,
        IsNormalized::Maybe => {
            let n = crate::recompose::nfc(s);
            let source = String::from_str(s);
            source == n
        },
    }
}

/// Authoritatively check if a string is in NFKC.
pub fn is_nfkc(s: &str) -> (r: bool)
    ensures
        r == is_nfkc_spec(s@),
{
    match is_nfkc_quick(s) {
        IsNormalized::Yes => true,
        IsNormalized::No => false,
        IsNormalized::Maybe => {
            let n = crate::recompose::nfkc(s);
            let source = String::from_str(s);
            source == n
        },
    }
}

/// Authoritatively check if a string is in NFD.
pub fn is_nfd(s: &str) -> (r: bool)
    ensures
        r == is_nfd_spec(s@),
{
    match is_nfd_quick(s) {
        IsNormalized::Yes => true,
        IsNormalized::No => false,
        IsNormalized::Maybe => {
            let n = crate::decompose::nfd(s);
            let source = String::from_str(s);
            source == n
        },
    }
}

/// Authoritatively check if a string is in NFKD.
pub fn is_nfkd(s: &str) -> (r: bool)
    ensures
        r == is_nfkd_spec(s@),
{
    match is_nfkd_quick(s) {
        IsNormalized::Yes => true,
        IsNormalized::No => false,
        IsNormalized::Maybe => {
            let n = crate::decompose::nfkd(s);
            let source = String::from_str(s);
            source == n
        },
    }
}

/// Authoritatively check if a string is stream-safe NFC.
pub fn is_nfc_stream_safe(s: &str) -> (r: bool)
    ensures
        r == is_nfc_stream_safe_spec(s@),
{
    match is_nfc_stream_safe_quick(s) {
        IsNormalized::Yes => true,
        IsNormalized::No => false,
        IsNormalized::Maybe => {
            let t = crate::stream_safe::stream_safe(s);
            let n = crate::recompose::nfc(t.as_str());
            let source = String::from_str(s);
            source == n
        },
    }
}

/// Authoritatively check if a string is stream-safe NFD.
pub fn is_nfd_stream_safe(s: &str) -> (r: bool)
    ensures
        r == is_nfd_stream_safe_spec(s@),
{
    match is_nfd_stream_safe_quick(s) {
        IsNormalized::Yes => true,
        IsNormalized::No => false,
        IsNormalized::Maybe => {
            let t = crate::stream_safe::stream_safe(s);
            let n = crate::decompose::nfd(t.as_str());
            let source = String::from_str(s);
            source == n
        },
    }
}

} // verus!
