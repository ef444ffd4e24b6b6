//! Recomposition engine: the composed forms NFC and NFKC.
//!
//! Consumes a canonically ordered decomposed stream. One candidate
//! starter (the composee) is held back together with the nonstarters
//! that failed to combine with it; an incoming character combines with
//! the composee exactly when the UAX#15 blocking rule permits.

use vstd::prelude::*;

use crate::decompose::{decompose_and_order, nfd_seq, nfkd_seq};
use crate::hangul::compose_hangul_spec;
use crate::lookups::{combining_class, combining_class_of, composition, composition_entry};
use crate::text::{chars_string, str_chars};

verus! {

/// Composition of a pair: algorithmic Hangul composition first, the
/// provider's primary composition table second.
pub open spec fn compose_pair_spec(a: char, b: char) -> Option<char> {
    match compose_hangul_spec(a, b) {
        Some(r) => Some(r),
        None => composition_entry(a, b),
    }
}

fn compose_pair(a: char, b: char) -> (r: Option<char>)
    ensures
        r == compose_pair_spec(a, b),
{
    match crate::hangul::compose_hangul(a, b) {
        Some(r) => Some(r),
        None => composition(a, b),
    }
}

/// State of the recomposition pass: characters already emitted, the
/// buffered candidate starter, the nonstarters seen since it that did
/// not combine with it, and the class of the last of those.
pub struct RecompositionState {
    pub emitted: Seq<char>,
    pub composee: Option<char>,
    pub pending: Seq<char>,
    pub last_class: Option<u8>,
}

/// One step of the UAX#15 Canonical Composition Algorithm. `ch` may
/// combine with the composee only when no uncombined character of
/// combining class at least `ch`'s stands between them (the blocking
/// rule); a starter flushes the composee and the pending nonstarters
/// and becomes the new composee.
pub open spec fn recompose_step(st: RecompositionState, ch: char) -> RecompositionState {
    let cl = combining_class_of(ch);
    match st.composee {
        None => {
            if cl != 0 {
                RecompositionState { emitted: st.emitted.push(ch), ..st }
            } else {
                RecompositionState { composee: Some(ch), ..st }
            }
        },
        Some(k) => {
            match st.last_class {
                None => {
                    match compose_pair_spec(k, ch) {
                        Some(r) => RecompositionState { composee: Some(r), ..st },
                        None => {
                            if cl == 0 {
                                RecompositionState {
                                    emitted: st.emitted.push(k),
                                    composee: Some(ch),
                                    ..st
                                }
                            } else {
                                RecompositionState {
                                    pending: st.pending.push(ch),
                                    last_class: Some(cl),
                                    ..st
                                }
                            }
                        },
                    }
                },
                Some(l) => {
                    if l >= cl {
                        if cl == 0 {
                            RecompositionState {
                                emitted: st.emitted + seq![k] + st.pending,
                                composee: Some(ch),
                                pending: Seq::empty(),
                                last_class: None,
                            }
                        } else {
                            RecompositionState {
                                pending: st.pending.push(ch),
                                last_class: Some(cl),
                                ..st
                            }
                        }
                    } else {
                        match compose_pair_spec(k, ch) {
                            Some(r) => RecompositionState { composee: Some(r), ..st },
                            None => RecompositionState {
                                pending: st.pending.push(ch),
                                last_class: Some(cl),
                                ..st
                            },
                        }
                    }
                },
            }
        },
    }
}

/// The recomposition state after consuming all of `s`.
pub open spec fn recompose_states(s: Seq<char>) -> RecompositionState
    decreases s.len(),
{
    if s.len() == 0 {
        RecompositionState {
            emitted: Seq::empty(),
            composee: None,
            pending: Seq::empty(),
            last_class: None,
        }
    } else {
        recompose_step(recompose_states(s.drop_last()), s.last())
    }
}

/// End of stream: the composee and the pending nonstarters flush.
pub open spec fn recompose_finish(st: RecompositionState) -> Seq<char> {
    st.emitted + (match st.composee {
        Some(k) => seq![k],
        None => Seq::<char>::empty(),
    }) + st.pending
}

/// Recomposition of a canonically ordered decomposed sequence.
pub open spec fn recomposed(s: Seq<char>) -> Seq<char> {
    recompose_finish(recompose_states(s))
}

/// NFC of `s`: canonical decomposition, canonical ordering, then
/// canonical recomposition.
pub open spec fn nfc_seq(s: Seq<char>) -> Seq<char> {
    recomposed(nfd_seq(s))
}

/// NFKC of `s`: compatibility decomposition, canonical ordering, then
/// canonical recomposition.
pub open spec fn nfkc_seq(s: Seq<char>) -> Seq<char> {
    recomposed(nfkd_seq(s))
}

/// Recompose a canonically ordered decomposed buffer.
pub(crate) fn recompose(v: &Vec<char>) -> (out: Vec<char>)
    ensures
        out@ == recomposed(v@),
{
    let mut emitted: Vec<char> = Vec::new();
    let mut pending: Vec<char> = Vec::new();
    let mut composee: Option<char> = None;
    let mut last_class: Option<u8> = None;
    let mut i: usize = 0;
    while i < v.len()
        invariant
            i <= v@.len(),
            emitted@ == recompose_states(v@.take(i as int)).emitted,
            composee == recompose_states(v@.take(i as int)).composee,
            pending@ == recompose_states(v@.take(i as int)).pending,
            last_class == recompose_states(v@.take(i as int)).last_class,
        decreases v@.len() - i,
    {
        let ch = v[i];
        let cl = combining_class(ch);
        match composee {
            None => {
                if cl != 0 {
                    emitted.push(ch);
                } else {
                    composee = Some(ch);
                }
            },
            Some(k) => {
                match last_class {
                    None => {
                        match compose_pair(k, ch) {
                            Some(r) => {
                                composee = Some(r);
                            },
                            None => {
                                if cl == 0 {
                                    emitted.push(k);
                                    composee = Some(ch);
                                } else {
                                    pending.push(ch);
                                    last_class = Some(cl);
                                }
                            },
                        }
                    },
                    Some(l) => {
                        if l >= cl {
                            if cl == 0 {
                                emitted.push(k);
                                emitted.append(&mut pending);
                                composee = Some(ch);
                                last_class = None;
                                proof {
                                    assert(emitted@ =~= recompose_states(
                                        v@.take(i as int),
                                    ).emitted + seq![k] + recompose_states(
                                        v@.take(i as int),
                                    ).pending);
                                }
                            } else {
                                pending.push(ch);
                                last_class = Some(cl);
                            }
                        } else {
                            match compose_pair(k, ch) {
                                Some(r) => {
                                    composee = Some(r);
                                },
                                None => {
                                    pending.push(ch);
                                    last_class = Some(cl);
                                },
                            }
                        }
                    },
                }
            },
        }
        i += 1;
        proof {
            assert(v@.take(i as int).drop_last() =~= v@.take(i as int - 1));
            assert(v@.take(i as int).last() == v@[i as int - 1]);
        }
    }
    proof {
        assert(v@.take(v@.len() as int) =~= v@);
    }
    match composee {
        Some(k) => {
            emitted.push(k);
        },
        None => {},
    }
    emitted.append(&mut pending);
    proof {
        assert(emitted@ =~= recomposed(v@));
    }
    emitted
}

/// Normalize `s` to Unicode Normalization Form C.
pub fn nfc(s: &str) -> (r: String)
    ensures
        r@ == nfc_seq(s@),
{
    let v = str_chars(s);
    let d = decompose_and_order(&v, false);
    let out = recompose(&d);
    chars_string(&out)
}

/// Normalize `s` to Unicode Normalization Form KC.
pub fn nfkc(s: &str) -> (r: String)
    ensures
        r@ == nfkc_seq(s@),
{
    let v = str_chars(s);
    let d = decompose_and_order(&v, true);
    let out = recompose(&d);
    chars_string(&out)
}

} // verus!
