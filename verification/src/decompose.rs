//! Decomposition engine and canonical ordering: the decomposed forms
//! NFD and NFKD.

use vstd::prelude::*;

use crate::hangul::{
    decompose_hangul, hangul_decomposition_spec, is_hangul_syllable, is_hangul_syllable_spec,
};
use crate::lookups::{
    canonical_decomposition, canonical_expansion, combining_class, combining_class_of,
    compatibility_decomposition, compatibility_expansion,
};
use crate::text::{chars_string, str_chars};

verus! {

/// Effective combining class, with ASCII fast-pathed as a starter
/// without consulting the provider.
pub open spec fn char_class_spec(c: char) -> u8 {
    if c as u32 <= 0x7f {
        0
    } else {
        combining_class_of(c)
    }
}

pub(crate) fn char_class(c: char) -> (r: u8)
    ensures
        r == char_class_spec(c),
{
    if c as u32 <= 0x7f {
        0
    } else {
        combining_class(c)
    }
}

/// Full decomposition of one character: ASCII stands for itself, Hangul
/// syllables expand algorithmically, everything else through a single
/// provider table expansion (compatibility-preferred when `compat`).
pub open spec fn char_decomposition(c: char, compat: bool) -> Seq<char> {
    if c as u32 <= 0x7f {
        seq![c]
    } else if is_hangul_syllable_spec(c) {
        hangul_decomposition_spec(c)
    } else if compat {
        compatibility_expansion(c)
    } else {
        canonical_expansion(c)
    }
}

/// Full decomposition of a character sequence, in decomposition order
/// (not yet canonically ordered).
pub open spec fn decomposed(s: Seq<char>, compat: bool) -> Seq<char>
    decreases s.len(),
{
    if s.len() == 0 {
        Seq::empty()
    } else {
        decomposed(s.drop_last(), compat) + char_decomposition(s.last(), compat)
    }
}

/// One step of the UAX#15 Canonical Ordering Algorithm: a nonstarter
/// moves left past nonstarters of strictly greater combining class;
/// ties keep their original order and starters never move.
pub open spec fn canonical_insert(acc: Seq<char>, c: char) -> Seq<char>
    decreases acc.len(),
{
    if acc.len() > 0 && char_class_spec(c) != 0 && char_class_spec(acc.last()) > char_class_spec(c) {
        canonical_insert(acc.drop_last(), c).push(acc.last())
    } else {
        acc.push(c)
    }
}

/// `acc` extended by the characters of `s`, each placed in canonical
/// order.
pub open spec fn canonical_ordered_onto(acc: Seq<char>, s: Seq<char>) -> Seq<char>
    decreases s.len(),
{
    if s.len() == 0 {
        acc
    } else {
        canonical_insert(canonical_ordered_onto(acc, s.drop_last()), s.last())
    }
}

/// NFD of `s`: full canonical decomposition in canonical order.
pub open spec fn nfd_seq(s: Seq<char>) -> Seq<char> {
    canonical_ordered_onto(Seq::empty(), decomposed(s, false))
}

/// NFKD of `s`: full compatibility decomposition in canonical order.
pub open spec fn nfkd_seq(s: Seq<char>) -> Seq<char> {
    canonical_ordered_onto(Seq::empty(), decomposed(s, true))
}

pub proof fn lemma_ordered_onto_concat(acc: Seq<char>, a: Seq<char>, b: Seq<char>)
    ensures
        canonical_ordered_onto(acc, a + b) == canonical_ordered_onto(
            canonical_ordered_onto(acc, a),
            b,
        ),
    decreases b.len(),
{
    if b.len() == 0 {
        assert(a + b =~= a);
    } else {
        assert((a + b).drop_last() =~= a + b.drop_last());
        lemma_ordered_onto_concat(acc, a, b.drop_last());
        assert((a + b).last() == b.last());
    }
}

proof fn lemma_insert_high_suffix(s: Seq<char>, c: char, j: int)
    requires
        0 <= j <= s.len(),
        char_class_spec(c) != 0,
        forall|k: int| j <= k < s.len() ==> char_class_spec(s[k]) > char_class_spec(c),
    ensures
        canonical_insert(s, c) == canonical_insert(s.take(j), c) + s.skip(j),
    decreases s.len() - j,
{
    if j == s.len() {
        assert(s.take(j) =~= s);
        assert(canonical_insert(s.take(j), c) + s.skip(j) =~= canonical_insert(s, c));
    } else {
        assert(char_class_spec(s.last()) > char_class_spec(c));
        lemma_insert_high_suffix(s.drop_last(), c, j);
        assert(s.drop_last().take(j) =~= s.take(j));
        assert(canonical_insert(s.take(j), c) + s.skip(j) =~= (canonical_insert(s.take(j), c)
            + s.drop_last().skip(j)).push(s.last()));
    }
}

/// Place `c` into the canonically ordered buffer `out`.
fn insert_ordered(out: &mut Vec<char>, c: char)
    ensures
        final(out)@ == canonical_insert(old(out)@, c),
{
    let cls = char_class(c);
    if cls == 0 {
        out.push(c);
    } else {
        let mut j: usize = out.len();
        loop
            invariant
                cls == char_class_spec(c),
                cls != 0,
                j <= out@.len(),
                out@ == old(out)@,
                forall|k: int| j <= k < out@.len() ==> char_class_spec(out@[k]) > cls,
            ensures
                j <= out@.len(),
                out@ == old(out)@,
                forall|k: int| j <= k < out@.len() ==> char_class_spec(out@[k]) > cls,
                j == 0 || char_class_spec(out@[j - 1]) <= cls,
            decreases j,
        {
            if j == 0 {
                break ;
            }
            let prev = char_class(out[j - 1]);
            if prev <= cls {
                break ;
            }
            j -= 1;
        }
        proof {
            lemma_insert_high_suffix(out@, c, j as int);
            if j == 0 {
                assert(canonical_insert(out@.take(0), c) =~= out@.take(0).push(c));
            } else {
                assert(out@.take(j as int).last() == out@[j - 1]);
                assert(canonical_insert(out@.take(j as int), c) == out@.take(j as int).push(c));
            }
        }
        out.insert(j, c);
        proof {
            assert(final(out)@ =~= old(out)@.take(j as int).push(c) + old(out)@.skip(j as int));
        }
    }
}

/// Append the characters of `d` to the canonically ordered buffer `out`,
/// keeping it canonically ordered.
fn insert_all_ordered(out: &mut Vec<char>, d: &Vec<char>)
    ensures
        final(out)@ == canonical_ordered_onto(old(out)@, d@),
{
    let mut k: usize = 0;
    while k < d.len()
        invariant
            k <= d@.len(),
            out@ == canonical_ordered_onto(old(out)@, d@.take(k as int)),
        decreases d@.len() - k,
    {
        insert_ordered(out, d[k]);
        k += 1;
        proof {
            assert(d@.take(k as int).drop_last() =~= d@.take(k as int - 1));
            assert(d@.take(k as int).last() == d@[k as int - 1]);
        }
    }
    proof {
        assert(d@.take(d@.len() as int) =~= d@);
    }
}

/// Fully decompose `s` (canonically, or by compatibility when `compat`)
/// and emit the expansion in canonical order.
pub(crate) fn decompose_and_order(s: &Vec<char>, compat: bool) -> (out: Vec<char>)
    ensures
        out@ == canonical_ordered_onto(Seq::empty(), decomposed(s@, compat)),
{
    let mut out: Vec<char> = Vec::new();
    let mut i: usize = 0;
    while i < s.len()
        invariant
            i <= s@.len(),
            out@ == canonical_ordered_onto(Seq::empty(), decomposed(s@.take(i as int), compat)),
        decreases s@.len() - i,
    {
        let c = s[i];
        let d: Vec<char> = if (c as u32) <= 0x7f {
            let mut d: Vec<char> = Vec::new();
            d.push(c);
            proof {
                assert(d@ =~= char_decomposition(c, compat));
            }
            d
        } else if is_hangul_syllable(c) {
            decompose_hangul(c)
        } else if compat {
            compatibility_decomposition(c)
        } else {
            canonical_decomposition(c)
        };
        insert_all_ordered(&mut out, &d);
        i += 1;
        proof {
            assert(s@.take(i as int).drop_last() =~= s@.take(i as int - 1));
            assert(s@.take(i as int).last() == s@[i as int - 1]);
            assert(decomposed(s@.take(i as int), compat) == decomposed(
                s@.take(i as int - 1),
                compat,
            ) + char_decomposition(c, compat));
            lemma_ordered_onto_concat(
                Seq::empty(),
                decomposed(s@.take(i as int - 1), compat),
                char_decomposition(c, compat),
            );
        }
    }
    proof {
        assert(s@.take(s@.len() as int) =~= s@);
    }
    out
}

/// Normalize `s` to Unicode Normalization Form D.
pub fn nfd(s: &str) -> (r: String)
    ensures
        r@ == nfd_seq(s@),
{
    let v = str_chars(s);
    let out = decompose_and_order(&v, false);
    chars_string(&out)
}

/// Normalize `s` to Unicode Normalization Form KD.
pub fn nfkd(s: &str) -> (r: String)
    ensures
        r@ == nfkd_seq(s@),
{
    let v = str_chars(s);
    let out = decompose_and_order(&v, true);
    chars_string(&out)
}

} // verus!
