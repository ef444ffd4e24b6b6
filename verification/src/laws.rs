//! Laws of the normalization pipeline, proved against the abstract UCD
//! provider.
//!
//! Verus cannot look inside the provider's tables, so each law names
//! the data facts of the UCD it rests on as a hypothesis: the
//! decomposition tables are generated fully expanded, the composition
//! table is the inverse of first-level canonical decomposition, jamo
//! and ASCII characters are starters, and no tabulated decomposition
//! outgrows the stream-safe run bound.

use vstd::multiset::Multiset;
use vstd::prelude::*;

use crate::decompose::{
    canonical_insert, canonical_ordered_onto, char_class_spec, char_decomposition, decomposed,
    lemma_ordered_onto_concat, nfd_seq, nfkd_seq,
};
use crate::hangul::{compose_hangul_spec, is_hangul_syllable_spec, L_BASE, L_COUNT};
use crate::lookups::{combining_class_of, composition_entry};
use crate::quick_check::{
    is_nfc_spec, is_nfd_spec, is_nfkc_spec, is_nfkd_spec, quick_check_spec, Form,
};
use crate::recompose::{
    compose_pair_spec, nfc_seq, nfkc_seq, recompose_states, recompose_step, recomposed,
    RecompositionState,
};
use crate::stream_safe::{
    decomposition_len_of, leading_nonstarter_count, leading_ns_of, stream_safe_seq,
    stream_safe_states, trailing_nonstarter_count, trailing_ns_of, COMBINING_GRAPHEME_JOINER,
    MAX_NONSTARTERS,
};

verus! {

broadcast use vstd::seq_lib::group_to_multiset_ensures;

/// `c` stands only for itself under the decomposition in force.
pub open spec fn inert(c: char, compat: bool) -> bool {
    char_decomposition(c, compat) == seq![c]
}

/// The provider invariant: every character of every decomposition is
/// fully decomposed already, so one expansion pass is final.
pub open spec fn tables_fully_expanded(compat: bool) -> bool {
    forall|c: char, j: int|
        0 <= j < char_decomposition(c, compat).len() ==> inert(
            #[trigger] char_decomposition(c, compat)[j],
            compat,
        )
}

proof fn lemma_decomposed_elements_inert(s: Seq<char>, compat: bool)
    requires
        tables_fully_expanded(compat),
    ensures
        forall|j: int|
            0 <= j < decomposed(s, compat).len() ==> inert(
                #[trigger] decomposed(s, compat)[j],
                compat,
            ),
    decreases s.len(),
{
    if s.len() > 0 {
        lemma_decomposed_elements_inert(s.drop_last(), compat);
        let left = decomposed(s.drop_last(), compat);
        let right = char_decomposition(s.last(), compat);
        assert(decomposed(s, compat) == left + right);
        assert forall|j: int| 0 <= j < decomposed(s, compat).len() implies inert(
            #[trigger] decomposed(s, compat)[j],
            compat,
        ) by {
            if j < left.len() {
                assert(decomposed(s, compat)[j] == left[j]);
            } else {
                assert(decomposed(s, compat)[j] == right[j - left.len()]);
            }
        }
    }
}

proof fn lemma_decomposed_of_inert(t: Seq<char>, compat: bool)
    requires
        forall|j: int| 0 <= j < t.len() ==> inert(#[trigger] t[j], compat),
    ensures
        decomposed(t, compat) == t,
    decreases t.len(),
{
    if t.len() == 0 {
        assert(decomposed(t, compat) =~= t);
    } else {
        lemma_decomposed_of_inert(t.drop_last(), compat);
        assert(decomposed(t, compat) =~= t.drop_last() + seq![t.last()]);
        assert(t.drop_last() + seq![t.last()] =~= t);
    }
}

proof fn lemma_insert_multiset(acc: Seq<char>, c: char)
    ensures
        canonical_insert(acc, c).to_multiset() == acc.to_multiset().insert(c),
        canonical_insert(acc, c).len() == acc.len() + 1,
    decreases acc.len(),
{
    if acc.len() > 0 && char_class_spec(c) != 0 && char_class_spec(acc.last()) > char_class_spec(c) {
        lemma_insert_multiset(acc.drop_last(), c);
        assert(acc.drop_last().push(acc.last()) =~= acc);
        assert(canonical_insert(acc.drop_last(), c).to_multiset().insert(acc.last())
            =~= acc.to_multiset().insert(c));
    } else {
        assert(acc.push(c).to_multiset() =~= acc.to_multiset().insert(c));
    }
}

proof fn lemma_ordered_onto_multiset(acc: Seq<char>, z: Seq<char>)
    ensures
        canonical_ordered_onto(acc, z).to_multiset() == acc.to_multiset().add(z.to_multiset()),
    decreases z.len(),
{
    if z.len() == 0 {
        assert(z.to_multiset() =~= Multiset::<char>::empty());
        assert(acc.to_multiset().add(z.to_multiset()) =~= acc.to_multiset());
    } else {
        lemma_ordered_onto_multiset(acc, z.drop_last());
        lemma_insert_multiset(canonical_ordered_onto(acc, z.drop_last()), z.last());
        assert(z.drop_last().push(z.last()) =~= z);
        assert(acc.to_multiset().add(z.drop_last().to_multiset()).insert(z.last())
            =~= acc.to_multiset().add(z.to_multiset()));
    }
}

/// No adjacent pair stands out of canonical order: a nonstarter never
/// follows a character of strictly greater combining class.
pub open spec fn canonically_ordered(t: Seq<char>) -> bool {
    forall|i: int|
        0 <= i < t.len() - 1 ==> (char_class_spec(t[i + 1]) == 0 || char_class_spec(#[trigger] t[i])
            <= char_class_spec(t[i + 1]))
}

proof fn lemma_insert_last(acc: Seq<char>, c: char)
    ensures
        canonical_insert(acc, c).last() == (if acc.len() > 0 && char_class_spec(c) != 0
            && char_class_spec(acc.last()) > char_class_spec(c) {
            acc.last()
        } else {
            c
        }),
{
}

proof fn lemma_insert_preserves_ordered(acc: Seq<char>, c: char)
    requires
        canonically_ordered(acc),
    ensures
        canonically_ordered(canonical_insert(acc, c)),
    decreases acc.len(),
{
    lemma_insert_multiset(acc, c);
    if acc.len() > 0 && char_class_spec(c) != 0 && char_class_spec(acc.last()) > char_class_spec(c) {
        let dl = acc.drop_last();
        assert(canonically_ordered(dl)) by {
            assert(forall|i: int| 0 <= i < dl.len() ==> dl[i] == acc[i]);
        }
        lemma_insert_preserves_ordered(dl, c);
        lemma_insert_multiset(dl, c);
        lemma_insert_last(dl, c);
        let q = canonical_insert(dl, c);
        let r = q.push(acc.last());
        assert(canonical_insert(acc, c) == r);
        assert forall|i: int| 0 <= i < r.len() - 1 implies (char_class_spec(r[i + 1]) == 0
            || char_class_spec(#[trigger] r[i]) <= char_class_spec(r[i + 1])) by {
            if i < q.len() - 1 {
                assert(r[i] == q[i] && r[i + 1] == q[i + 1]);
            } else {
                assert(r[i] == q.last() && r[i + 1] == acc.last());
                if dl.len() > 0 && char_class_spec(dl.last()) > char_class_spec(c) {
                    assert(q.last() == dl.last());
                    assert(dl.last() == acc[acc.len() - 2]);
                    assert(char_class_spec(acc[acc.len() - 2]) <= char_class_spec(acc.last())
                        || char_class_spec(acc.last()) == 0);
                } else {
                    assert(q.last() == c);
                }
            }
        }
    } else {
        let r = acc.push(c);
        assert(canonical_insert(acc, c) == r);
        assert forall|i: int| 0 <= i < r.len() - 1 implies (char_class_spec(r[i + 1]) == 0
            || char_class_spec(#[trigger] r[i]) <= char_class_spec(r[i + 1])) by {
            if i < acc.len() - 1 {
                assert(r[i] == acc[i] && r[i + 1] == acc[i + 1]);
            } else {
                assert(r[i] == acc.last() && r[i + 1] == c);
            }
        }
    }
}

proof fn lemma_ordered_onto_ordered(acc: Seq<char>, z: Seq<char>)
    requires
        canonically_ordered(acc),
    ensures
        canonically_ordered(canonical_ordered_onto(acc, z)),
    decreases z.len(),
{
    if z.len() > 0 {
        lemma_ordered_onto_ordered(acc, z.drop_last());
        lemma_insert_preserves_ordered(canonical_ordered_onto(acc, z.drop_last()), z.last());
    }
}

proof fn lemma_ordering_of_ordered(t: Seq<char>)
    requires
        canonically_ordered(t),
    ensures
        canonical_ordered_onto(Seq::empty(), t) == t,
    decreases t.len(),
{
    if t.len() == 0 {
    } else {
        let dl = t.drop_last();
        assert(canonically_ordered(dl)) by {
            assert(forall|i: int| 0 <= i < dl.len() ==> dl[i] == t[i]);
        }
        lemma_ordering_of_ordered(dl);
        if dl.len() > 0 && char_class_spec(t.last()) != 0 {
            assert(dl.last() == t[t.len() - 2]);
            assert(char_class_spec(t[t.len() - 2]) <= char_class_spec(t.last()));
        }
        assert(canonical_insert(dl, t.last()) == dl.push(t.last()));
        assert(dl.push(t.last()) =~= t);
    }
}

proof fn lemma_normalized_decomposed_idempotent(s: Seq<char>, compat: bool)
    requires
        tables_fully_expanded(compat),
    ensures
        canonical_ordered_onto(
            Seq::empty(),
            decomposed(canonical_ordered_onto(Seq::empty(), decomposed(s, compat)), compat),
        ) == canonical_ordered_onto(Seq::empty(), decomposed(s, compat)),
{
    let z = decomposed(s, compat);
    let y = canonical_ordered_onto(Seq::<char>::empty(), z);
    lemma_normalized_elements_inert(s, compat);
    lemma_decomposed_of_inert(y, compat);
    lemma_ordered_onto_ordered(Seq::<char>::empty(), z);
    lemma_ordering_of_ordered(y);
}

/// Idempotence of NFD: applying the transform to its own output changes
/// nothing, given that the provider's canonical tables are fully
/// expanded.
pub proof fn lemma_nfd_idempotent(s: Seq<char>)
    ensures
        tables_fully_expanded(false) ==> nfd_seq(nfd_seq(s)) == nfd_seq(s),
{
    if tables_fully_expanded(false) {
        lemma_normalized_decomposed_idempotent(s, false);
    }
}

/// Idempotence of NFKD: applying the transform to its own output
/// changes nothing, given that the provider's compatibility tables are
/// fully expanded.
pub proof fn lemma_nfkd_idempotent(s: Seq<char>)
    ensures
        tables_fully_expanded(true) ==> nfkd_seq(nfkd_seq(s)) == nfkd_seq(s),
{
    if tables_fully_expanded(true) {
        lemma_normalized_decomposed_idempotent(s, true);
    }
}

/// Every run of nonstarters in `t` is at most `MAX_NONSTARTERS` long:
/// equivalently, no prefix of `t` ends in a longer all-nonstarter
/// suffix.
pub open spec fn nonstarter_runs_bounded(t: Seq<char>) -> bool
    decreases t.len(),
{
    t.len() == 0 || (trailing_nonstarter_count(t) <= MAX_NONSTARTERS as int
        && nonstarter_runs_bounded(t.drop_last()))
}

/// The data facts of the UCD that the stream-safe bound rests on: jamo
/// are starters, no tabulated decomposition is longer than the run
/// bound itself, and the joiner is an undecomposable starter.
pub open spec fn stream_safe_tables_ok() -> bool {
    &&& forall|c: char, j: int|
        is_hangul_syllable_spec(c) && 0 <= j < char_decomposition(c, true).len()
            ==> char_class_spec(#[trigger] char_decomposition(c, true)[j]) == 0
    &&& forall|c: char| #[trigger] decomposition_len_of(c) <= MAX_NONSTARTERS as int
    &&& char_class_spec(COMBINING_GRAPHEME_JOINER) == 0
    &&& char_decomposition(COMBINING_GRAPHEME_JOINER, true) == seq![COMBINING_GRAPHEME_JOINER]
}

proof fn lemma_counts_le_len(d: Seq<char>)
    ensures
        0 <= leading_nonstarter_count(d) <= d.len(),
        0 <= trailing_nonstarter_count(d) <= d.len(),
    decreases d.len(),
{
    if d.len() > 0 {
        lemma_counts_le_len(d.drop_last());
        lemma_counts_le_len(d.drop_first());
    }
}

proof fn lemma_all_nonstarters(d: Seq<char>)
    ensures
        (leading_nonstarter_count(d) == d.len() <==> forall|j: int|
            0 <= j < d.len() ==> char_class_spec(#[trigger] d[j]) != 0),
        (trailing_nonstarter_count(d) == d.len() <==> forall|j: int|
            0 <= j < d.len() ==> char_class_spec(#[trigger] d[j]) != 0),
    decreases d.len(),
{
    lemma_counts_le_len(d);
    if d.len() > 0 {
        lemma_all_nonstarters(d.drop_first());
        lemma_all_nonstarters(d.drop_last());
        lemma_counts_le_len(d.drop_first());
        lemma_counts_le_len(d.drop_last());
        if leading_nonstarter_count(d) == d.len() {
            assert forall|j: int| 0 <= j < d.len() implies char_class_spec(#[trigger] d[j])
                != 0 by {
                if j > 0 {
                    assert(d[j] == d.drop_first()[j - 1]);
                }
            }
        }
        if trailing_nonstarter_count(d) == d.len() {
            assert forall|j: int| 0 <= j < d.len() implies char_class_spec(#[trigger] d[j])
                != 0 by {
                if j < d.len() - 1 {
                    assert(d[j] == d.drop_last()[j]);
                }
            }
        }
        if forall|j: int| 0 <= j < d.len() ==> char_class_spec(#[trigger] d[j]) != 0 {
            assert forall|j: int|
                0 <= j < d.drop_first().len() implies char_class_spec(
                #[trigger] d.drop_first()[j],
            ) != 0 by {
                assert(d.drop_first()[j] == d[j + 1]);
            }
            assert forall|j: int|
                0 <= j < d.drop_last().len() implies char_class_spec(#[trigger] d.drop_last()[j])
                != 0 by {
                assert(d.drop_last()[j] == d[j]);
            }
            assert(char_class_spec(d[0]) != 0);
            assert(char_class_spec(d.last()) != 0);
            assert(leading_nonstarter_count(d) == d.len());
            assert(trailing_nonstarter_count(d) == d.len());
        }
    }
}

proof fn lemma_leading_drop_last(d: Seq<char>)
    requires
        d.len() > 0,
    ensures
        leading_nonstarter_count(d.drop_last()) <= leading_nonstarter_count(d),
    decreases d.len(),
{
    lemma_counts_le_len(d);
    lemma_counts_le_len(d.drop_last());
    if d.len() == 1 {
        assert(d.drop_last() =~= Seq::<char>::empty());
    } else {
        assert(d.drop_last()[0] == d[0]);
        if char_class_spec(d[0]) != 0 {
            lemma_leading_drop_last(d.drop_first());
            assert(d.drop_last().drop_first() =~= d.drop_first().drop_last());
            assert(leading_nonstarter_count(d.drop_last()) == 1 + leading_nonstarter_count(
                d.drop_last().drop_first(),
            ));
            assert(leading_nonstarter_count(d) == 1 + leading_nonstarter_count(d.drop_first()));
        } else {
            assert(leading_nonstarter_count(d.drop_last()) == 0);
            assert(leading_nonstarter_count(d) == 0);
        }
    }
}

proof fn lemma_trailing_concat(u: Seq<char>, d: Seq<char>)
    ensures
        trailing_nonstarter_count(u + d) == if trailing_nonstarter_count(d) == d.len() {
            trailing_nonstarter_count(u) + d.len()
        } else {
            trailing_nonstarter_count(d)
        },
    decreases d.len(),
{
    lemma_counts_le_len(d);
    if d.len() == 0 {
        assert(u + d =~= u);
    } else {
        lemma_trailing_concat(u, d.drop_last());
        lemma_counts_le_len(d.drop_last());
        assert((u + d).drop_last() =~= u + d.drop_last());
        assert((u + d).last() == d.last());
    }
}

/// Appending a short enough decomposition to a bounded sequence whose
/// trailing run leaves room for its leading nonstarters keeps every run
/// bounded.
proof fn lemma_bounded_append(u: Seq<char>, d: Seq<char>)
    requires
        nonstarter_runs_bounded(u),
        trailing_nonstarter_count(u) + leading_nonstarter_count(d) <= MAX_NONSTARTERS as int,
        d.len() <= MAX_NONSTARTERS as int,
    ensures
        nonstarter_runs_bounded(u + d),
        trailing_nonstarter_count(u + d) == if trailing_nonstarter_count(d) == d.len() {
            trailing_nonstarter_count(u) + d.len()
        } else {
            trailing_nonstarter_count(d)
        },
    decreases d.len(),
{
    lemma_trailing_concat(u, d);
    lemma_counts_le_len(d);
    if d.len() == 0 {
        assert(u + d =~= u);
    } else {
        lemma_leading_drop_last(d);
        lemma_bounded_append(u, d.drop_last());
        assert((u + d).drop_last() =~= u + d.drop_last());
        if trailing_nonstarter_count(d) == d.len() {
            lemma_all_nonstarters(d);
            assert(leading_nonstarter_count(d) == d.len());
        }
        lemma_counts_le_len(u);
    }
}

proof fn lemma_decomposed_push(t: Seq<char>, c: char, compat: bool)
    ensures
        decomposed(t.push(c), compat) == decomposed(t, compat) + char_decomposition(c, compat),
{
    assert(t.push(c).drop_last() =~= t);
    assert(t.push(c).last() == c);
}

proof fn lemma_classification_matches(c: char)
    requires
        stream_safe_tables_ok(),
    ensures
        leading_ns_of(c) == leading_nonstarter_count(char_decomposition(c, true)),
        trailing_ns_of(c) == trailing_nonstarter_count(char_decomposition(c, true)),
        decomposition_len_of(c) == char_decomposition(c, true).len(),
{
    let d = char_decomposition(c, true);
    if c as u32 <= 0x7f {
        assert(d == seq![c]);
        assert(char_class_spec(d[0]) == 0);
        assert(leading_nonstarter_count(d) == 0);
        assert(trailing_nonstarter_count(d) == 0);
    } else if is_hangul_syllable_spec(c) {
        assert(d == crate::hangul::hangul_decomposition_spec(c));
        assert(d.len() == decomposition_len_of(c));
        assert(char_class_spec(d[0]) == 0);
        assert(char_class_spec(d.last()) == 0);
        assert(leading_nonstarter_count(d) == 0);
        assert(trailing_nonstarter_count(d) == 0);
    }
}

proof fn lemma_stream_safe_states_bounded(s: Seq<char>)
    requires
        stream_safe_tables_ok(),
    ensures
        stream_safe_states(s).nonstarters == trailing_nonstarter_count(
            decomposed(stream_safe_states(s).emitted, true),
        ),
        stream_safe_states(s).nonstarters <= MAX_NONSTARTERS as int,
        nonstarter_runs_bounded(decomposed(stream_safe_states(s).emitted, true)),
    decreases s.len(),
{
    if s.len() == 0 {
        assert(decomposed(stream_safe_states(s).emitted, true) =~= Seq::<char>::empty());
    } else {
        lemma_stream_safe_states_bounded(s.drop_last());
        let st = stream_safe_states(s.drop_last());
        let c = s.last();
        let d = char_decomposition(c, true);
        let u = decomposed(st.emitted, true);
        lemma_classification_matches(c);
        lemma_counts_le_len(d);
        lemma_all_nonstarters(d);
        assert(decomposition_len_of(c) <= MAX_NONSTARTERS as int);
        let joined = st.nonstarters + leading_ns_of(c) > MAX_NONSTARTERS as int;
        if !joined {
            lemma_decomposed_push(st.emitted, c, true);
            lemma_bounded_append(u, d);
        } else {
            let g = seq![COMBINING_GRAPHEME_JOINER];
            assert(decomposed(st.emitted + seq![COMBINING_GRAPHEME_JOINER, c], true) == decomposed(
                st.emitted,
                true,
            ) + g + d) by {
                assert(st.emitted + seq![COMBINING_GRAPHEME_JOINER, c] =~= st.emitted.push(
                    COMBINING_GRAPHEME_JOINER,
                ).push(c));
                lemma_decomposed_push(st.emitted.push(COMBINING_GRAPHEME_JOINER), c, true);
                lemma_decomposed_push(st.emitted, COMBINING_GRAPHEME_JOINER, true);
                assert(char_decomposition(COMBINING_GRAPHEME_JOINER, true) == g);
            }
            assert(char_class_spec(g[0]) == 0);
            assert(leading_nonstarter_count(g) == 0);
            assert(trailing_nonstarter_count(g) == 0);
            lemma_bounded_append(u, g);
            assert(trailing_nonstarter_count(u + g) == 0);
            lemma_bounded_append(u + g, d);
            assert(u + g + d == decomposed(stream_safe_states(s).emitted, true));
        }
    }
}

/// The stream-safe guarantee of UAX15-D4: under the named data facts of
/// the provider, the transformed output never holds more than 30
/// consecutive nonstarters, measured on its NFKD image.
pub proof fn lemma_stream_safe_bound(s: Seq<char>)
    ensures
        stream_safe_tables_ok() ==> nonstarter_runs_bounded(decomposed(stream_safe_seq(s), true)),
{
    if stream_safe_tables_ok() {
        lemma_stream_safe_states_bounded(s);
    }
}

/// The decomposed forms reorder and never rewrite: each is a
/// canonically ordered permutation of the full decomposition of its
/// input.
pub proof fn lemma_decomposed_forms_shape(s: Seq<char>)
    ensures
        canonically_ordered(nfd_seq(s)),
        canonically_ordered(nfkd_seq(s)),
        nfd_seq(s).to_multiset() == decomposed(s, false).to_multiset(),
        nfkd_seq(s).to_multiset() == decomposed(s, true).to_multiset(),
{
    lemma_ordered_onto_ordered(Seq::<char>::empty(), decomposed(s, false));
    lemma_ordered_onto_ordered(Seq::<char>::empty(), decomposed(s, true));
    lemma_ordered_onto_multiset(Seq::<char>::empty(), decomposed(s, false));
    lemma_ordered_onto_multiset(Seq::<char>::empty(), decomposed(s, true));
    assert(Seq::<char>::empty().to_multiset() =~= Multiset::<char>::empty());
    assert(Multiset::<char>::empty().add(decomposed(s, false).to_multiset()) =~= decomposed(
        s,
        false,
    ).to_multiset());
    assert(Multiset::<char>::empty().add(decomposed(s, true).to_multiset()) =~= decomposed(
        s,
        true,
    ).to_multiset());
}

proof fn lemma_push_ordered(u: Seq<char>, c: char)
    requires
        canonically_ordered(u.push(c)),
    ensures
        canonical_insert(u, c) == u.push(c),
{
    if u.len() > 0 && char_class_spec(c) != 0 {
        assert(u.last() == u.push(c)[u.len() - 1]);
        assert(u.push(c)[u.len() as int] == c);
        assert(char_class_spec(u.last()) <= char_class_spec(c));
    }
}

proof fn lemma_insert_commute(x: Seq<char>, c: char, p: char)
    requires
        char_class_spec(p) != 0,
        char_class_spec(c) != 0,
        char_class_spec(p) < char_class_spec(c),
    ensures
        canonical_insert(canonical_insert(x, c), p) == canonical_insert(
            canonical_insert(x, p),
            c,
        ),
    decreases x.len(),
{
    if x.len() == 0 {
        assert(canonical_insert(x, c) == x.push(c));
        assert(x.push(c).drop_last() =~= x);
        assert(canonical_insert(x.push(c), p) == canonical_insert(x, p).push(c));
        assert(canonical_insert(x, p) == x.push(p));
        assert(canonical_insert(x.push(p), c) == x.push(p).push(c));
        assert(canonical_insert(x, p).push(c) =~= x.push(p).push(c));
    } else {
        let e = x.last();
        let xd = x.drop_last();
        if char_class_spec(e) > char_class_spec(c) {
            lemma_insert_commute(xd, c, p);
            let qc = canonical_insert(xd, c);
            assert(canonical_insert(x, c) == qc.push(e));
            assert(qc.push(e).drop_last() =~= qc);
            assert(canonical_insert(qc.push(e), p) == canonical_insert(qc, p).push(e));
            let qp = canonical_insert(xd, p);
            assert(canonical_insert(x, p) == qp.push(e));
            assert(qp.push(e).drop_last() =~= qp);
            assert(canonical_insert(qp.push(e), c) == canonical_insert(qp, c).push(e));
        } else if char_class_spec(e) > char_class_spec(p) {
            assert(canonical_insert(x, c) == x.push(c));
            assert(x.push(c).drop_last() =~= x);
            assert(canonical_insert(x.push(c), p) == canonical_insert(x, p).push(c));
            let qp = canonical_insert(xd, p);
            assert(canonical_insert(x, p) == qp.push(e));
            assert(qp.push(e).drop_last() =~= qp);
            assert(canonical_insert(qp.push(e), c) == qp.push(e).push(c));
            assert(canonical_insert(x, p).push(c) =~= qp.push(e).push(c));
        } else {
            assert(canonical_insert(x, c) == x.push(c));
            assert(x.push(c).drop_last() =~= x);
            assert(canonical_insert(x.push(c), p) == canonical_insert(x, p).push(c));
            assert(canonical_insert(x, p) == x.push(p));
            assert(x.push(p).drop_last() =~= x);
            assert(canonical_insert(x.push(p), c) == x.push(p).push(c));
            assert(canonical_insert(x, p).push(c) =~= x.push(p).push(c));
        }
    }
}

proof fn lemma_insert_through_onto(x: Seq<char>, pend: Seq<char>, c: char)
    requires
        char_class_spec(c) != 0,
        forall|j: int|
            0 <= j < pend.len() ==> 0 < char_class_spec(#[trigger] pend[j]) < char_class_spec(c),
    ensures
        canonical_ordered_onto(canonical_insert(x, c), pend) == canonical_insert(
            canonical_ordered_onto(x, pend),
            c,
        ),
    decreases pend.len(),
{
    if pend.len() > 0 {
        let pd = pend.drop_last();
        assert(forall|j: int| 0 <= j < pd.len() ==> pd[j] == pend[j]);
        lemma_insert_through_onto(x, pd, c);
        lemma_insert_commute(canonical_ordered_onto(x, pd), c, pend.last());
    }
}

/// The decomposition of the buffered composee, if any.
pub open spec fn composee_decomposition(o: Option<char>, compat: bool) -> Seq<char> {
    match o {
        Some(k) => char_decomposition(k, compat),
        None => Seq::<char>::empty(),
    }
}

/// The data facts of the UCD that recomposition-inversion rests on: the
/// primary composition table is the inverse of first-level canonical
/// decomposition, so a composite's full decomposition is its first
/// component's followed by its second component; leading consonant jamo
/// have no tabulated decomposition; and ASCII characters are starters.
pub open spec fn recomposition_tables_ok(compat: bool) -> bool {
    &&& forall|a: char, b: char|
        (#[trigger] composition_entry(a, b)) matches Some(p) ==> char_decomposition(p, compat)
            == char_decomposition(a, compat) + seq![b]
    &&& forall|c: char|
        L_BASE as int <= c as int && (c as int) < L_BASE as int + L_COUNT as int
            ==> #[trigger] char_decomposition(c, compat) == seq![c]
    &&& forall|c: char| c as u32 <= 0x7f ==> #[trigger] combining_class_of(c) == 0
}

proof fn lemma_raw_class_is_char_class(compat: bool)
    requires
        recomposition_tables_ok(compat),
    ensures
        forall|c: char| #[trigger] combining_class_of(c) == char_class_spec(c),
{
}

proof fn lemma_decomposed_concat(a: Seq<char>, b: Seq<char>, compat: bool)
    ensures
        decomposed(a + b, compat) == decomposed(a, compat) + decomposed(b, compat),
    decreases b.len(),
{
    if b.len() == 0 {
        assert(a + b =~= a);
        assert(decomposed(a, compat) + decomposed(b, compat) =~= decomposed(a, compat));
    } else {
        lemma_decomposed_concat(a, b.drop_last(), compat);
        assert((a + b).drop_last() =~= a + b.drop_last());
        assert((a + b).last() == b.last());
        assert(decomposed(a, compat) + (decomposed(b.drop_last(), compat) + char_decomposition(
            b.last(),
            compat,
        )) =~= (decomposed(a, compat) + decomposed(b.drop_last(), compat)) + char_decomposition(
            b.last(),
            compat,
        ));
    }
}

proof fn lemma_onto_singleton(x: Seq<char>, c: char)
    ensures
        canonical_ordered_onto(x, seq![c]) == canonical_insert(x, c),
{
    assert(seq![c].drop_last() =~= Seq::<char>::empty());
    assert(seq![c].last() == c);
    assert(canonical_ordered_onto(x, Seq::<char>::empty()) == x);
    assert(canonical_ordered_onto(x, seq![c]) == canonical_insert(
        canonical_ordered_onto(x, seq![c].drop_last()),
        c,
    ));
}

/// The composition in force inverts one step of decomposition.
proof fn lemma_compose_pair_expansion(a: char, b: char, compat: bool)
    requires
        recomposition_tables_ok(compat),
        compose_pair_spec(a, b) is Some,
    ensures
        char_decomposition(compose_pair_spec(a, b)->0, compat) == char_decomposition(a, compat)
            + seq![b],
{
    let p = compose_pair_spec(a, b)->0;
    match compose_hangul_spec(a, b) {
        Some(q) => {
            crate::hangul::lemma_compose_hangul_expansion(a, b);
            assert(q == p);
            assert(char_decomposition(p, compat) == crate::hangul::hangul_decomposition_spec(p));
            if is_hangul_syllable_spec(a) {
                assert(char_decomposition(a, compat) == crate::hangul::hangul_decomposition_spec(
                    a,
                ));
                assert(crate::hangul::hangul_decomposition_spec(a).push(b)
                    =~= crate::hangul::hangul_decomposition_spec(a) + seq![b]);
            } else {
                assert(L_BASE as int <= a as int && (a as int) < L_BASE as int + L_COUNT as int);
                assert(char_decomposition(a, compat) == seq![a]);
                assert(seq![a, b] =~= seq![a] + seq![b]);
            }
        },
        None => {
        },
    }
}

proof fn lemma_run_step_class(y: Seq<char>)
    requires
        canonically_ordered(y),
        y.len() >= 2,
        char_class_spec(y.last()) != 0,
    ensures
        char_class_spec(y[y.len() - 2]) <= char_class_spec(y.last()),
{
}

/// Induction core for recomposition-inversion: along the pass, the
/// decompositions of what was emitted, of the composee and of the
/// pending nonstarters, put back in canonical order, reproduce the
/// consumed input exactly.
spec fn recompose_flat(st: RecompositionState, compat: bool) -> Seq<char> {
    decomposed(st.emitted, compat) + composee_decomposition(st.composee, compat) + st.pending
}

proof fn lemma_decomposed_singleton(k: char, compat: bool)
    ensures
        decomposed(seq![k], compat) == char_decomposition(k, compat),
{
    assert(seq![k].drop_last() =~= Seq::<char>::empty());
    assert(seq![k].last() == k);
    assert(decomposed(Seq::<char>::empty(), compat) == Seq::<char>::empty());
    assert(decomposed(seq![k], compat) == decomposed(seq![k].drop_last(), compat)
        + char_decomposition(k, compat));
    assert(Seq::<char>::empty() + char_decomposition(k, compat) =~= char_decomposition(k, compat));
}

proof fn lemma_flat_push_end(flat0: Seq<char>, yd: Seq<char>, ch: char)
    requires
        canonical_ordered_onto(Seq::<char>::empty(), flat0) == yd,
        canonically_ordered(yd.push(ch)),
    ensures
        canonical_ordered_onto(Seq::<char>::empty(), flat0 + seq![ch]) == yd.push(ch),
{
    lemma_ordered_onto_concat(Seq::<char>::empty(), flat0, seq![ch]);
    lemma_onto_singleton(yd, ch);
    lemma_push_ordered(yd, ch);
}

/// The invariant clauses carried through one recomposition step.
spec fn recompose_inv(st: RecompositionState, y: Seq<char>, compat: bool) -> bool {
    &&& canonical_ordered_onto(Seq::<char>::empty(), recompose_flat(st, compat)) == y
    &&& (st.composee is None ==> st.pending == Seq::<char>::empty() && st.last_class is None)
    &&& (st.last_class is None ==> st.pending == Seq::<char>::empty())
    &&& (st.last_class matches Some(l) ==> 0 < l && y.len() >= 1 && char_class_spec(y.last()) >= l
        && char_class_spec(y.last()) != 0 && forall|j: int|
        0 <= j < st.pending.len() ==> 0 < char_class_spec(#[trigger] st.pending[j]) <= l)
    &&& forall|j: int| 0 <= j < st.pending.len() ==> inert(#[trigger] st.pending[j], compat)
}

#[verifier::rlimit(60)]
proof fn lemma_step_invariant(st0: RecompositionState, yd: Seq<char>, ch: char, compat: bool)
    requires
        recomposition_tables_ok(compat),
        canonically_ordered(yd.push(ch)),
        inert(ch, compat),
        recompose_inv(st0, yd, compat),
    ensures
        recompose_inv(recompose_step(st0, ch), yd.push(ch), compat),
{
    lemma_raw_class_is_char_class(compat);
    let e = Seq::<char>::empty();
    let st = recompose_step(st0, ch);
    let cl = combining_class_of(ch);
    let y = yd.push(ch);
    assert(y.last() == ch && y.drop_last() =~= yd);
    let em0 = decomposed(st0.emitted, compat);
    let cd0 = composee_decomposition(st0.composee, compat);
    let flat0 = recompose_flat(st0, compat);
    match st0.composee {
        None => {
            if cl != 0 {
                lemma_decomposed_push(st0.emitted, ch, compat);
                assert(recompose_flat(st, compat) =~= flat0 + seq![ch]);
            } else {
                assert(recompose_flat(st, compat) =~= flat0 + seq![ch]);
            }
            lemma_flat_push_end(flat0, yd, ch);
        },
        Some(k) => {
            match st0.last_class {
                None => {
                    match compose_pair_spec(k, ch) {
                        Some(r) => {
                            lemma_compose_pair_expansion(k, ch, compat);
                            assert(recompose_flat(st, compat) =~= flat0 + seq![ch]);
                        },
                        None => {
                            if cl == 0 {
                                lemma_decomposed_push(st0.emitted, k, compat);
                                assert(recompose_flat(st, compat) =~= flat0 + seq![ch]);
                            } else {
                                assert(st.pending =~= seq![ch]);
                                assert(recompose_flat(st, compat) =~= flat0 + seq![ch]);
                            }
                        },
                    }
                    lemma_flat_push_end(flat0, yd, ch);
                },
                Some(l) => {
                    assert(yd.last() == y[y.len() - 2]);
                    if l >= cl {
                        if cl == 0 {
                            assert(st.emitted == st0.emitted + seq![k] + st0.pending);
                            lemma_decomposed_concat(st0.emitted + seq![k], st0.pending, compat);
                            lemma_decomposed_concat(st0.emitted, seq![k], compat);
                            lemma_decomposed_singleton(k, compat);
                            lemma_decomposed_of_inert(st0.pending, compat);
                            assert(recompose_flat(st, compat) =~= flat0 + seq![ch]);
                            lemma_flat_push_end(flat0, yd, ch);
                        } else {
                            lemma_run_step_class(y);
                            assert(cl >= l);
                            assert(st.pending == st0.pending.push(ch));
                            assert(recompose_flat(st, compat) =~= flat0 + seq![ch]);
                            lemma_flat_push_end(flat0, yd, ch);
                            assert(forall|j: int|
                                0 <= j < st0.pending.len() ==> st.pending[j] == st0.pending[j]);
                            assert(st.pending[st.pending.len() - 1] == ch);
                        }
                    } else {
                        match compose_pair_spec(k, ch) {
                            Some(r) => {
                                lemma_compose_pair_expansion(k, ch, compat);
                                let base = em0 + cd0;
                                assert(recompose_flat(st, compat) =~= (base + seq![ch])
                                    + st0.pending);
                                lemma_ordered_onto_concat(e, base + seq![ch], st0.pending);
                                lemma_ordered_onto_concat(e, base, seq![ch]);
                                lemma_onto_singleton(canonical_ordered_onto(e, base), ch);
                                lemma_insert_through_onto(
                                    canonical_ordered_onto(e, base),
                                    st0.pending,
                                    ch,
                                );
                                lemma_ordered_onto_concat(e, base, st0.pending);
                                assert(base + st0.pending =~= flat0);
                                assert(canonical_ordered_onto(e, recompose_flat(st, compat))
                                    == canonical_insert(yd, ch));
                                lemma_push_ordered(yd, ch);
                            },
                            None => {
                                assert(st.pending == st0.pending.push(ch));
                                assert(recompose_flat(st, compat) =~= flat0 + seq![ch]);
                                lemma_flat_push_end(flat0, yd, ch);
                                assert(forall|j: int|
                                    0 <= j < st0.pending.len() ==> st.pending[j]
                                        == st0.pending[j]);
                                assert(st.pending[st.pending.len() - 1] == ch);
                            },
                        }
                    }
                },
            }
        },
    }
}

/// Induction core for recomposition-inversion: along the pass, the
/// decompositions of what was emitted, of the composee and of the
/// pending nonstarters, put back in canonical order, reproduce the
/// consumed input exactly.
proof fn lemma_recompose_inverts(y: Seq<char>, compat: bool)
    requires
        recomposition_tables_ok(compat),
        canonically_ordered(y),
        forall|j: int| 0 <= j < y.len() ==> inert(#[trigger] y[j], compat),
    ensures
        recompose_inv(recompose_states(y), y, compat),
    decreases y.len(),
{
    if y.len() == 0 {
        assert(y =~= Seq::<char>::empty());
        assert(recompose_flat(recompose_states(y), compat) =~= Seq::<char>::empty());
        assert(canonical_ordered_onto(Seq::<char>::empty(), Seq::<char>::empty())
            == Seq::<char>::empty());
    } else {
        let yd = y.drop_last();
        let ch = y.last();
        assert(canonically_ordered(yd) && forall|j: int|
            0 <= j < yd.len() ==> inert(#[trigger] yd[j], compat)) by {
            assert(forall|j: int| 0 <= j < yd.len() ==> yd[j] == y[j]);
        }
        lemma_recompose_inverts(yd, compat);
        assert(canonically_ordered(yd.push(ch)) && inert(ch, compat)) by {
            assert(yd.push(ch) =~= y);
        }
        lemma_step_invariant(recompose_states(yd), yd, ch, compat);
        assert(recompose_states(y) == recompose_step(recompose_states(yd), ch));
        assert(yd.push(ch) =~= y);
    }
}

/// Decomposing and canonically ordering the recomposition of a
/// canonically ordered, fully decomposed sequence reproduces it.
proof fn lemma_recomposed_normalizes_back(y: Seq<char>, compat: bool)
    requires
        recomposition_tables_ok(compat),
        canonically_ordered(y),
        forall|j: int| 0 <= j < y.len() ==> inert(#[trigger] y[j], compat),
    ensures
        canonical_ordered_onto(Seq::<char>::empty(), decomposed(recomposed(y), compat)) == y,
{
    lemma_recompose_inverts(y, compat);
    let st = recompose_states(y);
    let mid = match st.composee {
        Some(k) => seq![k],
        None => Seq::<char>::empty(),
    };
    lemma_decomposed_concat(st.emitted + mid, st.pending, compat);
    lemma_decomposed_concat(st.emitted, mid, compat);
    lemma_decomposed_of_inert(st.pending, compat);
    assert(decomposed(mid, compat) =~= composee_decomposition(st.composee, compat)) by {
        match st.composee {
            Some(k) => {
                assert(seq![k].drop_last() =~= Seq::<char>::empty());
                assert(seq![k].last() == k);
                assert(decomposed(Seq::<char>::empty(), compat) == Seq::<char>::empty());
                assert(decomposed(seq![k], compat) == decomposed(seq![k].drop_last(), compat)
                    + char_decomposition(k, compat));
            },
            None => {
                assert(decomposed(mid, compat) == Seq::<char>::empty());
            },
        }
    }
    assert(decomposed(recomposed(y), compat) =~= decomposed(st.emitted, compat)
        + composee_decomposition(st.composee, compat) + st.pending);
}

proof fn lemma_normalized_elements_inert(s: Seq<char>, compat: bool)
    requires
        tables_fully_expanded(compat),
    ensures
        forall|j: int|
            0 <= j < canonical_ordered_onto(Seq::<char>::empty(), decomposed(s, compat)).len()
                ==> inert(
                #[trigger] canonical_ordered_onto(Seq::<char>::empty(), decomposed(s, compat))[j],
                compat,
            ),
{
    let z = decomposed(s, compat);
    let y = canonical_ordered_onto(Seq::<char>::empty(), z);
    lemma_decomposed_elements_inert(s, compat);
    lemma_ordered_onto_multiset(Seq::<char>::empty(), z);
    assert(y.to_multiset() =~= z.to_multiset()) by {
        assert(Seq::<char>::empty().to_multiset() =~= Multiset::<char>::empty());
    }
    assert forall|j: int| 0 <= j < y.len() implies inert(#[trigger] y[j], compat) by {
        assert(y.contains(y[j]));
        assert(y.to_multiset().count(y[j]) > 0);
        assert(z.to_multiset().count(y[j]) > 0);
        assert(z.contains(y[j]));
        let k = choose|k: int| 0 <= k < z.len() && z[k] == y[j];
        assert(inert(z[k], compat));
    }
}

/// Idempotence of NFC: applying the transform to its own output
/// changes nothing, given that the provider's canonical tables are
/// fully expanded and its composition table inverts them.
pub proof fn lemma_nfc_idempotent(s: Seq<char>)
    ensures
        tables_fully_expanded(false) && recomposition_tables_ok(false) ==> nfc_seq(nfc_seq(s))
            == nfc_seq(s),
{
    if tables_fully_expanded(false) && recomposition_tables_ok(false) {
        let y = nfd_seq(s);
        lemma_ordered_onto_ordered(Seq::<char>::empty(), decomposed(s, false));
        lemma_normalized_elements_inert(s, false);
        lemma_recomposed_normalizes_back(y, false);
    }
}

/// Idempotence of NFKC: applying the transform to its own output
/// changes nothing, given that the provider's compatibility tables are
/// fully expanded and its composition table inverts them.
pub proof fn lemma_nfkc_idempotent(s: Seq<char>)
    ensures
        tables_fully_expanded(true) && recomposition_tables_ok(true) ==> nfkc_seq(nfkc_seq(s))
            == nfkc_seq(s),
{
    if tables_fully_expanded(true) && recomposition_tables_ok(true) {
        let y = nfkd_seq(s);
        lemma_ordered_onto_ordered(Seq::<char>::empty(), decomposed(s, true));
        lemma_normalized_elements_inert(s, true);
        lemma_recomposed_normalizes_back(y, true);
    }
}

/// An undecided quick check is resolved by the authoritative fallback:
/// whenever the single-pass check answers `Maybe`, the membership
/// checks answer exactly whether the text equals its own normalization.
/// (That `Yes` and `No` answers agree with true membership is a
/// property of the provider's quick-check tables, which Verus cannot
/// inspect.)
pub proof fn lemma_quick_check_resolution(s: Seq<char>)
    ensures
        quick_check_spec(Form::Nfc, false, s) is Maybe ==> (is_nfc_spec(s) <==> s == nfc_seq(s)),
        quick_check_spec(Form::Nfd, false, s) is Maybe ==> (is_nfd_spec(s) <==> s == nfd_seq(s)),
        quick_check_spec(Form::Nfkc, false, s) is Maybe ==> (is_nfkc_spec(s) <==> s == nfkc_seq(
            s,
        )),
        quick_check_spec(Form::Nfkd, false, s) is Maybe ==> (is_nfkd_spec(s) <==> s == nfkd_seq(
            s,
        )),
{
}

} // verus!
