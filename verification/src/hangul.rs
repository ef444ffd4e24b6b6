//! Algorithmic (de)composition of Hangul syllables.
//!
//! Hangul syllables are not tabulated in the UCD decomposition tables;
//! they decompose to and compose from conjoining jamo by index
//! arithmetic (Unicode chapter 3.12, Conjoining Jamo Behavior).

use vstd::prelude::*;

verus! {

broadcast use vstd::utf8::char_u32_cast;

pub const S_BASE: u32 = 0xAC00;
pub const L_BASE: u32 = 0x1100;
pub const V_BASE: u32 = 0x1161;
pub const T_BASE: u32 = 0x11A7;
pub const L_COUNT: u32 = 19;
pub const V_COUNT: u32 = 21;
pub const T_COUNT: u32 = 28;
pub const N_COUNT: u32 = V_COUNT * T_COUNT;
pub const S_COUNT: u32 = L_COUNT * N_COUNT;

/// True exactly when `c` lies in the precomposed Hangul syllable block.
pub open spec fn is_hangul_syllable_spec(c: char) -> bool {
    S_BASE <= c as u32 && (c as u32) < S_BASE + S_COUNT
}

pub fn is_hangul_syllable(c: char) -> (r: bool)
    ensures
        r == is_hangul_syllable_spec(c),
{
    let u = c as u32;
    S_BASE <= u && u < S_BASE + S_COUNT
}

/// The jamo expansion of the syllable `c`: an L and a V jamo, followed
/// by a T jamo when the syllable has a trailing consonant.
pub open spec fn hangul_decomposition_spec(c: char) -> Seq<char>
    recommends
        is_hangul_syllable_spec(c),
{
    let si = c as int - S_BASE as int;
    let l = (L_BASE as int + si / (N_COUNT as int)) as char;
    let v = (V_BASE as int + (si % (N_COUNT as int)) / (T_COUNT as int)) as char;
    let ti = si % (T_COUNT as int);
    if ti > 0 {
        seq![l, v, (T_BASE as int + ti) as char]
    } else {
        seq![l, v]
    }
}

/// Number of jamo in the expansion of the syllable `c`: 2 when the
/// syllable has no trailing consonant, else 3.
pub open spec fn hangul_decomposition_length_spec(c: char) -> int {
    if (c as int - S_BASE as int) % (T_COUNT as int) > 0 {
        3
    } else {
        2
    }
}

pub fn hangul_decomposition_length(c: char) -> (r: usize)
    requires
        is_hangul_syllable_spec(c),
    ensures
        r == hangul_decomposition_length_spec(c),
{
    let si = c as u32 - S_BASE;
    if si % T_COUNT > 0 {
        3
    } else {
        2
    }
}

pub fn decompose_hangul(c: char) -> (r: Vec<char>)
    requires
        is_hangul_syllable_spec(c),
    ensures
        r@ == hangul_decomposition_spec(c),
        r@.len() == hangul_decomposition_length_spec(c),
{
    let si = c as u32 - S_BASE;
    let l_index = si / N_COUNT;
    let v_index = (si % N_COUNT) / T_COUNT;
    let t_index = si % T_COUNT;
    proof {
        assert(si < S_COUNT);
        assert(l_index < L_COUNT) by (nonlinear_arith)
            requires
                si < 11172,
                l_index == si / 588,
        ;
        assert(si % N_COUNT < N_COUNT);
        assert(v_index < V_COUNT) by (nonlinear_arith)
            requires
                si % 588 < 588,
                v_index == (si % 588) / 28,
        ;
        assert(t_index < T_COUNT);
    }
    let l = char_of(L_BASE + l_index);
    let v = char_of(V_BASE + v_index);
    let mut out: Vec<char> = Vec::new();
    out.push(l);
    out.push(v);
    if t_index > 0 {
        out.push(char_of(T_BASE + t_index));
        proof {
            assert(out@ =~= hangul_decomposition_spec(c));
        }
    } else {
        proof {
            assert(out@ =~= hangul_decomposition_spec(c));
        }
    }
    out
}

/// Compose an L jamo with a V jamo into an LV syllable, or an LV
/// syllable with a T jamo strictly after the "no trailing consonant"
/// sentinel into an LVT syllable; all other pairs do not compose.
pub open spec fn compose_hangul_spec(a: char, b: char) -> Option<char> {
    let au = a as int;
    let bu = b as int;
    if L_BASE as int <= au && au < L_BASE as int + L_COUNT as int && V_BASE as int <= bu && bu
        < V_BASE as int + V_COUNT as int {
        Some(
            ((S_BASE as int) + (au - L_BASE as int) * (N_COUNT as int) + (bu - V_BASE as int) * (
            T_COUNT as int)) as char,
        )
    } else if S_BASE as int <= au && au < S_BASE as int + S_COUNT as int && (au - S_BASE as int) % (
    T_COUNT as int) == 0 && T_BASE as int + 1 <= bu && bu < T_BASE as int + T_COUNT as int {
        Some((au + (bu - T_BASE as int)) as char)
    } else {
        None
    }
}

pub fn compose_hangul(a: char, b: char) -> (r: Option<char>)
    ensures
        r == compose_hangul_spec(a, b),
{
    let au = a as u32;
    let bu = b as u32;
    if L_BASE <= au && au < L_BASE + L_COUNT && V_BASE <= bu && bu < V_BASE + V_COUNT {
        let l_index = au - L_BASE;
        let v_index = bu - V_BASE;
        proof {
            assert(l_index * N_COUNT <= 18 * 588) by (nonlinear_arith)
                requires
                    l_index <= 18,
            ;
            assert(v_index * T_COUNT <= 20 * 28) by (nonlinear_arith)
                requires
                    v_index <= 20,
            ;
        }
        let s = S_BASE + l_index * N_COUNT + v_index * T_COUNT;
        Some(char_of(s))
    } else if S_BASE <= au && au < S_BASE + S_COUNT && (au - S_BASE) % T_COUNT == 0 && T_BASE + 1
        <= bu && bu < T_BASE + T_COUNT {
        Some(char_of(au + (bu - T_BASE)))
    } else {
        None
    }
}

/// Build the character with code `v`, proved valid by the caller.
fn char_of(v: u32) -> (c: char)
    requires
        crate::lookups::is_unicode_scalar(v),
    ensures
        c as u32 == v,
        c == (v as int) as char,
{
    let r = core::char::from_u32(v);
    let c = r.unwrap();
    proof {
        assert(c as u32 == v);
        vstd::utf8::char_u32_cast(c, v);
        assert(v as char == c);
        assert((v as int) as char == v as char);
    }
    c
}

/// Hangul composition inverts the jamo expansion: an LV syllable
/// expands to its L and V jamo, and an LVT syllable expands to the
/// expansion of its LV part followed by its T jamo.
pub proof fn lemma_compose_hangul_expansion(a: char, b: char)
    requires
        compose_hangul_spec(a, b) is Some,
    ensures
        is_hangul_syllable_spec(compose_hangul_spec(a, b)->0),
        !is_hangul_syllable_spec(a) ==> hangul_decomposition_spec(compose_hangul_spec(a, b)->0)
            == seq![a, b],
        is_hangul_syllable_spec(a) ==> hangul_decomposition_spec(compose_hangul_spec(a, b)->0)
            == hangul_decomposition_spec(a).push(b),
{
    let au = a as int;
    let bu = b as int;
    vstd::utf8::char_u32_cast(a, a as u32);
    vstd::utf8::char_u32_cast(b, b as u32);
    assert(au as char == a && bu as char == b);
    if L_BASE as int <= au && au < L_BASE as int + L_COUNT as int && V_BASE as int <= bu && bu
        < V_BASE as int + V_COUNT as int {
        let li = au - L_BASE as int;
        let vi = bu - V_BASE as int;
        let x = S_BASE as int + li * (N_COUNT as int) + vi * (T_COUNT as int);
        let p = compose_hangul_spec(a, b)->0;
        assert(0 <= li * 588 <= 18 * 588 && 0 <= vi * 28 <= 20 * 28) by (nonlinear_arith)
            requires
                0 <= li <= 18,
                0 <= vi <= 20,
        ;
        assert(p as int == x);
        let si = x - S_BASE as int;
        assert(si / 588 == li && si % 588 == vi * 28 && si % 28 == 0 && (vi * 28) / 28 == vi)
            by (nonlinear_arith)
            requires
                si == li * 588 + vi * 28,
                0 <= li <= 18,
                0 <= vi <= 20,
        ;
        assert(hangul_decomposition_spec(p) =~= seq![a, b]);
    } else {
        let ti = bu - T_BASE as int;
        let x = au + ti;
        let p = compose_hangul_spec(a, b)->0;
        assert(p as int == x);
        let si_a = au - S_BASE as int;
        let si_p = x - S_BASE as int;
        let q = si_a / 588;
        let r = si_a % 588;
        assert(si_a == 588 * q + r && 0 <= r < 588 && r % 28 == 0 && si_a % 28 == 0 && 0 <= q)
            by (nonlinear_arith)
            requires
                0 <= si_a < 11172,
                si_a % 28 == 0,
                q == si_a / 588,
                r == si_a % 588,
        ;
        assert(r <= 560) by (nonlinear_arith)
            requires
                0 <= r < 588,
                r % 28 == 0,
        ;
        assert(si_p / 588 == q && si_p % 588 == r + ti && si_p % 28 == ti && (r + ti) / 28 == r
            / 28) by (nonlinear_arith)
            requires
                si_p == 588 * q + r + ti,
                0 <= r <= 560,
                r % 28 == 0,
                1 <= ti <= 27,
                0 <= q,
        ;
        assert(hangul_decomposition_spec(p) =~= hangul_decomposition_spec(a).push(b));
    }
}

} // verus!
