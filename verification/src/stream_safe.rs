//! Stream-safe bounding (UAX15-D4): caps runs of nonstarters, measured
//! in NFKD-equivalent units, at a fixed maximum of 30 by inserting a
//! COMBINING GRAPHEME JOINER where a run would grow past the bound.

use vstd::prelude::*;

use crate::decompose::char_class_spec;
use crate::hangul::{
    hangul_decomposition_length, hangul_decomposition_length_spec, is_hangul_syllable,
    is_hangul_syllable_spec,
};
use crate::lookups::{compatibility_decomposition, compatibility_expansion};
use crate::text::{chars_string, str_chars};

verus! {

/// Longest permitted nonstarter run, a protocol constant of UAX15-D4.
pub const MAX_NONSTARTERS: usize = 30;

/// U+034F, a starter that carries no meaning of its own; inserting it
/// legally breaks a nonstarter run.
pub const COMBINING_GRAPHEME_JOINER: char = '\u{034F}';

/// Number of leading characters of `d` with nonzero combining class.
pub open spec fn leading_nonstarter_count(d: Seq<char>) -> int
    decreases d.len(),
{
    if d.len() == 0 {
        0
    } else if char_class_spec(d[0]) != 0 {
        1 + leading_nonstarter_count(d.drop_first())
    } else {
        0
    }
}

/// Number of trailing characters of `d` with nonzero combining class.
pub open spec fn trailing_nonstarter_count(d: Seq<char>) -> int
    decreases d.len(),
{
    if d.len() == 0 {
        0
    } else if char_class_spec(d.last()) != 0 {
        1 + trailing_nonstarter_count(d.drop_last())
    } else {
        0
    }
}

/// Leading nonstarters of the compatibility-preferred decomposition of
/// `c`: ASCII is a starter, Hangul expansions start with an L jamo.
pub open spec fn leading_ns_of(c: char) -> int {
    if c as u32 <= 0x7f {
        0
    } else if is_hangul_syllable_spec(c) {
        0
    } else {
        leading_nonstarter_count(compatibility_expansion(c))
    }
}

/// Trailing nonstarters of the compatibility-preferred decomposition of
/// `c`.
pub open spec fn trailing_ns_of(c: char) -> int {
    if c as u32 <= 0x7f {
        0
    } else if is_hangul_syllable_spec(c) {
        0
    } else {
        trailing_nonstarter_count(compatibility_expansion(c))
    }
}

/// Length of the compatibility-preferred decomposition of `c`.
pub open spec fn decomposition_len_of(c: char) -> int {
    if c as u32 <= 0x7f {
        1
    } else if is_hangul_syllable_spec(c) {
        hangul_decomposition_length_spec(c)
    } else {
        compatibility_expansion(c).len() as int
    }
}

/// Nonstarter counts at the edges of a character's
/// compatibility-preferred (NFKD) decomposition, and its length.
pub struct Decomposition {
    pub leading_nonstarters: usize,
    pub trailing_nonstarters: usize,
    pub decomposition_len: usize,
}

proof fn lemma_leading_count(d: Seq<char>, i: int)
    requires
        0 <= i <= d.len(),
        forall|k: int| 0 <= k < i ==> char_class_spec(d[k]) != 0,
        i == d.len() || char_class_spec(d[i]) == 0,
    ensures
        leading_nonstarter_count(d) == i,
    decreases i,
{
    if i > 0 {
        lemma_leading_count(d.drop_first(), i - 1);
    }
}

proof fn lemma_trailing_count(d: Seq<char>, i: int)
    requires
        0 <= i <= d.len(),
        forall|k: int| d.len() - i <= k < d.len() ==> char_class_spec(d[k]) != 0,
        i == d.len() || char_class_spec(d[d.len() - i - 1]) == 0,
    ensures
        trailing_nonstarter_count(d) == i,
    decreases i,
{
    if i > 0 {
        lemma_trailing_count(d.drop_last(), i - 1);
    }
}

/// Classify `c` for stream-safe accounting without materializing its
/// decomposition in the result.
pub fn classify_nonstarters(c: char) -> (d: Decomposition)
    ensures
        d.leading_nonstarters as int == leading_ns_of(c),
        d.trailing_nonstarters as int == trailing_ns_of(c),
        d.decomposition_len as int == decomposition_len_of(c),
{
    if (c as u32) <= 0x7f {
        Decomposition { leading_nonstarters: 0, trailing_nonstarters: 0, decomposition_len: 1 }
    } else if is_hangul_syllable(c) {
        Decomposition {
            leading_nonstarters: 0,
            trailing_nonstarters: 0,
            decomposition_len: hangul_decomposition_length(c),
        }
    } else {
        let d = compatibility_decomposition(c);
        let n = d.len();
        let mut lead: usize = 0;
        while lead < n
            invariant
                n == d@.len(),
                lead <= n,
                forall|k: int| 0 <= k < lead ==> char_class_spec(d@[k]) != 0,
            ensures
                lead <= n,
                forall|k: int| 0 <= k < lead ==> char_class_spec(d@[k]) != 0,
                lead == n || char_class_spec(d@[lead as int]) == 0,
            decreases n - lead,
        {
            let cl = crate::decompose::char_class(d[lead]);
            if cl == 0 {
                break ;
            }
            lead += 1;
        }
        let mut trail: usize = 0;
        while trail < n
            invariant
                n == d@.len(),
                trail <= n,
                forall|k: int| n - trail <= k < n ==> char_class_spec(d@[k]) != 0,
            ensures
                trail <= n,
                forall|k: int| n - trail <= k < n ==> char_class_spec(d@[k]) != 0,
                trail == n || char_class_spec(d@[n - trail - 1]) == 0,
            decreases n - trail,
        {
            let cl = crate::decompose::char_class(d[n - 1 - trail]);
            if cl == 0 {
                break ;
            }
            trail += 1;
        }
        proof {
            lemma_leading_count(d@, lead as int);
            lemma_trailing_count(d@, trail as int);
        }
        Decomposition {
            leading_nonstarters: lead,
            trailing_nonstarters: trail,
            decomposition_len: n,
        }
    }
}

/// State of the stream-safe pass: characters already emitted and the
/// running NFKD-equivalent nonstarter count.
pub struct StreamSafeState {
    pub emitted: Seq<char>,
    pub nonstarters: int,
}

/// One step of the stream-safe transform. When the running count plus
/// the leading nonstarters of `c` would pass the bound, a joiner is
/// emitted before `c` and the count restarts at `c`'s own
/// contribution; either way `c` is emitted and counted: a character
/// decomposing entirely to nonstarters extends the run by its length,
/// any other resets the count to its trailing nonstarters.
pub open spec fn stream_safe_step(st: StreamSafeState, c: char) -> StreamSafeState {
    let joined = st.nonstarters + leading_ns_of(c) > MAX_NONSTARTERS as int;
    let before = if joined {
        0
    } else {
        st.nonstarters
    };
    let count = if leading_ns_of(c) == decomposition_len_of(c) {
        before + decomposition_len_of(c)
    } else {
        trailing_ns_of(c)
    };
    StreamSafeState {
        emitted: if joined {
            st.emitted + seq![COMBINING_GRAPHEME_JOINER, c]
        } else {
            st.emitted.push(c)
        },
        nonstarters: count,
    }
}

/// The stream-safe state after consuming all of `s`.
pub open spec fn stream_safe_states(s: Seq<char>) -> StreamSafeState
    decreases s.len(),
{
    if s.len() == 0 {
        StreamSafeState { emitted: Seq::empty(), nonstarters: 0 }
    } else {
        stream_safe_step(stream_safe_states(s.drop_last()), s.last())
    }
}

/// The stream-safe transform of `s`.
pub open spec fn stream_safe_seq(s: Seq<char>) -> Seq<char> {
    stream_safe_states(s).emitted
}

/// Pull-based stream-safe transformer over a character buffer: each
/// call of `next` yields the next character of the transformed stream.
pub struct StreamSafe {
    input: Vec<char>,
    pos: usize,
    nonstarter_count: usize,
    buffer: Option<char>,
    emitted: Ghost<Seq<char>>,
}

impl StreamSafe {
    /// The object's state agrees with the stream-safe transform of the
    /// consumed part of its input; a buffered character has been
    /// counted but not yet handed out.
    pub closed spec fn wf(self) -> bool {
        let st = stream_safe_states(self.input@.take(self.pos as int));
        &&& self.pos <= self.input@.len()
        &&& self.nonstarter_count as int == st.nonstarters
        &&& match self.buffer {
            None => self.emitted@ == st.emitted,
            Some(c) => self.emitted@.push(c) == st.emitted,
        }
    }

    /// The characters this object has handed out so far.
    pub closed spec fn spec_emitted(self) -> Seq<char> {
        self.emitted@
    }

    /// The input this object transforms.
    pub closed spec fn spec_input(self) -> Seq<char> {
        self.input@
    }

    /// Pulls of `next` still to come, counting the buffered character.
    pub closed spec fn remaining(self) -> int {
        2 * (self.input@.len() - self.pos) + if self.buffer is Some {
            1int
        } else {
            0int
        }
    }

    pub fn new(iter: Vec<char>) -> (s: Self)
        ensures
            s.wf(),
            s.spec_input() == iter@,
            s.spec_emitted() == Seq::<char>::empty(),
    {
        let s = StreamSafe {
            input: iter,
            pos: 0,
            nonstarter_count: 0,
            buffer: None,
            emitted: Ghost(Seq::empty()),
        };
        proof {
            assert(s.input@.take(0) =~= Seq::<char>::empty());
        }
        s
    }

    /// Produce the next character of the transformed stream, or signal
    /// its end.
    pub fn next(&mut self) -> (r: Option<char>)
        requires
            old(self).wf(),
        ensures
            final(self).wf(),
            final(self).spec_input() == old(self).spec_input(),
            match r {
                Some(c) => {
                    &&& final(self).spec_emitted() == old(self).spec_emitted().push(c)
                    &&& final(self).remaining() < old(self).remaining()
                },
                None => {
                    &&& *final(self) == *old(self)
                    &&& final(self).spec_emitted() == stream_safe_seq(final(self).spec_input())
                },
            },
    {
        match self.buffer {
            Some(c) => {
                self.buffer = None;
                proof {
                    self.emitted@ = self.emitted@.push(c);
                }
                return Some(c);
            },
            None => {},
        }
        if self.pos == self.input.len() {
            proof {
                assert(self.input@.take(self.pos as int) =~= self.input@);
            }
            return None;
        }
        let c = self.input[self.pos];
        let d = classify_nonstarters(c);
        let lead = d.leading_nonstarters;
        let overflow = lead > MAX_NONSTARTERS || self.nonstarter_count > MAX_NONSTARTERS - lead;
        let before: usize = if overflow {
            0
        } else {
            self.nonstarter_count
        };
        let newcount: usize = if lead == d.decomposition_len {
            before + d.decomposition_len
        } else {
            d.trailing_nonstarters
        };
        self.pos = self.pos + 1;
        self.nonstarter_count = newcount;
        proof {
            assert(self.input@.take(self.pos as int).drop_last() =~= self.input@.take(
                self.pos as int - 1,
            ));
            assert(self.input@.take(self.pos as int).last() == c);
        }
        if overflow {
            self.buffer = Some(c);
            proof {
                self.emitted@ = self.emitted@.push(COMBINING_GRAPHEME_JOINER);
                let st0 = stream_safe_states(self.input@.take(self.pos as int - 1));
                assert(self.emitted@.push(c) =~= st0.emitted + seq![
                    COMBINING_GRAPHEME_JOINER,
                    c,
                ]);
            }
            Some(COMBINING_GRAPHEME_JOINER)
        } else {
            proof {
                self.emitted@ = self.emitted@.push(c);
                let st0 = stream_safe_states(self.input@.take(self.pos as int - 1));
                assert(self.emitted@ =~= st0.emitted.push(c));
            }
            Some(c)
        }
    }
}

/// The stream-safe transform of `s`, whole.
pub fn stream_safe(s: &str) -> (r: String)
    ensures
        r@ == stream_safe_seq(s@),
{
    let v = str_chars(s);
    let mut it = StreamSafe::new(v);
    let mut out: Vec<char> = Vec::new();
    loop
        invariant
            it.wf(),
            it.spec_input() == s@,
            out@ == it.spec_emitted(),
        ensures
            out@ == stream_safe_seq(s@),
        decreases it.remaining(),
    {
        match it.next() {
            Some(c) => {
                out.push(c);
            },
            None => {
                break ;
            },
        }
    }
    chars_string(&out)
}

} // verus!
