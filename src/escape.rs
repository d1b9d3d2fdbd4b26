//! The resumable automaton that finds `00 00 03` escape sequences, and the
//! mathematical model of escape removal that the decoders are proved against.

use vstd::prelude::*;

verus! {

/// Progress towards the pattern `00 00 03`, as it stands before the next
/// unexamined byte.
#[derive(Copy, Clone, Debug, PartialEq, Eq, Structural)]
pub enum ParseState {
    Start,
    OneZero,
    TwoZero,
    /// Drop the next byte without looking at it.
    Skip,
}

/// Whether the byte `b`, met in state `st`, is removed from the output.
pub open spec fn is_dropped(st: ParseState, b: u8) -> bool {
    st == ParseState::Skip || (st == ParseState::TwoZero && b == 0x03)
}

/// The state after examining byte `b` in state `st`.
pub open spec fn step(st: ParseState, b: u8) -> ParseState {
    match st {
        ParseState::Start => if b == 0x00 { ParseState::OneZero } else { ParseState::Start },
        ParseState::OneZero => if b == 0x00 { ParseState::TwoZero } else { ParseState::Start },
        // `00 00 03` is an escape; `00 00 00` cannot occur in an escaped
        // stream and the scan resynchronises; any other byte restarts.
        ParseState::TwoZero => ParseState::Start,
        ParseState::Skip => ParseState::Start,
    }
}

/// The state after examining every byte of `s`, starting in `st`.
pub open spec fn state_after(st: ParseState, s: Seq<u8>) -> ParseState
    decreases s.len(),
{
    if s.len() == 0 {
        st
    } else {
        step(state_after(st, s.drop_last()), s.last())
    }
}

/// The bytes of `s` that survive escape removal, starting in state `st`.
pub open spec fn unescape_from(st: ParseState, s: Seq<u8>) -> Seq<u8>
    decreases s.len(),
{
    if s.len() == 0 {
        Seq::empty()
    } else if is_dropped(state_after(st, s.drop_last()), s.last()) {
        unescape_from(st, s.drop_last())
    } else {
        unescape_from(st, s.drop_last()).push(s.last())
    }
}

/// How many times a third zero byte follows `00 00` in `s`, starting in
/// state `st`: bytes that cannot occur in an escaped stream.
pub open spec fn anomalies(st: ParseState, s: Seq<u8>) -> nat
    decreases s.len(),
{
    if s.len() == 0 {
        0
    } else {
        anomalies(st, s.drop_last()) + if state_after(st, s.drop_last()) == ParseState::TwoZero
            && s.last() == 0x00 {
            1nat
        } else {
            0nat
        }
    }
}

/// A counter of anomalies that stops at the largest `u64`.
pub open spec fn add_saturating(count: u64, n: nat) -> u64 {
    if count + n > u64::MAX {
        u64::MAX
    } else {
        (count + n) as u64
    }
}

/// The RBSP of an escaped NAL unit: every `03` that completes `00 00 03`
/// is removed, and the scan starts over after it.
pub open spec fn rbsp_of(s: Seq<u8>) -> Seq<u8> {
    unescape_from(ParseState::Start, s)
}

/// Escape removal does not depend on how the input is cut: processing `a`
/// and then `b`, with the state carried over, gives the output and the final
/// state of processing `a + b` at once.
pub proof fn lemma_chunk_invariance(st: ParseState, a: Seq<u8>, b: Seq<u8>)
    ensures
        unescape_from(st, a + b) == unescape_from(st, a) + unescape_from(state_after(st, a), b),
        state_after(st, a + b) == state_after(state_after(st, a), b),
        anomalies(st, a + b) == anomalies(st, a) + anomalies(state_after(st, a), b),
    decreases b.len(),
{
    if b.len() == 0 {
        assert(a + b =~= a);
        assert(unescape_from(st, a) + unescape_from(state_after(st, a), b) =~= unescape_from(st, a));
    } else {
        lemma_chunk_invariance(st, a, b.drop_last());
        assert((a + b).drop_last() =~= a + b.drop_last());
        assert((a + b).last() == b.last());
        let u = unescape_from(st, a);
        let v = unescape_from(state_after(st, a), b.drop_last());
        assert((u + v).push(b.last()) =~= u + v.push(b.last()));
    }
}

/// Escape removal only ever deletes bytes.
pub proof fn lemma_unescape_len(st: ParseState, s: Seq<u8>)
    ensures
        unescape_from(st, s).len() <= s.len(),
    decreases s.len(),
{
    if s.len() > 0 {
        lemma_unescape_len(st, s.drop_last());
    }
}

/// Extending the examined bytes by one byte.
pub proof fn lemma_step_one(st: ParseState, s: Seq<u8>, i: int, j: int)
    requires
        0 <= i <= j < s.len(),
    ensures
        state_after(st, s.subrange(i, j + 1)) == step(state_after(st, s.subrange(i, j)), s[j]),
        unescape_from(st, s.subrange(i, j + 1)) == if is_dropped(
            state_after(st, s.subrange(i, j)),
            s[j],
        ) {
            unescape_from(st, s.subrange(i, j))
        } else {
            unescape_from(st, s.subrange(i, j)).push(s[j])
        },
        anomalies(st, s.subrange(i, j + 1)) == anomalies(st, s.subrange(i, j)) + if state_after(
            st,
            s.subrange(i, j),
        ) == ParseState::TwoZero && s[j] == 0x00 {
            1nat
        } else {
            0nat
        },
{
    assert(s.subrange(i, j + 1).drop_last() =~= s.subrange(i, j));
}

/// A run of non-zero bytes leaves the `Start` state alone and is kept whole.
pub proof fn lemma_nonzero_run(s: Seq<u8>)
    requires
        forall|j: int| 0 <= j < s.len() ==> s[j] != 0x00,
    ensures
        state_after(ParseState::Start, s) == ParseState::Start,
        unescape_from(ParseState::Start, s) == s,
        anomalies(ParseState::Start, s) == 0,
    decreases s.len(),
{
    if s.len() > 0 {
        lemma_nonzero_run(s.drop_last());
        assert(s.drop_last().push(s.last()) =~= s);
    }
}

/// Relies on memchr::memchr: the position of the first occurrence of
/// `needle` in `haystack`, or `None` where there is none.
pub assume_specification[ memchr::memchr ](needle: u8, haystack: &[u8]) -> (r: Option<usize>)
    ensures
        match r {
            Some(k) => k < haystack@.len() && haystack@[k as int] == needle && forall|j: int|
                0 <= j < k ==> haystack@[j] != needle,
            None => forall|j: int| 0 <= j < haystack@.len() ==> haystack@[j] != needle,
        },
;

/// Scans `chunk` from `*i` on, carrying `*state`, for the escape byte of a
/// `00 00 03` pattern. On a match, returns `true` with `*i` on the `03` byte
/// (the state is left at `TwoZero` for the caller to reset); otherwise
/// returns `false` with `*i` at the end of the chunk. Every byte passed over
/// is kept. Each `00 00 00` met is counted in `*count`.
pub fn find_three(state: &mut ParseState, i: &mut usize, chunk: &[u8], count: &mut u64) -> (found: bool)
    requires
        *old(state) != ParseState::Skip,
        *old(i) <= chunk@.len(),
    ensures
        *final(state) != ParseState::Skip,
        *old(i) <= *final(i) <= chunk@.len(),
        unescape_from(*old(state), chunk@.subrange(*old(i) as int, *final(i) as int))
            == chunk@.subrange(*old(i) as int, *final(i) as int),
        *final(state) == state_after(
            *old(state),
            chunk@.subrange(*old(i) as int, *final(i) as int),
        ),
        found ==> *final(i) < chunk@.len() && chunk@[*final(i) as int] == 0x03 && *final(state)
            == ParseState::TwoZero,
        !found ==> *final(i) == chunk@.len(),
        *final(count) == add_saturating(
            *old(count),
            anomalies(*old(state), chunk@.subrange(*old(i) as int, *final(i) as int)),
        ),
{
    let ghost st0 = *state;
    let ghost i0 = *i as int;
    let mut pos: usize = *i;
    let ghost s = chunk@;
    assert(s.subrange(i0, i0) =~= Seq::<u8>::empty());
    while pos < chunk.len()
        invariant
            0 <= i0 <= pos <= s.len(),
            i0 == *old(i),
            st0 == *old(state),
            s == chunk@,
            *state != ParseState::Skip,
            unescape_from(st0, s.subrange(i0, pos as int)) == s.subrange(i0, pos as int),
            *state == state_after(st0, s.subrange(i0, pos as int)),
            *count == add_saturating(*old(count), anomalies(st0, s.subrange(i0, pos as int))),
        ensures
            pos == s.len(),
            *state != ParseState::Skip,
            unescape_from(st0, s.subrange(i0, pos as int)) == s.subrange(i0, pos as int),
            *state == state_after(st0, s.subrange(i0, pos as int)),
            *count == add_saturating(*old(count), anomalies(st0, s.subrange(i0, pos as int))),
        decreases s.len() - pos,
    {
        let at = pos;
        match *state {
            ParseState::Start => {
                let rest = vstd::slice::slice_subrange(chunk, at, chunk.len());
                match memchr::memchr(0x00, rest) {
                    Some(nonzero_len) => {
                        let ghost a: int = at as int;
                        let ghost e: int = a + nonzero_len as int;
                        let ghost run = s.subrange(a, e);
                        proof {
                            assert(rest@ =~= s.subrange(a, s.len() as int));
                            assert forall|j: int| 0 <= j < run.len() implies run[j] != 0x00 by {
                                assert(run[j] == rest@[j]);
                            }
                            assert(e < s.len());
                            assert(s[e] == rest@[nonzero_len as int]);
                            lemma_nonzero_run(run);
                            lemma_chunk_invariance(st0, s.subrange(i0, a), run);
                            assert(s.subrange(i0, a) + run =~= s.subrange(i0, e));
                            lemma_step_one(st0, s, i0, e);
                            assert(s.subrange(i0, e).push(s[e]) =~= s.subrange(i0, e + 1));
                        }
                        pos = at + nonzero_len;
                        *state = ParseState::OneZero;
                    },
                    None => {
                        let ghost run = s.subrange(at as int, s.len() as int);
                        proof {
                            assert(rest@ =~= run);
                            lemma_nonzero_run(run);
                            lemma_chunk_invariance(st0, s.subrange(i0, at as int), run);
                            assert(s.subrange(i0, at as int) + run =~= s.subrange(
                                i0,
                                s.len() as int,
                            ));
                        }
                        pos = chunk.len();
                        break ;
                    },
                }
            },
            ParseState::OneZero => {
                proof {
                    lemma_step_one(st0, s, i0, at as int);
                    assert(s.subrange(i0, at as int).push(s[at as int]) =~= s.subrange(
                        i0,
                        at + 1,
                    ));
                }
                if chunk[at] == 0x00 {
                    *state = ParseState::TwoZero;
                } else {
                    *state = ParseState::Start;
                }
            },
            ParseState::TwoZero => {
                if chunk[at] == 0x03 {
                    *i = pos;
                    return true;
                }
                // `00 00 00` cannot occur once escaping is applied: the scan
                // resynchronises. Any other byte simply restarts it.
                proof {
                    lemma_step_one(st0, s, i0, at as int);
                    assert(s.subrange(i0, at as int).push(s[at as int]) =~= s.subrange(
                        i0,
                        at + 1,
                    ));
                }
                if chunk[at] == 0x00 {
                    *count = count.saturating_add(1);
                }
                *state = ParseState::Start;
            },
            // excluded by the precondition
            ParseState::Skip => {},
        }
        pos = pos + 1;
    }
    *i = pos;
    false
}

} // verus!
