//! The decisions of the pull-style decoder. A caller that owns a buffered
//! byte source hands each chunk it has buffered to [`ByteReader::fill_buf`]
//! and does what comes back: drop one byte of the source, or hand out the
//! confirmed bytes at its front.

use vstd::prelude::*;
use crate::escape::{
    add_saturating, anomalies, find_three, lemma_chunk_invariance, lemma_step_one, rbsp_of, state_after, unescape_from,
    ParseState,
};

verus! {

/// What the caller of [`ByteReader::fill_buf`] does next.
#[derive(Copy, Clone, Debug, PartialEq, Eq, Structural)]
pub enum FillStep {
    /// The source is exhausted: the RBSP has ended.
    End,
    /// Consume one byte of the source without handing it out, then ask again.
    DropOne,
    /// The chunk was scanned; [`ByteReader::available`] bytes at its front
    /// are confirmed RBSP (when none are, ask again).
    Scanned,
}

/// The state of a pull-style decoder for one NAL unit whose header byte
/// comes first: that byte is dropped, and so is every escape byte.
pub struct ByteReader {
    state: ParseState,
    /// How many bytes at the front of the source's chunk are confirmed.
    i: usize,
    /// Whether the header byte has been dropped.
    past_header: bool,
    /// The escaped bytes examined so far.
    seen: Ghost<Seq<u8>>,
    /// The RBSP bytes confirmed so far, handed out or not.
    given: Ghost<Seq<u8>>,
    /// How many `00 00 00` sequences the scan has met.
    anomalies: u64,
}

/// The RBSP of a NAL unit whose first byte, the header, is dropped too.
pub open spec fn rbsp_after_header(s: Seq<u8>) -> Seq<u8> {
    unescape_from(ParseState::Skip, s)
}

/// The pull path drops the header byte and otherwise removes the escapes
/// exactly as the push path does on the rest of the unit.
pub proof fn lemma_header_dropped(header: u8, rest: Seq<u8>)
    ensures
        rbsp_after_header(seq![header] + rest) == rbsp_of(rest),
{
    let h = seq![header];
    lemma_chunk_invariance(ParseState::Skip, h, rest);
    assert(h.drop_last() =~= Seq::<u8>::empty());
    assert(state_after(ParseState::Skip, h.drop_last()) == ParseState::Skip);
    assert(unescape_from(ParseState::Skip, h.drop_last()) =~= Seq::<u8>::empty());
    assert(unescape_from(ParseState::Skip, h) =~= Seq::<u8>::empty());
    assert(Seq::<u8>::empty() + rbsp_of(rest) =~= rbsp_of(rest));
}

impl ByteReader {
    /// The escaped bytes examined so far.
    pub closed spec fn seen(&self) -> Seq<u8> {
        self.seen@
    }

    /// The RBSP bytes confirmed so far.
    pub closed spec fn given(&self) -> Seq<u8> {
        self.given@
    }

    /// Whether the next byte of the source is to be dropped unseen: the
    /// header, or an escape byte already examined.
    pub closed spec fn drop_pending(&self) -> bool {
        self.state == ParseState::Skip
    }

    /// How many `00 00 00` sequences the scan has met, at most `u64::MAX`.
    pub closed spec fn anomalies_seen(&self) -> u64 {
        self.anomalies
    }

    /// How many `00 00 00` sequences the scan has met, for diagnostics:
    /// every one in the bytes examined (they cannot occur in an escaped
    /// stream; the scan resynchronises after each).
    pub fn anomaly_count(&self) -> (r: u64)
        requires
            self.inv(),
        ensures
            r == self.anomalies_seen(),
            r == add_saturating(0, anomalies(ParseState::Skip, self.seen())),
    {
        self.anomalies
    }

    /// How many confirmed bytes have not been handed out yet.
    pub closed spec fn pending(&self) -> nat {
        self.i as nat
    }

    /// The bytes confirmed are the RBSP of the bytes examined; the scan state
    /// is the one they lead to, or `Skip` where a byte of the source is to
    /// be dropped (the header, or an escape byte already examined).
    pub closed spec fn inv(&self) -> bool {
        &&& self.given@ == rbsp_after_header(self.seen@)
        &&& self.i <= self.given@.len()
        &&& self.past_header == (self.seen@.len() > 0)
        &&& self.anomalies == add_saturating(0, anomalies(ParseState::Skip, self.seen@))
        &&& if self.state == ParseState::Skip {
            self.seen@.len() == 0 || state_after(ParseState::Skip, self.seen@)
                == ParseState::Start
        } else {
            self.state == state_after(ParseState::Skip, self.seen@)
        }
    }

    pub fn new() -> (r: Self)
        ensures
            r.inv(),
            r.seen() == Seq::<u8>::empty(),
            r.given() == Seq::<u8>::empty(),
            r.pending() == 0,
            r.drop_pending(),
    {
        ByteReader {
            state: ParseState::Skip,
            i: 0,
            past_header: false,
            seen: Ghost(Seq::empty()),
            given: Ghost(Seq::empty()),
            anomalies: 0,
        }
    }

    /// How many confirmed bytes wait at the front of the source's chunk.
    pub fn available(&self) -> (r: usize)
        requires
            self.inv(),
        ensures
            self.given() == rbsp_after_header(self.seen()),
            r <= self.given().len(),
            r == self.pending(),
    {
        self.i
    }

    /// Decides the next step, given the chunk that the source has buffered
    /// now (empty when it is exhausted). Called when no confirmed byte is
    /// pending.
    pub fn fill_buf(&mut self, chunk: &[u8]) -> (r: FillStep)
        requires
            old(self).inv(),
            old(self).pending() == 0,
        ensures
            final(self).inv(),
            final(self).given() == rbsp_after_header(final(self).seen()),
            final(self).anomalies_seen() == add_saturating(
                0,
                anomalies(ParseState::Skip, final(self).seen()),
            ),
            chunk@.len() == 0 ==> r == FillStep::End && *final(self) == *old(self),
            r == FillStep::End ==> chunk@.len() == 0,
            r == FillStep::DropOne ==> final(self).given() == old(self).given()
                && final(self).pending() == 0 && (final(self).seen() == old(self).seen() || (
                old(self).seen().len() == 0 && final(self).seen() == seq![chunk@[0]])),
            chunk@.len() > 0 ==> (r == FillStep::DropOne <==> old(self).drop_pending()),
            r == FillStep::DropOne ==> !final(self).drop_pending(),
            r == FillStep::Scanned && !final(self).drop_pending() ==> final(self).pending()
                == chunk@.len() && final(self).seen() == old(self).seen() + chunk@,
            r == FillStep::Scanned && final(self).drop_pending() ==> final(self).seen() == old(
                self,
            ).seen() + chunk@.subrange(0, final(self).pending() + 1int),
            r == FillStep::Scanned ==> final(self).pending() == final(self).given().len()
                - old(self).given().len() && final(self).given().subrange(
                old(self).given().len() as int,
                final(self).given().len() as int,
            ) == chunk@.subrange(0, final(self).pending() as int),
    {
        if chunk.len() == 0 {
            return FillStep::End;
        }
        if self.state == ParseState::Skip {
            if !self.past_header {
                // the header byte
                proof {
                    let s = seq![chunk@[0]];
                    assert(s.drop_last() =~= Seq::<u8>::empty());
                    assert(state_after(ParseState::Skip, s.drop_last()) == ParseState::Skip);
                    assert(unescape_from(ParseState::Skip, s.drop_last()) =~= Seq::<u8>::empty());
                    assert(unescape_from(ParseState::Skip, s) =~= Seq::<u8>::empty());
                    assert(anomalies(ParseState::Skip, s.drop_last()) == 0);
                    assert(anomalies(ParseState::Skip, s) == 0);
                }
                let ghost first = seq![chunk@[0]];
                self.seen = Ghost(first);
                self.past_header = true;
            }
            self.state = ParseState::Start;
            return FillStep::DropOne;
        }
        let ghost seen0 = self.seen@;
        let ghost st0 = self.state;
        let mut i: usize = 0;
        let found = find_three(&mut self.state, &mut i, chunk, &mut self.anomalies);
        let ghost kept = chunk@.subrange(0, i as int);
        proof {
            assert(chunk@.subrange(0, i as int) == kept);
            lemma_chunk_invariance(ParseState::Skip, seen0, kept);
        }
        if found {
            let ghost with_three = chunk@.subrange(0, i + 1);
            proof {
                lemma_step_one(st0, chunk@, 0, i as int);
                lemma_chunk_invariance(ParseState::Skip, seen0, with_three);
                assert(with_three.drop_last() =~= kept);
                assert(seen0 + with_three =~= (seen0 + kept).push(chunk@[i as int]));
                assert(self.given@ + kept =~= self.given@ + with_three.subrange(0, i as int));
            }
            let ghost seen1 = seen0 + with_three;
            let ghost given1 = self.given@ + kept;
            self.seen = Ghost(seen1);
            self.past_header = true;
            self.given = Ghost(given1);
            self.state = ParseState::Skip;
            assert(chunk@.subrange(0, i + 1) == self.seen@.subrange(
                seen0.len() as int,
                self.seen@.len() as int,
            ));
        } else {
            let ghost seen1 = seen0 + kept;
            let ghost given1 = self.given@ + kept;
            self.seen = Ghost(seen1);
            self.past_header = true;
            self.given = Ghost(given1);
            assert(chunk@.subrange(0, i as int) == self.seen@.subrange(
                seen0.len() as int,
                self.seen@.len() as int,
            ));
        }
        self.i = i;
        FillStep::Scanned
    }

    /// Records that the caller handed out `amt` confirmed bytes, and consumed
    /// them from the source.
    pub fn consume(&mut self, amt: usize)
        requires
            old(self).inv(),
            amt <= old(self).pending(),
        ensures
            final(self).inv(),
            final(self).given() == rbsp_after_header(final(self).seen()),
            final(self).pending() == old(self).pending() - amt,
            final(self).seen() == old(self).seen(),
            final(self).given() == old(self).given(),
            final(self).drop_pending() == old(self).drop_pending(),
            final(self).anomalies_seen() == old(self).anomalies_seen(),
    {
        self.i = self.i - amt;
    }
}

} // verus!
