//! Push-style and one-shot removal of emulation-prevention bytes.

use std::borrow::Cow;
use vstd::prelude::*;
use crate::escape::{
    add_saturating, anomalies, find_three, is_dropped, lemma_chunk_invariance, lemma_step_one, lemma_unescape_len, rbsp_of, state_after,
    unescape_from, ParseState,
};
use crate::nal::NalHandler;

verus! {

/// A [`NalHandler`] that removes emulation-prevention bytes from what it is
/// pushed and forwards the rest to an inner handler. The scan state is kept
/// between calls, so a pattern split across two pushes is still found.
pub struct RbspDecoder<R: NalHandler> {
    state: ParseState,
    nal_reader: R,
    /// The escaped bytes pushed since the unit began.
    unit: Ghost<Seq<u8>>,
    /// What the inner handler had received when the unit began.
    base: Ghost<Seq<u8>>,
    /// How many `00 00 00` sequences the scan has met (they cannot occur in
    /// an escaped stream; the scan resynchronises after each).
    anomalies: u64,
}

impl<R: NalHandler> RbspDecoder<R> {
    /// The scan state before the next byte.
    pub closed spec fn state(&self) -> ParseState {
        self.state
    }

    /// How many `00 00 00` sequences the scan has met, at most `u64::MAX`.
    pub closed spec fn anomalies_seen(&self) -> u64 {
        self.anomalies
    }

    /// How many `00 00 00` sequences the scan has met, for diagnostics.
    pub fn anomaly_count(&self) -> (r: u64)
        ensures
            r == self.anomalies_seen(),
    {
        self.anomalies
    }

    /// The inner handler.
    pub closed spec fn handler(&self) -> R {
        self.nal_reader
    }

    /// The escaped bytes pushed since the unit began.
    pub closed spec fn unit(&self) -> Seq<u8> {
        self.unit@
    }

    /// What the inner handler had received when the unit began.
    pub closed spec fn base(&self) -> Seq<u8> {
        self.base@
    }

    pub fn new(nal_reader: R) -> (r: Self)
        requires
            nal_reader.inv(),
        ensures
            r.inv(),
            r.state() == ParseState::Start,
            r.handler() == nal_reader,
            r.unit() == Seq::<u8>::empty(),
            r.base() == nal_reader.received(),
            r.anomalies_seen() == 0,
    {
        let ghost base = nal_reader.received();
        let r = RbspDecoder {
            state: ParseState::Start,
            nal_reader,
            unit: Ghost(Seq::empty()),
            base: Ghost(base),
            anomalies: 0,
        };
        assert(r.nal_reader.received() + rbsp_of(Seq::empty()) =~= r.nal_reader.received());
        r
    }

    fn to(&mut self, new_state: ParseState)
        ensures
            final(self).state == new_state,
            final(self).nal_reader == old(self).nal_reader,
            final(self).unit == old(self).unit,
            final(self).base == old(self).base,
            final(self).anomalies == old(self).anomalies,
    {
        self.state = new_state;
    }

    /// Forwards `buf` to the inner handler unless it is empty.
    fn emit(&mut self, buf: &[u8])
        requires
            old(self).nal_reader.inv(),
        ensures
            final(self).nal_reader.inv(),
            final(self).nal_reader.received() == old(self).nal_reader.received() + buf@,
            final(self).nal_reader.source() == old(self).nal_reader.source(),
            final(self).nal_reader.in_unit() == old(self).nal_reader.in_unit(),
            buf@.len() == 0 ==> final(self).nal_reader == old(self).nal_reader,
            final(self).state == old(self).state,
            final(self).unit == old(self).unit,
            final(self).base == old(self).base,
            final(self).anomalies == old(self).anomalies,
    {
        if !buf.is_empty() {
            self.nal_reader.push(buf);
        } else {
            assert(old(self).nal_reader.received() + buf@ =~= old(self).nal_reader.received());
        }
    }

    /// Removes the escapes from `buf` and forwards the rest, carrying the
    /// scan state over from earlier pushes of the same unit.
    pub fn push(&mut self, buf: &[u8])
        requires
            old(self).inv(),
        ensures
            final(self).inv(),
            final(self).unit() == old(self).unit() + buf@,
            final(self).base() == old(self).base(),
            final(self).handler().source() == old(self).handler().source(),
            final(self).handler().in_unit() == old(self).handler().in_unit(),
            final(self).handler().received() == old(self).handler().received() + unescape_from(
                old(self).state(),
                buf@,
            ),
            final(self).state() == state_after(old(self).state(), buf@),
            final(self).anomalies_seen() == add_saturating(
                old(self).anomalies_seen(),
                anomalies(old(self).state(), buf@),
            ),
    {
        let ghost u0 = self.unit@;
        let ghost st0 = self.state;
        let ghost r0 = self.nal_reader.received();
        let ghost s = buf@;
        let mut from: usize = 0;
        let mut i: usize = 0;
        assert(s.subrange(0, 0) =~= Seq::<u8>::empty());
        assert(unescape_from(st0, s.subrange(0, 0)) + s.subrange(0, 0) =~= unescape_from(
            st0,
            s.subrange(0, 0),
        ));
        assert(r0 + unescape_from(st0, s.subrange(0, 0)) =~= r0);
        while i < buf.len()
            invariant
                from <= i <= s.len(),
                s == buf@,
                self.nal_reader.inv(),
                self.unit@ == u0,
                self.base == old(self).base,
                self.nal_reader.source() == old(self).nal_reader.source(),
                self.nal_reader.in_unit() == old(self).nal_reader.in_unit(),
                st0 == state_after(ParseState::Start, u0),
                r0 == self.base@ + rbsp_of(u0),
                self.nal_reader.received() == r0 + unescape_from(st0, s.subrange(0, from as int)),
                unescape_from(st0, s.subrange(0, i as int)) == unescape_from(
                    st0,
                    s.subrange(0, from as int),
                ) + s.subrange(from as int, i as int),
                self.state == state_after(st0, s.subrange(0, i as int)),
                self.state != ParseState::Skip,
                self.anomalies == add_saturating(
                    old(self).anomalies,
                    anomalies(st0, s.subrange(0, i as int)),
                ),
            decreases s.len() - i,
        {
            let ghost i_before = i as int;
            if find_three(&mut self.state, &mut i, buf, &mut self.anomalies) {
                proof {
                    // what find_three passed over is kept whole
                    let a = s.subrange(0, i_before);
                    let b = s.subrange(i_before, i as int);
                    lemma_chunk_invariance(st0, a, b);
                    assert(a + b =~= s.subrange(0, i as int));
                    assert(s.subrange(from as int, i_before) + b =~= s.subrange(
                        from as int,
                        i as int,
                    ));
                    lemma_step_one(st0, s, 0, i as int);
                    assert(is_dropped(ParseState::TwoZero, s[i as int]));
                }
                let rbsp = vstd::slice::slice_subrange(buf, from, i);
                self.emit(rbsp);
                i = i + 1;
                from = i;
                self.to(ParseState::Start);
                proof {
                    assert(s.subrange(from as int, i as int) =~= Seq::<u8>::empty());
                    assert(unescape_from(st0, s.subrange(0, from as int)) + s.subrange(
                        from as int,
                        i as int,
                    ) =~= unescape_from(st0, s.subrange(0, from as int)));
                }
            } else {
                proof {
                    let a = s.subrange(0, i_before);
                    let b = s.subrange(i_before, i as int);
                    lemma_chunk_invariance(st0, a, b);
                    assert(a + b =~= s.subrange(0, i as int));
                    assert(s.subrange(from as int, i_before) + b =~= s.subrange(
                        from as int,
                        i as int,
                    ));
                }
            }
        }
        let rest = vstd::slice::slice_subrange(buf, from, buf.len());
        self.emit(rest);
        self.unit = Ghost(u0 + s);
        proof {
            assert(s.subrange(0, s.len() as int) =~= s);
            lemma_chunk_invariance(ParseState::Start, u0, s);
            assert(self.base@ + rbsp_of(u0) + unescape_from(st0, s) =~= self.base@ + rbsp_of(
                u0 + s,
            ));
            assert(r0 + unescape_from(st0, s.subrange(0, from as int)) + s.subrange(
                from as int,
                s.len() as int,
            ) =~= r0 + unescape_from(st0, s));
        }
    }

    pub fn handler_ref(&self) -> (r: &R)
        ensures
            *r == self.handler(),
    {
        &self.nal_reader
    }

    pub fn into_handler(self) -> (r: R)
        ensures
            r == self.handler(),
    {
        self.nal_reader
    }
}

impl<R: NalHandler> NalHandler for RbspDecoder<R> {
    /// The inner handler has received, since the unit began, exactly the
    /// RBSP of the escaped bytes pushed so far, and the scan state is the
    /// one those bytes lead to.
    open spec fn inv(&self) -> bool {
        &&& self.handler().inv()
        &&& self.handler().received() == self.base() + rbsp_of(self.unit())
        &&& self.state() == state_after(ParseState::Start, self.unit())
        &&& self.state() != ParseState::Skip
    }

    open spec fn received(&self) -> Seq<u8> {
        self.unit()
    }

    open spec fn source(&self) -> Seq<u8> {
        self.handler().source()
    }

    open spec fn in_unit(&self) -> bool {
        self.handler().in_unit()
    }

    /// Begins a unit: the scan starts over, and the inner handler is started.
    fn start(&mut self, header: u8)
        ensures
            final(self).state() == ParseState::Start,
            final(self).unit() == Seq::<u8>::empty(),
            final(self).handler().in_unit(),
    {
        self.state = ParseState::Start;
        self.nal_reader.start(header);
        self.unit = Ghost(Seq::empty());
        self.base = Ghost(self.nal_reader.received());
        assert(self.nal_reader.received() + rbsp_of(Seq::empty()) =~= self.nal_reader.received());
    }

    fn push(&mut self, buf: &[u8]) {
        RbspDecoder::push(self, buf);
    }

    /// Ends the unit: the scan starts over, and the inner handler is ended.
    /// No bytes are held back, so none are flushed.
    fn end(&mut self)
        ensures
            final(self).state() == ParseState::Start,
            final(self).unit() == Seq::<u8>::empty(),
            !final(self).handler().in_unit(),
    {
        self.to(ParseState::Start);
        self.nal_reader.end();
        self.unit = Ghost(Seq::empty());
        self.base = Ghost(self.nal_reader.received());
        assert(self.nal_reader.received() + rbsp_of(Seq::empty()) =~= self.nal_reader.received());
    }
}

/// `a` is the start of `b`.
pub open spec fn is_prefix_of(a: Seq<u8>, b: Seq<u8>) -> bool {
    a.len() <= b.len() && a == b.subrange(0, a.len() as int)
}

/// Whether `buf` equals the bytes of `data` from `at` on.
fn same_bytes(data: &[u8], at: usize, buf: &[u8]) -> (r: bool)
    requires
        at <= data@.len(),
    ensures
        r == (buf.len() <= data.len() - at && data@.subrange(at as int, at + buf@.len())
            == buf@),
{
    if buf.len() > data.len() - at {
        return false;
    }
    let mut k: usize = 0;
    while k < buf.len()
        invariant
            at + buf.len() <= data.len(),
            k <= buf.len(),
            forall|j: int| 0 <= j < k ==> data@[at + j] == buf@[j],
        decreases buf@.len() - k,
    {
        if data[at + k] != buf[k] {
            assert(data@.subrange(at as int, at + buf@.len())[k as int] != buf@[k as int]);
            return false;
        }
        k = k + 1;
    }
    assert(data@.subrange(at as int, at + buf@.len()) =~= buf@);
    true
}

/// The handler behind [`decode_nal`]: it writes what it is pushed over the
/// input, and copies only once a written byte differs from the input.
struct DecoderState<'b> {
    /// The escaped input.
    data: &'b [u8],
    /// How many bytes have been written.
    index: usize,
    /// Whether the output stopped matching the input.
    promoted: bool,
    /// The output once it has stopped matching the input.
    owned: Vec<u8>,
    /// Whether a unit has been started and not ended.
    open: bool,
}

impl<'b> DecoderState<'b> {
    fn new(data: &'b [u8]) -> (r: Self)
        ensures
            r.inv(),
            r.received() == Seq::<u8>::empty(),
            r.data == data,
    {
        let r = DecoderState { data, index: 0, promoted: false, owned: Vec::new(), open: false };
        assert(r.data@.subrange(0, 0) =~= Seq::<u8>::empty());
        r
    }

    /// The output: the input itself where nothing was dropped, and a buffer
    /// of its own otherwise.
    fn finish(self) -> (r: Cow<'b, [u8]>)
        requires
            self.inv(),
        ensures
            r@ == self.received(),
            (r is Borrowed) == (self.received() == self.data@),
    {
        if self.promoted {
            proof {
                if self.owned@ == self.data@ {
                    assert(self.data@.subrange(0, self.data@.len() as int) =~= self.data@);
                }
            }
            Cow::Owned(self.owned)
        } else if self.index < self.data.len() {
            // only bytes at the end were dropped
            Cow::Owned(vstd::slice::slice_to_vec(vstd::slice::slice_subrange(self.data, 0, self.index)))
        } else {
            assert(self.data@.subrange(0, self.index as int) =~= self.data@);
            Cow::Borrowed(self.data)
        }
    }
}

impl<'b> NalHandler for DecoderState<'b> {
    closed spec fn inv(&self) -> bool {
        if self.promoted {
            self.owned@.len() == self.index && !is_prefix_of(self.owned@, self.data@)
        } else {
            self.index <= self.data@.len()
        }
    }

    closed spec fn received(&self) -> Seq<u8> {
        if self.promoted {
            self.owned@
        } else {
            self.data@.subrange(0, self.index as int)
        }
    }

    closed spec fn source(&self) -> Seq<u8> {
        self.data@
    }

    closed spec fn in_unit(&self) -> bool {
        self.open
    }

    fn start(&mut self, header: u8) {
        self.open = true;
    }

    fn push(&mut self, buf: &[u8]) {
        let ghost before = self.received();
        if !self.promoted {
            if same_bytes(self.data, self.index, buf) {
                assert(self.index + buf@.len() <= self.data@.len());
                self.index = self.index + buf.len();
                assert(self.data@.subrange(0, self.index as int) =~= before + buf@);
                return;
            }
            // the first byte that differs from the input: copy what was
            // written so far, once
            let mut v: Vec<u8> = Vec::with_capacity(self.data.len());
            let mut k: usize = 0;
            while k < self.index
                invariant
                    k <= self.index <= self.data@.len(),
                    v@ == self.data@.subrange(0, k as int),
                decreases self.index - k,
            {
                v.push(self.data[k]);
                k = k + 1;
                assert(v@ =~= self.data@.subrange(0, k as int));
            }
            self.owned = v;
            self.promoted = true;
            proof {
                if is_prefix_of(before + buf@, self.data@) {
                    assert(self.data@.subrange(self.index as int, self.index + buf@.len())
                        =~= buf@) by {
                        assert forall|j: int| 0 <= j < buf@.len() implies self.data@.subrange(
                            self.index as int,
                            self.index + buf@.len(),
                        )[j] == buf@[j] by {
                            assert((before + buf@)[self.index + j] == buf@[j]);
                        }
                    }
                }
            }
        }
        let ghost owned0 = self.owned@;
        let mut k: usize = 0;
        while k < buf.len()
            invariant
                self.promoted,
                k <= buf@.len(),
                self.owned@ == owned0 + buf@.subrange(0, k as int),
                self.data == old(self).data,
                self.open == old(self).open,
            decreases buf@.len() - k,
        {
            self.owned.push(buf[k]);
            k = k + 1;
            assert(self.owned@ =~= owned0 + buf@.subrange(0, k as int));
        }
        self.index = self.owned.len();
        assert(buf@.subrange(0, buf@.len() as int) =~= buf@);
        proof {
            if is_prefix_of(self.owned@, self.data@) {
                assert(is_prefix_of(owned0, self.data@)) by {
                    assert(owned0 =~= self.data@.subrange(0, owned0.len() as int)) by {
                        assert forall|j: int| 0 <= j < owned0.len() implies owned0[j]
                            == self.data@[j] by {
                            assert(self.owned@[j] == owned0[j]);
                        }
                    }
                }
            }
        }
    }

    fn end(&mut self) {
        self.open = false;
    }
}

/// Removes emulation prevention from one complete NAL unit. The result
/// borrows the input where the unit holds no escape, and is a freshly
/// allocated, shorter buffer otherwise.
pub fn decode_nal<'a>(nal_unit: &'a [u8]) -> (r: Cow<'a, [u8]>)
    ensures
        r@ == rbsp_of(nal_unit@),
        r@.len() <= nal_unit@.len(),
        (r is Borrowed) == (rbsp_of(nal_unit@) == nal_unit@),
{
    let state = DecoderState::new(nal_unit);
    let mut decoder = RbspDecoder::new(state);
    decoder.push(nal_unit);
    let state = decoder.into_handler();
    proof {
        assert(Seq::<u8>::empty() + nal_unit@ =~= nal_unit@);
        assert(Seq::<u8>::empty() + rbsp_of(nal_unit@) =~= rbsp_of(nal_unit@));
        lemma_unescape_len(ParseState::Start, nal_unit@);
    }
    state.finish()
}

} // verus!
