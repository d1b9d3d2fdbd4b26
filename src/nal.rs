//! The downstream side of the push-style decoders.

use vstd::prelude::*;

verus! {

/// A consumer of one NAL unit at a time: `start` with the header byte, `push`
/// zero or more times with the unit's bytes, then `end`.
pub trait NalHandler {
    /// What the handler needs to hold between calls.
    spec fn inv(&self) -> bool;

    /// The bytes that `push` has handed to the handler in the current unit.
    spec fn received(&self) -> Seq<u8>;

    /// The bytes the handler was set up to work over, which no call
    /// changes (empty for a handler that is not tied to such bytes).
    spec fn source(&self) -> Seq<u8>;

    /// Whether a unit has been started and not yet ended.
    spec fn in_unit(&self) -> bool;

    fn start(&mut self, header: u8)
        requires
            old(self).inv(),
        ensures
            final(self).inv(),
            final(self).source() == old(self).source(),
            final(self).in_unit(),
    ;

    /// Hands over bytes of the unit; never an empty span.
    fn push(&mut self, buf: &[u8])
        requires
            old(self).inv(),
            buf@.len() > 0,
        ensures
            final(self).inv(),
            final(self).source() == old(self).source(),
            final(self).received() == old(self).received() + buf@,
            final(self).in_unit() == old(self).in_unit(),
    ;

    fn end(&mut self)
        requires
            old(self).inv(),
        ensures
            final(self).inv(),
            final(self).source() == old(self).source(),
            !final(self).in_unit(),
    ;
}

/// A handler that keeps every byte pushed to it, and records whether the
/// unit has started and ended.
pub struct CollectingHandler {
    started: bool,
    ended: bool,
    /// Started and not ended since.
    open: bool,
    data: Vec<u8>,
}

impl CollectingHandler {
    pub fn new() -> (r: Self)
        ensures
            r.received() == Seq::<u8>::empty(),
            !r.has_started(),
            !r.has_ended(),
            !r.in_unit(),
    {
        CollectingHandler { started: false, ended: false, open: false, data: Vec::new() }
    }

    pub closed spec fn has_started(&self) -> bool {
        self.started
    }

    pub closed spec fn has_ended(&self) -> bool {
        self.ended
    }

    /// The bytes pushed so far.
    pub fn data(&self) -> (r: &[u8])
        ensures
            r@ == self.received(),
    {
        self.data.as_slice()
    }

    pub fn started(&self) -> (r: bool)
        ensures
            r == self.has_started(),
    {
        self.started
    }

    pub fn ended(&self) -> (r: bool)
        ensures
            r == self.has_ended(),
    {
        self.ended
    }
}

impl NalHandler for CollectingHandler {
    open spec fn inv(&self) -> bool {
        true
    }

    closed spec fn received(&self) -> Seq<u8> {
        self.data@
    }

    open spec fn source(&self) -> Seq<u8> {
        Seq::empty()
    }

    closed spec fn in_unit(&self) -> bool {
        self.open
    }

    fn start(&mut self, header: u8)
        ensures
            final(self).has_started(),
            final(self).received() == old(self).received(),
    {
        self.started = true;
        self.open = true;
    }

    fn push(&mut self, buf: &[u8]) {
        let ghost before = self.data@;
        let mut k: usize = 0;
        while k < buf.len()
            invariant
                k <= buf@.len(),
                self.data@ == before + buf@.subrange(0, k as int),
                self.open == old(self).open,
            decreases buf@.len() - k,
        {
            self.data.push(buf[k]);
            k = k + 1;
            assert(self.data@ =~= before + buf@.subrange(0, k as int));
        }
        assert(buf@.subrange(0, buf@.len() as int) =~= buf@);
    }

    fn end(&mut self)
        ensures
            final(self).has_ended(),
            final(self).received() == old(self).received(),
    {
        self.ended = true;
        self.open = false;
    }
}

} // verus!
