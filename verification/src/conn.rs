//! The connection's read side: an append-only byte accumulator consumed
//! from the front as frames are extracted.
//!
//! The transport itself lives outside the library: whatever reads from a
//! socket appends the bytes it received here and asks for the next frame;
//! on end of input it asks whether the close was clean.

use vstd::prelude::*;
use vstd::slice::slice_to_vec;

use crate::decode::{spec_decode, try_decode, DecodeOutcome, SpecDecode};
use crate::frame::{frame_wf, WireFrame};

verus! {

/// The buffered, not yet consumed bytes of one connection.
pub struct ReadBuffer {
    buf: Vec<u8>,
}

impl View for ReadBuffer {
    type V = Seq<u8>;

    closed spec fn view(&self) -> Seq<u8> {
        self.buf@
    }
}

/// One attempt to extract a frame from the buffered bytes.
pub enum FrameStep {
    /// A complete frame; its bytes have been removed from the buffer.
    Frame(WireFrame),
    /// Too few bytes buffered: read more from the transport and retry.
    NeedMore,
    /// The peer violated the wire format; the buffer is left untouched and
    /// the connection is beyond recovery.
    Corrupt,
}

/// How an end of input is to be reported.
#[derive(Debug, PartialEq, Eq)]
pub enum EofOutcome {
    /// End of input with an empty buffer: the peer closed cleanly.
    CleanClose,
    /// End of input in the middle of a frame: the connection was reset.
    ResetByPeer,
}

impl ReadBuffer {
    pub fn new() -> (r: ReadBuffer)
        ensures
            r@ == Seq::<u8>::empty(),
    {
        ReadBuffer { buf: Vec::new() }
    }

    /// Appends bytes received from the transport; consumes nothing.
    pub fn feed(&mut self, chunk: &[u8])
        ensures
            final(self)@ == old(self)@ + chunk@,
    {
        let incoming = slice_to_vec(chunk);
        let mut i: usize = 0;
        while i < incoming.len()
            invariant
                i <= incoming.len(),
                incoming@ == chunk@,
                self.buf@ == old(self)@ + chunk@.take(i as int),
            decreases incoming.len() - i,
        {
            self.buf.push(incoming[i]);
            assert(self.buf@ =~= old(self)@ + chunk@.take(i + 1));
            i = i + 1;
        }
        assert(self.buf@ =~= old(self)@ + chunk@);
    }

    /// Extracts the frame at the front of the buffer, all or nothing: on
    /// success exactly the frame's bytes are discarded; otherwise the
    /// buffer is unchanged.
    pub fn try_next(&mut self) -> (r: FrameStep)
        ensures
            match r {
                FrameStep::Frame(f) => frame_wf(f) && spec_decode(old(self)@)
                    == SpecDecode::Complete(f.model(), old(self)@.len() - final(self)@.len())
                    && final(self)@ == old(self)@.skip(
                    old(self)@.len() - final(self)@.len(),
                ),
                FrameStep::NeedMore => spec_decode(old(self)@) is Incomplete && final(self)@
                    == old(self)@,
                FrameStep::Corrupt => spec_decode(old(self)@) is Malformed && final(self)@
                    == old(self)@,
            },
    {
        match try_decode(&self.buf) {
            DecodeOutcome::Incomplete => FrameStep::NeedMore,
            DecodeOutcome::Malformed => FrameStep::Corrupt,
            DecodeOutcome::Complete(f, n) => {
                let mut rest: Vec<u8> = Vec::new();
                let mut i = n;
                let total = self.buf.len();
                while i < total
                    invariant
                        n <= i <= total == self.buf.len(),
                        rest@ == self.buf@.subrange(n as int, i as int),
                    decreases total - i,
                {
                    let b = self.buf[i];
                    rest.push(b);
                    assert(rest@ =~= self.buf@.subrange(n as int, i + 1));
                    i = i + 1;
                }
                assert(rest@ =~= self.buf@.skip(n as int));
                self.buf = rest;
                FrameStep::Frame(f)
            },
        }
    }

    /// Decides how an end of input is reported: a clean close when nothing
    /// is buffered, a reset when the peer disconnected mid-frame.
    pub fn on_eof(&self) -> (r: EofOutcome)
        ensures
            r == EofOutcome::CleanClose <==> self@.len() == 0,
    {
        if self.buf.len() == 0 {
            EofOutcome::CleanClose
        } else {
            EofOutcome::ResetByPeer
        }
    }
}

} // verus!
