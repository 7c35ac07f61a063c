use vstd::prelude::*;

use crate::frame::{copy_range, decode_frame, pow128, varint, FrameDecode, MAX_PREFIX};
use crate::gate::ReadGate;

verus! {

/// What the reader of a substream got from its buffered bytes.
#[derive(Debug)]
pub enum ReadOutcome {
    /// The payload of the next whole frame.
    Frame(Vec<u8>),
    /// The next frame is not all there yet.
    NeedMore,
    /// The consumer's backlog is full: reading waits until it drains.
    Paused,
    /// The next frame breaks the size limit or the framing: the substream
    /// must be closed and the peer reported.
    Violation,
}

/// Inbound side of one open substream: bytes as they arrive, cut into
/// frames under the protocol's size limit, with reading throttled by the
/// consumer's backlog.
pub struct SubstreamReader {
    buffer: Vec<u8>,
    max: usize,
    gate: ReadGate,
}

impl SubstreamReader {
    pub closed spec fn buffered(&self) -> Seq<u8> {
        self.buffer@
    }

    pub closed spec fn max(&self) -> nat {
        self.max as nat
    }

    pub closed spec fn gate(&self) -> ReadGate {
        self.gate
    }

    pub open spec fn wf(&self) -> bool {
        self.gate().wf()
    }

    pub fn new(max: usize, threshold: usize) -> (r: SubstreamReader)
        requires
            threshold > 0,
        ensures
            r.wf(),
            r.buffered().len() == 0,
            r.max() == max,
            r.gate().backlog() == 0,
            r.gate().threshold() == threshold,
    {
        SubstreamReader { buffer: Vec::new(), max, gate: ReadGate::new(threshold) }
    }

    /// Bytes arrived from the wire.
    pub fn push_bytes(&mut self, bytes: &Vec<u8>)
        requires
            old(self).wf(),
        ensures
            final(self).wf(),
            final(self).buffered() == old(self).buffered() + bytes@,
            final(self).max() == old(self).max(),
            final(self).gate() == old(self).gate(),
    {
        let ghost start = self.buffer@;
        let mut i: usize = 0;
        while i < bytes.len()
            invariant
                i <= bytes@.len(),
                self.buffer@ == start + bytes@.subrange(0, i as int),
                self.max == old(self).max,
                self.gate == old(self).gate,
            decreases bytes@.len() - i,
        {
            self.buffer.push(bytes[i]);
            i = i + 1;
            proof {
                assert(self.buffer@ =~= start + bytes@.subrange(0, i as int));
            }
        }
        proof {
            assert(bytes@.subrange(0, bytes@.len() as int) =~= bytes@);
        }
    }

    /// Take the next frame, if reading may go on and the frame is all there.
    pub fn next_frame(&mut self) -> (r: ReadOutcome)
        requires
            old(self).wf(),
        ensures
            final(self).wf(),
            final(self).max() == old(self).max(),
            final(self).gate().threshold() == old(self).gate().threshold(),
            old(self).gate().backlog() >= old(self).gate().threshold() ==> r is Paused && *final(self) == *old(self),
            !(r is Frame) ==> final(self).buffered() == old(self).buffered() && final(self).gate() == old(self).gate(),
            r matches ReadOutcome::Frame(p) ==> {
                let k = varint(p@.len()).len() + p@.len();
                &&& p@.len() <= old(self).max()
                &&& k <= old(self).buffered().len()
                &&& old(self).buffered().subrange(0, k as int) == varint(p@.len()) + p@
                &&& final(self).buffered() == old(self).buffered().subrange(k as int, old(self).buffered().len() as int)
                &&& final(self).gate().backlog() == old(self).gate().backlog() + 1
            },
            old(self).gate().backlog() < old(self).gate().threshold() && old(self).buffered().len() < MAX_PREFIX
                && (forall|k: int| 0 <= k < old(self).buffered().len() ==> #[trigger] old(self).buffered()[k] >= 128)
                ==> r is NeedMore,
            old(self).gate().backlog() < old(self).gate().threshold() ==> forall|n: nat| #[trigger] varint(n).len()
                <= old(self).buffered().len() && old(self).buffered().subrange(0, varint(n).len() as int) == varint(n)
                && n < pow128(MAX_PREFIX as nat) ==> {
                &&& n > old(self).max() ==> r is Violation
                &&& n <= old(self).max() && old(self).buffered().len() >= varint(n).len() + n ==> (r matches ReadOutcome::Frame(p)
                    && p@ == old(self).buffered().subrange(varint(n).len() as int, (varint(n).len() + n) as int))
                &&& n <= old(self).max() && old(self).buffered().len() < varint(n).len() + n ==> r is NeedMore
            },
    {
        if !self.gate.may_read() {
            return ReadOutcome::Paused;
        }
        match decode_frame(&self.buffer, self.max) {
            FrameDecode::Frame { payload, consumed } => {
                let rest = copy_range(&self.buffer, consumed, self.buffer.len() - consumed);
                self.buffer = rest;
                self.gate.frame_read();
                ReadOutcome::Frame(payload)
            },
            FrameDecode::Incomplete => ReadOutcome::NeedMore,
            FrameDecode::Oversized => ReadOutcome::Violation,
            FrameDecode::Malformed => ReadOutcome::Violation,
        }
    }

    /// The consumer took a frame: the backlog shrinks by one.
    pub fn frame_consumed(&mut self)
        requires
            old(self).wf(),
        ensures
            final(self).wf(),
            final(self).buffered() == old(self).buffered(),
            final(self).max() == old(self).max(),
            final(self).gate().threshold() == old(self).gate().threshold(),
            final(self).gate().backlog() == if old(self).gate().backlog() > 0 {
                old(self).gate().backlog() - 1
            } else {
                0
            },
    {
        self.gate.frame_consumed();
    }
}

} // verus!
