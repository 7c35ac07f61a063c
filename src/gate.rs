use vstd::prelude::*;

verus! {

/// Read throttle of one open substream: frames read from the wire but not
/// yet taken by the consumer form the backlog; reading pauses while the
/// backlog is at the threshold and resumes once it drains below it.
pub struct ReadGate {
    backlog: usize,
    threshold: usize,
}

impl ReadGate {
    pub closed spec fn backlog(&self) -> nat {
        self.backlog as nat
    }

    pub closed spec fn threshold(&self) -> nat {
        self.threshold as nat
    }

    pub open spec fn wf(&self) -> bool {
        self.backlog() <= self.threshold() && self.threshold() > 0
    }

    pub fn new(threshold: usize) -> (r: ReadGate)
        requires
            threshold > 0,
        ensures
            r.wf(),
            r.backlog() == 0,
            r.threshold() == threshold,
    {
        ReadGate { backlog: 0, threshold }
    }

    /// Whether the handler may read the next frame.
    pub fn may_read(&self) -> (r: bool)
        ensures
            r == (self.backlog() < self.threshold()),
    {
        self.backlog < self.threshold
    }

    /// A frame was read and handed on; refused while reading is paused.
    pub fn frame_read(&mut self) -> (r: bool)
        requires
            old(self).wf(),
        ensures
            final(self).wf(),
            final(self).threshold() == old(self).threshold(),
            r == (old(self).backlog() < old(self).threshold()),
            final(self).backlog() == if r { old(self).backlog() + 1 } else { old(self).backlog() },
    {
        if self.backlog < self.threshold {
            self.backlog = self.backlog + 1;
            true
        } else {
            false
        }
    }

    /// The consumer took a frame; nothing happens on an empty backlog.
    pub fn frame_consumed(&mut self)
        requires
            old(self).wf(),
        ensures
            final(self).wf(),
            final(self).threshold() == old(self).threshold(),
            final(self).backlog() == if old(self).backlog() > 0 { old(self).backlog() - 1 } else { 0 },
    {
        if self.backlog > 0 {
            self.backlog = self.backlog - 1;
        }
    }
}

} // verus!
