use vstd::prelude::*;

verus! {

/// How a send behaves when the outbound queue has no room.
#[derive(Clone, Copy, Debug, PartialEq, Eq, Structural)]
pub enum SendMode {
    /// The caller waits until room frees up or the session closes.
    Blocking,
    /// The frame is dropped at once and `QueueFull` is reported.
    BestEffort,
}

/// Why a frame was not queued.
#[derive(Clone, Copy, Debug, PartialEq, Eq, Structural)]
pub enum SendError {
    /// Best-effort send on a full queue: the frame was dropped.
    QueueFull,
    /// The session has left the open state: nothing is queued any more.
    SinkClosed,
    /// Blocking send on a full queue: the caller suspends, then sends the
    /// same frame again once a frame was drained or the sink closed.
    WouldBlock,
}

/// Abstract state of a sink: the frames waiting for the handler, the bound
/// on their number and the shared closed flag.
pub struct SinkView {
    pub queued: Seq<Seq<u8>>,
    pub capacity: nat,
    pub closed: bool,
}

/// What a send does to a sink, and what it reports.
pub open spec fn send_step(s: SinkView, frame: Seq<u8>, mode: SendMode) -> (SinkView, Result<(), SendError>) {
    if s.closed {
        (s, Err(SendError::SinkClosed))
    } else if s.queued.len() >= s.capacity {
        match mode {
            SendMode::BestEffort => (s, Err(SendError::QueueFull)),
            SendMode::Blocking => (s, Err(SendError::WouldBlock)),
        }
    } else {
        (SinkView { queued: s.queued.push(frame), ..s }, Ok(()))
    }
}

/// What the handler's drain does to a sink: it takes the oldest frame.
/// Frames still queued when the sink closed may yet be drained.
pub open spec fn drain_step(s: SinkView) -> (SinkView, Option<Seq<u8>>) {
    if s.queued.len() == 0 {
        (s, None)
    } else {
        (SinkView { queued: s.queued.drop_first(), ..s }, Some(s.queued[0]))
    }
}

/// One operation on a sink, as the producer or the handler performs it.
pub enum SinkOp {
    Send(Seq<u8>, SendMode),
    Drain,
    Close,
}

pub open spec fn op_step(s: SinkView, op: SinkOp) -> SinkView {
    match op {
        SinkOp::Send(f, m) => send_step(s, f, m).0,
        SinkOp::Drain => drain_step(s).0,
        SinkOp::Close => SinkView { closed: true, ..s },
    }
}

/// The state after running `ops` in order from `s`.
pub open spec fn run(s: SinkView, ops: Seq<SinkOp>) -> SinkView
    decreases ops.len(),
{
    if ops.len() == 0 {
        s
    } else {
        op_step(run(s, ops.drop_last()), ops.last())
    }
}

/// What each send among `ops` reported, in order.
pub open spec fn send_results(s: SinkView, ops: Seq<SinkOp>) -> Seq<Result<(), SendError>>
    decreases ops.len(),
{
    if ops.len() == 0 {
        seq![]
    } else {
        let before = run(s, ops.drop_last());
        let earlier = send_results(s, ops.drop_last());
        match ops.last() {
            SinkOp::Send(f, m) => earlier.push(send_step(before, f, m).1),
            _ => earlier,
        }
    }
}

/// The frames among `ops` that were queued, in the order of their sends.
pub open spec fn accepted(s: SinkView, ops: Seq<SinkOp>) -> Seq<Seq<u8>>
    decreases ops.len(),
{
    if ops.len() == 0 {
        seq![]
    } else {
        let before = run(s, ops.drop_last());
        let earlier = accepted(s, ops.drop_last());
        match ops.last() {
            SinkOp::Send(f, m) => if send_step(before, f, m).1 is Ok {
                earlier.push(f)
            } else {
                earlier
            },
            _ => earlier,
        }
    }
}

/// The frames that the drains among `ops` handed to the wire, in order.
pub open spec fn delivered(s: SinkView, ops: Seq<SinkOp>) -> Seq<Seq<u8>>
    decreases ops.len(),
{
    if ops.len() == 0 {
        seq![]
    } else {
        let before = run(s, ops.drop_last());
        let earlier = delivered(s, ops.drop_last());
        match ops.last() {
            SinkOp::Drain => match drain_step(before).1 {
                Some(f) => earlier.push(f),
                None => earlier,
            },
            _ => earlier,
        }
    }
}

/// Frames reach the wire in the order in which they were accepted, each
/// exactly once: what was delivered, followed by what still waits, is what
/// was waiting at the start followed by every accepted frame.
pub proof fn lemma_fifo_exactly_once(s: SinkView, ops: Seq<SinkOp>)
    ensures
        delivered(s, ops) + run(s, ops).queued == s.queued + accepted(s, ops),
    decreases ops.len(),
{
    if ops.len() > 0 {
        let prev = ops.drop_last();
        lemma_fifo_exactly_once(s, prev);
        let before = run(s, prev);
        match ops.last() {
            SinkOp::Send(f, m) => {
                if send_step(before, f, m).1 is Ok {
                    assert(delivered(s, ops) + run(s, ops).queued =~= (delivered(s, prev)
                        + before.queued).push(f));
                    assert(s.queued + accepted(s, ops) =~= (s.queued + accepted(s, prev)).push(f));
                }
            },
            SinkOp::Drain => {
                if before.queued.len() > 0 {
                    assert(delivered(s, ops) + run(s, ops).queued =~= delivered(s, prev)
                        + before.queued);
                }
            },
            SinkOp::Close => {},
        }
    }
}

/// On a session that starts with an empty queue, the frames handed to the
/// wire are exactly a prefix of the accepted frames, in send order.
pub proof fn lemma_delivery_in_send_order(s: SinkView, ops: Seq<SinkOp>)
    requires
        s.queued.len() == 0,
    ensures
        delivered(s, ops).len() <= accepted(s, ops).len(),
        delivered(s, ops) == accepted(s, ops).subrange(0, delivered(s, ops).len() as int),
        run(s, ops).queued.len() == 0 ==> delivered(s, ops) == accepted(s, ops),
{
    lemma_fifo_exactly_once(s, ops);
    let d = delivered(s, ops);
    let q = run(s, ops).queued;
    assert(s.queued + accepted(s, ops) =~= accepted(s, ops));
    assert((d + q).subrange(0, d.len() as int) =~= d);
    if q.len() == 0 {
        assert(d + q =~= d);
    }
}

/// Once closed, a sink stays closed, and every later send fails with
/// `SinkClosed` without waiting, whatever its mode and whatever else happens.
pub proof fn lemma_closed_rejects_all(s: SinkView, ops: Seq<SinkOp>)
    requires
        s.closed,
    ensures
        run(s, ops).closed,
        accepted(s, ops).len() == 0,
        forall|i: int| 0 <= i < send_results(s, ops).len()
            ==> send_results(s, ops)[i] == Err::<(), SendError>(SendError::SinkClosed),
    decreases ops.len(),
{
    if ops.len() > 0 {
        lemma_closed_rejects_all(s, ops.drop_last());
    }
}

/// On a full queue that nobody drains, any burst of best-effort sends is
/// refused with `QueueFull`, frame by frame, and leaves the sink unchanged.
pub proof fn lemma_best_effort_burst_on_full(s: SinkView, frames: Seq<Seq<u8>>)
    requires
        !s.closed,
        s.queued.len() >= s.capacity,
    ensures
        run(s, best_effort_burst(frames)) == s,
        accepted(s, best_effort_burst(frames)).len() == 0,
        send_results(s, best_effort_burst(frames)).len() == frames.len(),
        forall|i: int| 0 <= i < frames.len()
            ==> send_results(s, best_effort_burst(frames))[i] == Err::<(), SendError>(SendError::QueueFull),
    decreases frames.len(),
{
    if frames.len() > 0 {
        let prev = frames.drop_last();
        lemma_best_effort_burst_on_full(s, prev);
        assert(best_effort_burst(frames).drop_last() =~= best_effort_burst(prev));
    }
}

/// One best-effort send per frame, in order.
pub open spec fn best_effort_burst(frames: Seq<Seq<u8>>) -> Seq<SinkOp> {
    frames.map_values(|f: Seq<u8>| SinkOp::Send(f, SendMode::BestEffort))
}

/// Outbound queue of one open session: bounded, first in first out, with a
/// closed flag that the session sets when it leaves the open state.
pub struct NotificationsSink {
    queue: std::collections::VecDeque<Vec<u8>>,
    capacity: usize,
    closed: bool,
}

impl View for NotificationsSink {
    type V = SinkView;

    closed spec fn view(&self) -> SinkView {
        SinkView {
            queued: self.queue@.map_values(|f: Vec<u8>| f@),
            capacity: self.capacity as nat,
            closed: self.closed,
        }
    }
}

impl NotificationsSink {
    pub open spec fn wf(&self) -> bool {
        self@.capacity > 0 && self@.queued.len() <= self@.capacity
    }

    /// An open sink with room for `capacity` frames.
    pub fn new(capacity: usize) -> (r: NotificationsSink)
        requires
            capacity > 0,
        ensures
            r.wf(),
            r@ == (SinkView { queued: seq![], capacity: capacity as nat, closed: false }),
    {
        let r = NotificationsSink { queue: std::collections::VecDeque::new(), capacity, closed: false };
        assert(r@.queued =~= seq![]);
        r
    }

    pub fn capacity(&self) -> (r: usize)
        ensures
            r == self@.capacity,
    {
        self.capacity
    }

    pub fn len(&self) -> (r: usize)
        ensures
            r == self@.queued.len(),
    {
        self.queue.len()
    }

    pub fn is_closed(&self) -> (r: bool)
        ensures
            r == self@.closed,
    {
        self.closed
    }

    /// Queue a copy of `frame`. Never waits: a blocking send on a full queue
    /// reports `WouldBlock` and the caller suspends until a drain or a close.
    pub fn send(&mut self, frame: &Vec<u8>, mode: SendMode) -> (r: Result<(), SendError>)
        requires
            old(self).wf(),
        ensures
            final(self).wf(),
            final(self)@ == send_step(old(self)@, frame@, mode).0,
            r == send_step(old(self)@, frame@, mode).1,
    {
        if self.closed {
            Err(SendError::SinkClosed)
        } else if self.queue.len() >= self.capacity {
            match mode {
                SendMode::BestEffort => Err(SendError::QueueFull),
                SendMode::Blocking => Err(SendError::WouldBlock),
            }
        } else {
            let copy = frame.clone();
            assert(copy@ =~= frame@);
            let ghost before = self@;
            self.queue.push_back(copy);
            assert(self@.queued =~= before.queued.push(frame@));
            Ok(())
        }
    }

    /// The handler takes the oldest queued frame, if any.
    pub fn drain(&mut self) -> (r: Option<Vec<u8>>)
        requires
            old(self).wf(),
        ensures
            final(self).wf(),
            final(self)@ == drain_step(old(self)@).0,
            r.is_some() == drain_step(old(self)@).1.is_some(),
            r.is_some() ==> r.unwrap()@ == drain_step(old(self)@).1.unwrap(),
    {
        let ghost before = self@;
        let r = self.queue.pop_front();
        if r.is_some() {
            assert(self@.queued =~= before.queued.drop_first());
        }
        r
    }

    /// Set the closed flag; closing twice is the same as closing once.
    pub fn close(&mut self)
        requires
            old(self).wf(),
        ensures
            final(self).wf(),
            final(self)@ == op_step(old(self)@, SinkOp::Close),
    {
        self.closed = true;
    }
}

} // verus!
