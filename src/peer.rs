use vstd::prelude::*;

verus! {

/// Stable identity of a remote node.
#[derive(Clone, Copy, Debug, PartialEq, Eq, Structural)]
pub struct PeerId {
    pub id: u64,
}

/// One physical transport connection to a peer.
#[derive(Clone, Copy, Debug, PartialEq, Eq, Structural)]
pub struct ConnectionId {
    pub id: u64,
}

/// Who initiated a substream, seen from the local node.
#[derive(Clone, Copy, Debug, PartialEq, Eq, Structural)]
pub enum Direction {
    Inbound,
    Outbound,
}

/// Why an open session ended.
#[derive(Clone, Copy, Debug, PartialEq, Eq, Structural)]
pub enum DisconnectReason {
    /// The remote closed the substream or the connection.
    Remote,
    /// The transport failed under the substream.
    TransportError,
    /// The session was torn down to make way for another one.
    Replaced,
    /// The local node asked for the close.
    LocalRequest,
}

/// Phase of one (peer, protocol) pair. Phases follow one another as
/// Closed, Opening, Open, Closing, Closed. A substream that the remote opens
/// arrives with its handshake done, so it passes through Opening within the
/// step that accepts it; a close, asked locally or learnt from the remote or
/// the transport, passes through Closing within the step that makes it, so
/// that the pair is Closed when the step ends.
#[derive(Clone, Copy, Debug, PartialEq, Eq, Structural)]
pub enum PeerPhase {
    Closed,
    /// An outbound attempt runs on `connection` until `deadline`.
    Opening { connection: ConnectionId, deadline: u64 },
    /// A session is open; `primary` carries its traffic.
    Open { direction: Direction, primary: ConnectionId },
}

/// What the local node does with a substream that the remote opened.
#[derive(Clone, Copy, Debug, PartialEq, Eq, Structural)]
pub enum InboundDecision {
    Accept,
    Reject,
}

/// The tie-break rule for simultaneous opens: the outbound attempt of the
/// peer with the smaller identity survives. Both sides compute it alike.
pub open spec fn outbound_survives(local: PeerId, remote: PeerId) -> bool {
    local.id < remote.id
}

/// Whether our own outbound attempt toward `remote` is kept when the remote
/// opens a substream toward us at the same time.
pub fn keeps_outbound(local: PeerId, remote: PeerId) -> (r: bool)
    ensures
        r == outbound_survives(local, remote),
{
    local.id < remote.id
}

/// A substream opened by the remote, on `connection`, while in `phase`.
/// Closed: accepted. Opening: settled by the tie-break rule; the loser of
/// the rule drops its own attempt and accepts. Open: a redundant substream,
/// kept as a standby for the session.
pub open spec fn inbound_step(local: PeerId, remote: PeerId, phase: PeerPhase, connection: ConnectionId) -> (PeerPhase, InboundDecision) {
    match phase {
        PeerPhase::Closed => (PeerPhase::Open { direction: Direction::Inbound, primary: connection }, InboundDecision::Accept),
        PeerPhase::Opening { .. } => if outbound_survives(local, remote) {
            (phase, InboundDecision::Reject)
        } else {
            (PeerPhase::Open { direction: Direction::Inbound, primary: connection }, InboundDecision::Accept)
        },
        PeerPhase::Open { .. } => (phase, InboundDecision::Accept),
    }
}

/// The remote accepted our outbound substream on `connection`.
pub open spec fn accepted_step(phase: PeerPhase, connection: ConnectionId) -> PeerPhase {
    match phase {
        PeerPhase::Opening { connection: c, .. } => if c == connection {
            PeerPhase::Open { direction: Direction::Outbound, primary: connection }
        } else {
            phase
        },
        _ => phase,
    }
}

/// The remote refused our outbound substream on `connection`.
pub open spec fn refused_step(phase: PeerPhase, connection: ConnectionId) -> PeerPhase {
    match phase {
        PeerPhase::Opening { connection: c, .. } => if c == connection {
            PeerPhase::Closed
        } else {
            phase
        },
        _ => phase,
    }
}

/// Two peers that open toward each other at the same time end with one
/// session, open on both sides, in opposite directions: exactly one side
/// accepts the other's substream, and its own attempt is the one refused.
pub proof fn lemma_simultaneous_open_converges(
    a: PeerId,
    b: PeerId,
    on_a: ConnectionId,
    on_b: ConnectionId,
    deadline_a: u64,
    deadline_b: u64,
)
    requires
        a != b,
    ensures
        ({
            let start_a = PeerPhase::Opening { connection: on_a, deadline: deadline_a };
            let start_b = PeerPhase::Opening { connection: on_b, deadline: deadline_b };
            let (mid_a, dec_a) = inbound_step(a, b, start_a, on_a);
            let (mid_b, dec_b) = inbound_step(b, a, start_b, on_b);
            // each side answers the other's attempt
            let end_a = if dec_b == InboundDecision::Accept {
                accepted_step(mid_a, on_a)
            } else {
                refused_step(mid_a, on_a)
            };
            let end_b = if dec_a == InboundDecision::Accept {
                accepted_step(mid_b, on_b)
            } else {
                refused_step(mid_b, on_b)
            };
            &&& (dec_a == InboundDecision::Accept) != (dec_b == InboundDecision::Accept)
            &&& end_a matches PeerPhase::Open { direction: da, .. }
            &&& end_b matches PeerPhase::Open { direction: db, .. }
            &&& da != db
        }),
{
    assert(a.id != b.id);
}

/// Delay before the next attempt after `failures` failed ones: `base`,
/// doubled with each further failure, never above `cap`.
pub open spec fn backoff_delay(base: nat, cap: nat, failures: nat) -> nat
    decreases failures,
{
    if failures <= 1 {
        if base <= cap { base } else { cap }
    } else {
        let d = 2 * backoff_delay(base, cap, (failures - 1) as nat);
        if d <= cap { d } else { cap }
    }
}

proof fn lemma_backoff_stays_capped(base: nat, cap: nat, i: nat, j: nat)
    requires
        1 <= i <= j,
        backoff_delay(base, cap, i) == cap,
    ensures
        backoff_delay(base, cap, j) == cap,
    decreases j - i,
{
    if i < j {
        lemma_backoff_stays_capped(base, cap, i, (j - 1) as nat);
    }
}

proof fn lemma_backoff_bounded(base: nat, cap: nat, n: nat)
    ensures
        backoff_delay(base, cap, n) <= cap,
    decreases n,
{
    if n > 1 {
        lemma_backoff_bounded(base, cap, (n - 1) as nat);
    }
}

/// Exponential backoff, capped.
pub fn backoff(base: u64, cap: u64, failures: u32) -> (r: u64)
    ensures
        r == backoff_delay(base as nat, cap as nat, failures as nat),
        r <= cap,
{
    let mut d: u64 = if base <= cap { base } else { cap };
    let mut i: u32 = 1;
    while i < failures && d < cap
        invariant
            1 <= i,
            i <= failures || i == 1,
            d == backoff_delay(base as nat, cap as nat, i as nat),
            d <= cap,
        decreases failures - i,
    {
        d = if d > cap / 2 { cap } else { 2 * d };
        i = i + 1;
    }
    proof {
        if failures == 0 {
            assert(backoff_delay(base as nat, cap as nat, 0) == backoff_delay(base as nat, cap as nat, 1));
        }
        if failures > i {
            lemma_backoff_stays_capped(base as nat, cap as nat, i as nat, failures as nat);
        }
        lemma_backoff_bounded(base as nat, cap as nat, failures as nat);
    }
    d
}

} // verus!
