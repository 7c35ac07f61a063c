use vstd::prelude::*;

use crate::peer::{DisconnectReason, Direction, PeerId};

verus! {

/// What the consumer of a protocol observes.
#[derive(Clone, Debug)]
pub enum ProtocolEvent {
    PeerConnected { peer: PeerId, handshake: Vec<u8>, direction: Direction },
    PeerDisconnected { peer: PeerId, reason: DisconnectReason },
    Notification { peer: PeerId, payload: Vec<u8> },
}

/// Whether the session with `p` is open after the events `h`.
pub open spec fn is_connected(h: Seq<ProtocolEvent>, p: PeerId) -> bool
    decreases h.len(),
{
    if h.len() == 0 {
        false
    } else {
        match h.last() {
            ProtocolEvent::PeerConnected { peer, .. } => peer == p || is_connected(h.drop_last(), p),
            ProtocolEvent::PeerDisconnected { peer, .. } => peer != p && is_connected(h.drop_last(), p),
            ProtocolEvent::Notification { .. } => is_connected(h.drop_last(), p),
        }
    }
}

/// Events for each peer come in generations: a connection, its
/// notifications, then a disconnection, before any new connection.
pub open spec fn well_ordered(h: Seq<ProtocolEvent>) -> bool
    decreases h.len(),
{
    if h.len() == 0 {
        true
    } else {
        &&& well_ordered(h.drop_last())
        &&& match h.last() {
            ProtocolEvent::PeerConnected { peer, .. } => !is_connected(h.drop_last(), peer),
            ProtocolEvent::PeerDisconnected { peer, .. } => is_connected(h.drop_last(), peer),
            ProtocolEvent::Notification { peer, .. } => is_connected(h.drop_last(), peer),
        }
    }
}

pub open spec fn connects(e: ProtocolEvent, p: PeerId) -> bool {
    e matches ProtocolEvent::PeerConnected { peer, .. } && peer == p
}

pub open spec fn disconnects(e: ProtocolEvent, p: PeerId) -> bool {
    e matches ProtocolEvent::PeerDisconnected { peer, .. } && peer == p
}

pub open spec fn notifies(e: ProtocolEvent, p: PeerId) -> bool {
    e matches ProtocolEvent::Notification { peer, .. } && peer == p
}

pub(crate) proof fn lemma_prefix_well_ordered(h: Seq<ProtocolEvent>, n: int)
    requires
        well_ordered(h),
        0 <= n <= h.len(),
    ensures
        well_ordered(h.subrange(0, n)),
    decreases h.len(),
{
    if n < h.len() {
        lemma_prefix_well_ordered(h.drop_last(), n);
        assert(h.drop_last().subrange(0, n) =~= h.subrange(0, n));
    } else {
        assert(h.subrange(0, n) =~= h);
    }
}

/// Events reach the consumer in generations, for each peer: a notification
/// comes only inside an open session, a connection is never followed by
/// another one before a disconnection, and after a disconnection only a
/// new connection can bring notifications again.
pub proof fn lemma_session_generations(h: Seq<ProtocolEvent>, p: PeerId)
    requires
        well_ordered(h),
    ensures
        forall|j: int| 0 <= j < h.len() && notifies(#[trigger] h[j], p) ==> is_connected(h.subrange(0, j), p),
        forall|i: int, j: int| 0 <= i < j < h.len() && connects(#[trigger] h[i], p) && connects(#[trigger] h[j], p)
            ==> exists|k: int| i < k < j && disconnects(#[trigger] h[k], p),
        forall|i: int, j: int| 0 <= i < j < h.len() && disconnects(#[trigger] h[i], p) && (notifies(#[trigger] h[j], p) || disconnects(h[j], p))
            ==> exists|k: int| i < k < j && connects(#[trigger] h[k], p),
        forall|j: int| 0 <= j < h.len() && disconnects(#[trigger] h[j], p) ==> is_connected(h.subrange(0, j), p),
{
    assert forall|j: int| 0 <= j < h.len() && disconnects(#[trigger] h[j], p) implies is_connected(h.subrange(0, j), p) by {
        lemma_prefix_well_ordered(h, j + 1);
        let s = h.subrange(0, j + 1);
        assert(s.drop_last() =~= h.subrange(0, j));
    }
    assert forall|j: int| 0 <= j < h.len() && notifies(#[trigger] h[j], p) implies is_connected(h.subrange(0, j), p) by {
        lemma_prefix_well_ordered(h, j + 1);
        let s = h.subrange(0, j + 1);
        assert(s.drop_last() =~= h.subrange(0, j));
    }
    assert forall|i: int, j: int| 0 <= i < j < h.len() && connects(#[trigger] h[i], p) && connects(#[trigger] h[j], p)
        implies exists|k: int| i < k < j && disconnects(#[trigger] h[k], p) by {
        lemma_prefix_well_ordered(h, j + 1);
        let s = h.subrange(0, j + 1);
        assert(s.drop_last() =~= h.subrange(0, j));
        if !exists|k: int| i < k < j && disconnects(#[trigger] h[k], p) {
            lemma_latest_connect(h, p, i, j);
        }
    }
    assert forall|i: int, j: int| 0 <= i < j < h.len() && disconnects(#[trigger] h[i], p) && (notifies(#[trigger] h[j], p) || disconnects(h[j], p))
        implies exists|k: int| i < k < j && connects(#[trigger] h[k], p) by {
        lemma_prefix_well_ordered(h, j + 1);
        let s = h.subrange(0, j + 1);
        assert(s.drop_last() =~= h.subrange(0, j));
        if !exists|k: int| i < k < j && connects(#[trigger] h[k], p) {
            lemma_latest_disconnect(h, p, i, j);
        }
    }
}

/// With a connection at `i` and no disconnection in `(i, n)`, the session
/// is open after the first `n` events.
proof fn lemma_latest_connect(h: Seq<ProtocolEvent>, p: PeerId, i: int, n: int)
    requires
        0 <= i < n <= h.len(),
        connects(h[i], p),
        forall|m: int| i < m < n ==> !disconnects(#[trigger] h[m], p),
    ensures
        is_connected(h.subrange(0, n), p),
    decreases n - i,
{
    let s = h.subrange(0, n);
    assert(s.drop_last() =~= h.subrange(0, n - 1));
    assert(s.last() == h[n - 1]);
    if n - 1 > i {
        lemma_latest_connect(h, p, i, n - 1);
    }
}

/// With a disconnection at `i` and no connection in `(i, n)`, the session
/// is closed after the first `n` events.
proof fn lemma_latest_disconnect(h: Seq<ProtocolEvent>, p: PeerId, i: int, n: int)
    requires
        0 <= i < n <= h.len(),
        disconnects(h[i], p),
        forall|m: int| i < m < n ==> !connects(#[trigger] h[m], p),
    ensures
        !is_connected(h.subrange(0, n), p),
    decreases n - i,
{
    let s = h.subrange(0, n);
    assert(s.drop_last() =~= h.subrange(0, n - 1));
    assert(s.last() == h[n - 1]);
    if n - 1 > i {
        lemma_latest_disconnect(h, p, i, n - 1);
    }
}

/// The peer that an event is about.
pub open spec fn event_peer(ev: ProtocolEvent) -> PeerId {
    match ev {
        ProtocolEvent::PeerConnected { peer, .. } => peer,
        ProtocolEvent::PeerDisconnected { peer, .. } => peer,
        ProtocolEvent::Notification { peer, .. } => peer,
    }
}

pub(crate) proof fn lemma_push_event(h: Seq<ProtocolEvent>, ev: ProtocolEvent)
    ensures
        forall|q: PeerId| q != event_peer(ev) ==> is_connected(h.push(ev), q) == is_connected(h, q),
        is_connected(h.push(ev), event_peer(ev)) == match ev {
            ProtocolEvent::PeerConnected { .. } => true,
            ProtocolEvent::PeerDisconnected { .. } => false,
            ProtocolEvent::Notification { .. } => is_connected(h, event_peer(ev)),
        },
        well_ordered(h.push(ev)) == (well_ordered(h) && match ev {
            ProtocolEvent::PeerConnected { .. } => !is_connected(h, event_peer(ev)),
            _ => is_connected(h, event_peer(ev)),
        }),
{
    assert(h.push(ev).drop_last() =~= h);
}

} // verus!
