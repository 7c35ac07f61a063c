use vstd::prelude::*;

use crate::peer::{
    accepted_step, backoff, backoff_delay, inbound_step, keeps_outbound, refused_step, ConnectionId,
    DisconnectReason, Direction, InboundDecision, PeerId, PeerPhase,
};
use crate::events::{
    connects, disconnects, event_peer, is_connected, lemma_prefix_well_ordered, lemma_push_event, lemma_session_generations, notifies,
    well_ordered, ProtocolEvent,
};
use crate::sink::{drain_step, send_step, NotificationsSink, SendError, SendMode, SinkView};

verus! {

/// Per-protocol settings of the aggregator.
#[derive(Clone, Copy, Debug, PartialEq, Eq, Structural)]
pub struct ProtocolSettings {
    /// Largest notification payload accepted from a peer, in bytes.
    pub max_message_size: usize,
    /// Open toward every connected peer without being asked.
    pub auto_open: bool,
    /// How long an outbound handshake may take.
    pub handshake_timeout: u64,
    /// How many outbound attempts may run at once.
    pub open_slots: usize,
    /// Room of each session's outbound queue, in frames.
    pub sink_capacity: usize,
    /// First delay after a failed attempt.
    pub backoff_base: u64,
    /// Largest delay between attempts.
    pub backoff_cap: u64,
}

/// What the aggregator asks of the connection handlers.
#[derive(Clone, Copy, Debug, PartialEq, Eq, Structural)]
pub enum HandlerCommand {
    OpenSubstream { peer: PeerId, connection: ConnectionId },
    AcceptSubstream { peer: PeerId, connection: ConnectionId },
    RejectSubstream { peer: PeerId, connection: ConnectionId },
    CloseSubstream { peer: PeerId, connection: ConnectionId },
}

/// Signals for the reputation collaborator, which decides what to do.
#[derive(Clone, Copy, Debug, PartialEq, Eq, Structural)]
pub enum PeerReport {
    HandshakeTimeout { peer: PeerId },
    HandshakeRejected { peer: PeerId },
    ProtocolViolation { peer: PeerId },
}

/// Answer to an open request.
#[derive(Clone, Copy, Debug, PartialEq, Eq, Structural)]
pub enum OpenRequest {
    /// An outbound attempt was started.
    Started,
    /// All opening slots are taken: the request waits its turn.
    Queued,
    /// A session is opening or open already: nothing new was started.
    AlreadyActive,
    /// The last attempt failed and its backoff runs until the given time.
    BackingOff { until: u64 },
    /// No connection to the peer exists.
    Unavailable,
}

/// What the table knows of one peer.
pub struct PeerView {
    /// Physical connections to the peer.
    pub connections: Seq<ConnectionId>,
    /// Connections that carry an open substream; the first is the primary.
    pub open_on: Seq<ConnectionId>,
    pub phase: PeerPhase,
    /// Failed attempts since the last open session.
    pub failures: nat,
    /// No new attempt before this time.
    pub retry_at: nat,
    /// The outbound queue, while the session is open.
    pub sink: Option<SinkView>,
}

/// Abstract state of the table of one protocol.
pub struct TableView {
    pub local: PeerId,
    pub settings: ProtocolSettings,
    pub peers: Map<PeerId, PeerView>,
    /// Number of peers whose outbound attempt is running.
    pub in_flight: nat,
    /// Open requests waiting for a slot, oldest first.
    pub pending: Seq<PeerId>,
    /// Events not yet taken by the consumer.
    pub events: Seq<ProtocolEvent>,
    /// Every event emitted so far.
    pub history: Seq<ProtocolEvent>,
    /// The events the consumer has taken, in order.
    pub taken: Seq<ProtocolEvent>,
    pub commands: Seq<HandlerCommand>,
    pub reports: Seq<PeerReport>,
}

/// The record of one connected peer.
struct PeerEntry {
    peer: PeerId,
    connections: Vec<ConnectionId>,
    open_on: Vec<ConnectionId>,
    phase: PeerPhase,
    failures: u32,
    retry_at: u64,
    sink: Option<NotificationsSink>,
}

spec fn entry_view(e: PeerEntry) -> PeerView {
    PeerView {
        connections: e.connections@,
        open_on: e.open_on@,
        phase: e.phase,
        failures: e.failures as nat,
        retry_at: e.retry_at as nat,
        sink: match e.sink {
            Some(s) => Some(s@),
            None => None,
        },
    }
}

spec fn peer_map(s: Seq<PeerEntry>) -> Map<PeerId, PeerView>
    decreases s.len(),
{
    if s.len() == 0 {
        Map::empty()
    } else {
        peer_map(s.drop_last()).insert(s.last().peer, entry_view(s.last()))
    }
}

spec fn unique_peers(s: Seq<PeerEntry>) -> bool {
    forall|i: int, j: int| 0 <= i < s.len() && 0 <= j < s.len() && i != j ==> s[i].peer != s[j].peer
}

spec fn is_opening(phase: PeerPhase) -> bool {
    phase is Opening
}

spec fn opening_count(s: Seq<PeerEntry>) -> nat
    decreases s.len(),
{
    if s.len() == 0 {
        0
    } else {
        opening_count(s.drop_last()) + if is_opening(s.last().phase) { 1nat } else { 0nat }
    }
}

proof fn lemma_map_has(s: Seq<PeerEntry>, i: int)
    requires
        unique_peers(s),
        0 <= i < s.len(),
    ensures
        peer_map(s).contains_key(s[i].peer),
        peer_map(s)[s[i].peer] == entry_view(s[i]),
    decreases s.len(),
{
    if i < s.len() - 1 {
        let t = s.drop_last();
        assert(t[i] == s[i]);
        lemma_map_has(t, i);
    }
}

proof fn lemma_map_lacks(s: Seq<PeerEntry>, p: PeerId)
    requires
        forall|i: int| 0 <= i < s.len() ==> s[i].peer != p,
    ensures
        !peer_map(s).contains_key(p),
    decreases s.len(),
{
    if s.len() > 0 {
        lemma_map_lacks(s.drop_last(), p);
    }
}

proof fn lemma_map_keys(s: Seq<PeerEntry>, p: PeerId)
    requires
        peer_map(s).contains_key(p),
    ensures
        exists|i: int| 0 <= i < s.len() && s[i].peer == p,
    decreases s.len(),
{
    if s.last().peer != p {
        lemma_map_keys(s.drop_last(), p);
        let i = choose|i: int| 0 <= i < s.len() - 1 && s.drop_last()[i].peer == p;
        assert(s[i].peer == p);
    }
}

proof fn lemma_map_update(s: Seq<PeerEntry>, i: int, e: PeerEntry)
    requires
        unique_peers(s),
        0 <= i < s.len(),
        e.peer == s[i].peer,
    ensures
        peer_map(s.update(i, e)) == peer_map(s).insert(e.peer, entry_view(e)),
        unique_peers(s.update(i, e)),
        opening_count(s.update(i, e)) + (if is_opening(s[i].phase) { 1nat } else { 0nat })
            == opening_count(s) + (if is_opening(e.phase) { 1nat } else { 0nat }),
    decreases s.len(),
{
    let u = s.update(i, e);
    if i == s.len() - 1 {
        assert(u.drop_last() =~= s.drop_last());
        lemma_map_lacks(s.drop_last(), e.peer);
        assert(peer_map(u) =~= peer_map(s).insert(e.peer, entry_view(e)));
    } else {
        let t = s.drop_last();
        lemma_map_update(t, i, e);
        assert(u.drop_last() =~= t.update(i, e));
        assert(s.last().peer != e.peer);
        assert(peer_map(u) =~= peer_map(s).insert(e.peer, entry_view(e)));
    }
}

proof fn lemma_map_remove(s: Seq<PeerEntry>, i: int)
    requires
        unique_peers(s),
        0 <= i < s.len(),
    ensures
        peer_map(s.remove(i)) == peer_map(s).remove(s[i].peer),
        unique_peers(s.remove(i)),
        opening_count(s.remove(i)) + (if is_opening(s[i].phase) { 1nat } else { 0nat }) == opening_count(s),
    decreases s.len(),
{
    let r = s.remove(i);
    if i == s.len() - 1 {
        assert(r =~= s.drop_last());
        lemma_map_lacks(s.drop_last(), s[i].peer);
        assert(peer_map(r) =~= peer_map(s).remove(s[i].peer));
    } else {
        let t = s.drop_last();
        lemma_map_remove(t, i);
        assert(r.drop_last() =~= t.remove(i));
        assert(r.last() == s.last());
        assert(s.last().peer != s[i].peer);
        assert(peer_map(r) =~= peer_map(s).remove(s[i].peer));
    }
}

proof fn lemma_map_push(s: Seq<PeerEntry>, e: PeerEntry)
    requires
        unique_peers(s),
        !peer_map(s).contains_key(e.peer),
    ensures
        peer_map(s.push(e)) == peer_map(s).insert(e.peer, entry_view(e)),
        unique_peers(s.push(e)),
        opening_count(s.push(e)) == opening_count(s) + (if is_opening(e.phase) { 1nat } else { 0nat }),
{
    let u = s.push(e);
    assert(u.drop_last() =~= s);
    assert forall|i: int| 0 <= i < s.len() implies s[i].peer != e.peer by {
        lemma_map_has(s, i);
    }
}

/// Peers whose outbound attempt is running.
pub open spec fn opening_peers(t: TableView) -> Set<PeerId> {
    t.peers.dom().filter(|q: PeerId| t.peers[q].phase is Opening)
}

proof fn lemma_opening_peers(s: Seq<PeerEntry>)
    requires
        unique_peers(s),
    ensures
        peer_map(s).dom().filter(|q: PeerId| peer_map(s)[q].phase is Opening).finite(),
        peer_map(s).dom().filter(|q: PeerId| peer_map(s)[q].phase is Opening).len() == opening_count(s),
    decreases s.len(),
{
    let m = peer_map(s);
    let f = m.dom().filter(|q: PeerId| m[q].phase is Opening);
    if s.len() == 0 {
        assert(f =~= Set::<PeerId>::empty());
    } else {
        let dl = s.drop_last();
        let e = s.last();
        assert(unique_peers(dl)) by {
            assert forall|i: int, j: int| 0 <= i < dl.len() && 0 <= j < dl.len() && i != j implies dl[i].peer != dl[j].peer by {
                assert(dl[i] == s[i] && dl[j] == s[j]);
            }
        }
        lemma_opening_peers(dl);
        assert forall|i: int| 0 <= i < dl.len() implies dl[i].peer != e.peer by {
            assert(dl[i] == s[i]);
        }
        lemma_map_lacks(dl, e.peer);
        let m0 = peer_map(dl);
        let f0 = m0.dom().filter(|q: PeerId| m0[q].phase is Opening);
        if is_opening(e.phase) {
            assert(f =~= f0.insert(e.peer));
        } else {
            assert(f =~= f0);
        }
    }
}

/// The record of one peer is consistent with the session it holds and with
/// the events emitted so far.
spec fn entry_ok(e: PeerEntry, settings: ProtocolSettings, h: Seq<ProtocolEvent>) -> bool {
    &&& e.connections@.len() > 0
    &&& forall|k: int| 0 <= k < e.open_on@.len() ==> e.connections@.contains(#[trigger] e.open_on@[k])
    &&& (e.phase is Open) == (e.open_on@.len() > 0)
    &&& (e.phase is Open) == e.sink.is_some()
    &&& (e.phase is Open) == is_connected(h, e.peer)
    &&& match e.phase {
        PeerPhase::Open { primary, .. } => e.open_on@[0] == primary,
        PeerPhase::Opening { connection, .. } => e.connections@.contains(connection),
        _ => true,
    }
    &&& match e.sink {
        Some(s) => s.wf() && !s@.closed && s@.capacity == settings.sink_capacity,
        None => true,
    }
}

spec fn entries_ok(s: Seq<PeerEntry>, settings: ProtocolSettings, h: Seq<ProtocolEvent>) -> bool {
    &&& forall|i: int| 0 <= i < s.len() ==> entry_ok(#[trigger] s[i], settings, h)
    &&& forall|p: PeerId| !peer_map(s).contains_key(p) ==> !is_connected(h, p)
}

proof fn lemma_replace_entry(
    s: Seq<PeerEntry>,
    settings: ProtocolSettings,
    h: Seq<ProtocolEvent>,
    h2: Seq<ProtocolEvent>,
    i: int,
    e: PeerEntry,
)
    requires
        unique_peers(s),
        entries_ok(s, settings, h),
        0 <= i < s.len(),
        e.peer == s[i].peer,
        entry_ok(e, settings, h2),
        forall|q: PeerId| q != e.peer ==> is_connected(h2, q) == is_connected(h, q),
    ensures
        entries_ok(s.update(i, e), settings, h2),
        unique_peers(s.update(i, e)),
        peer_map(s.update(i, e)) == peer_map(s).insert(e.peer, entry_view(e)),
        opening_count(s.update(i, e)) + (if is_opening(s[i].phase) { 1nat } else { 0nat })
            == opening_count(s) + (if is_opening(e.phase) { 1nat } else { 0nat }),
{
    lemma_map_update(s, i, e);
    let u = s.update(i, e);
    assert forall|k: int| 0 <= k < u.len() implies entry_ok(#[trigger] u[k], settings, h2) by {
        if k != i {
            assert(s[k].peer != e.peer);
            assert(entry_ok(s[k], settings, h));
        }
    }
    assert forall|p: PeerId| !peer_map(u).contains_key(p) implies !is_connected(h2, p) by {
        assert(p != e.peer);
    }
}

proof fn lemma_remove_entry(s: Seq<PeerEntry>, settings: ProtocolSettings, h: Seq<ProtocolEvent>, i: int)
    requires
        unique_peers(s),
        entries_ok(s, settings, h),
        0 <= i < s.len(),
        !(s[i].phase is Open),
    ensures
        entries_ok(s.remove(i), settings, h),
        unique_peers(s.remove(i)),
        peer_map(s.remove(i)) == peer_map(s).remove(s[i].peer),
        opening_count(s.remove(i)) + (if is_opening(s[i].phase) { 1nat } else { 0nat }) == opening_count(s),
{
    lemma_map_remove(s, i);
    let r = s.remove(i);
    assert(entry_ok(s[i], settings, h));
    assert forall|k: int| 0 <= k < r.len() implies entry_ok(#[trigger] r[k], settings, h) by {
        if k < i {
            assert(r[k] == s[k]);
        } else {
            assert(r[k] == s[k + 1]);
        }
    }
}

proof fn lemma_push_entry(s: Seq<PeerEntry>, settings: ProtocolSettings, h: Seq<ProtocolEvent>, e: PeerEntry)
    requires
        unique_peers(s),
        entries_ok(s, settings, h),
        !peer_map(s).contains_key(e.peer),
        entry_ok(e, settings, h),
    ensures
        entries_ok(s.push(e), settings, h),
        unique_peers(s.push(e)),
        peer_map(s.push(e)) == peer_map(s).insert(e.peer, entry_view(e)),
        opening_count(s.push(e)) == opening_count(s) + (if is_opening(e.phase) { 1nat } else { 0nat }),
{
    lemma_map_push(s, e);
    let u = s.push(e);
    assert forall|k: int| 0 <= k < u.len() implies entry_ok(#[trigger] u[k], settings, h) by {
        if k < s.len() {
            assert(u[k] == s[k]);
        }
    }
}

fn contains_connection(v: &Vec<ConnectionId>, c: ConnectionId) -> (r: bool)
    ensures
        r == v@.contains(c),
{
    let mut i: usize = 0;
    while i < v.len()
        invariant
            i <= v@.len(),
            forall|k: int| 0 <= k < i ==> v@[k] != c,
        decreases v@.len() - i,
    {
        if v[i] == c {
            return true;
        }
        i = i + 1;
    }
    false
}

/// `s` without any occurrence of `c`, order kept.
pub open spec fn without(s: Seq<ConnectionId>, c: ConnectionId) -> Seq<ConnectionId> {
    s.filter(differs(c))
}

pub open spec fn differs(c: ConnectionId) -> spec_fn(ConnectionId) -> bool {
    |x: ConnectionId| x != c
}

proof fn lemma_without(s: Seq<ConnectionId>, c: ConnectionId)
    ensures
        forall|x: ConnectionId| #[trigger] without(s, c).contains(x) <==> (s.contains(x) && x != c),
{
    assert forall|x: ConnectionId| #[trigger] without(s, c).contains(x) <==> (s.contains(x) && x != c) by {
        if without(s, c).contains(x) {
            s.lemma_filter_contains_rev(differs(c), x);
            let k = choose|k: int| 0 <= k < without(s, c).len() && without(s, c)[k] == x;
            s.lemma_filter_pred(differs(c), k);
        }
        if s.contains(x) && x != c {
            let k = choose|k: int| 0 <= k < s.len() && s[k] == x;
            s.lemma_filter_contains(differs(c), k);
        }
    }
}

fn remove_connection(v: &Vec<ConnectionId>, c: ConnectionId) -> (r: Vec<ConnectionId>)
    ensures
        r@ == without(v@, c),
{
    let mut r: Vec<ConnectionId> = Vec::new();
    let mut i: usize = 0;
    while i < v.len()
        invariant
            i <= v@.len(),
            r@ == without(v@.subrange(0, i as int), c),
        decreases v@.len() - i,
    {
        proof {
            reveal(Seq::filter);
            assert(v@.subrange(0, i + 1).drop_last() =~= v@.subrange(0, i as int));
        }
        if v[i] != c {
            r.push(v[i]);
        }
        i = i + 1;
    }
    proof {
        assert(v@.subrange(0, v@.len() as int) =~= v@);
    }
    r
}

/// Aggregator state of one protocol: one record per connected peer, the
/// queue of open requests that wait for a slot, and the outgoing events,
/// handler commands and reports.
pub struct ProtocolTable {
    local: PeerId,
    settings: ProtocolSettings,
    peers: Vec<PeerEntry>,
    in_flight: usize,
    pending: std::collections::VecDeque<PeerId>,
    events: std::collections::VecDeque<ProtocolEvent>,
    history: Ghost<Seq<ProtocolEvent>>,
    taken: Ghost<Seq<ProtocolEvent>>,
    commands: std::collections::VecDeque<HandlerCommand>,
    reports: std::collections::VecDeque<PeerReport>,
}

impl View for ProtocolTable {
    type V = TableView;

    closed spec fn view(&self) -> TableView {
        TableView {
            local: self.local,
            settings: self.settings,
            peers: peer_map(self.peers@),
            in_flight: self.in_flight as nat,
            pending: self.pending@,
            events: self.events@,
            history: self.history@,
            taken: self.taken@,
            commands: self.commands@,
            reports: self.reports@,
        }
    }
}

/// Deadline of an attempt started at `now`, saturating at the largest time.
pub open spec fn deadline_after(now: u64, timeout: u64) -> u64 {
    if now as nat + timeout as nat <= u64::MAX as nat {
        (now + timeout) as u64
    } else {
        u64::MAX
    }
}

/// A closed peer after an outbound attempt was started on its first connection.
pub open spec fn started(v: PeerView, now: u64, timeout: u64) -> PeerView {
    PeerView { phase: PeerPhase::Opening { connection: v.connections[0], deadline: deadline_after(now, timeout) }, ..v }
}

/// A peer whose session just opened on `c`, with an empty outbound queue.
pub open spec fn opened(v: PeerView, direction: Direction, c: ConnectionId, capacity: usize) -> PeerView {
    PeerView {
        open_on: seq![c],
        phase: PeerPhase::Open { direction, primary: c },
        failures: 0,
        sink: Some(SinkView { queued: seq![], capacity: capacity as nat, closed: false }),
        ..v
    }
}

/// Whether nothing more can be started: every slot is taken, or no open
/// request waits.
pub open spec fn serving_done(t: TableView) -> bool {
    t.in_flight >= t.settings.open_slots || t.pending.len() == 0
}

/// Each waiting open request names a known peer whose pair is closed, and
/// no peer waits twice.
pub open spec fn queue_ok(peers: Map<PeerId, PeerView>, pending: Seq<PeerId>) -> bool {
    &&& pending.no_duplicates()
    &&& forall|j: int| 0 <= j < pending.len() ==> peers.contains_key(#[trigger] pending[j])
        && peers[pending[j]].phase == PeerPhase::Closed
}

pub open spec fn other_than(p: PeerId) -> spec_fn(PeerId) -> bool {
    |q: PeerId| q != p
}

/// The waiting requests without the one of `p`, order kept.
pub open spec fn unqueued(s: Seq<PeerId>, p: PeerId) -> Seq<PeerId> {
    s.filter(other_than(p))
}

/// How many waiting requests can start now: as many as there are free
/// slots, at most all of them.
pub open spec fn serve_count(t: TableView) -> nat {
    let free: nat = if t.in_flight <= t.settings.open_slots {
        (t.settings.open_slots - t.in_flight) as nat
    } else {
        0
    };
    if t.pending.len() <= free {
        t.pending.len()
    } else {
        free
    }
}

/// One open command per peer of `qs`, on its first connection.
pub open spec fn open_commands(t: TableView, qs: Seq<PeerId>) -> Seq<HandlerCommand> {
    qs.map_values(|q: PeerId| HandlerCommand::OpenSubstream { peer: q, connection: t.peers[q].connections[0] })
}

/// `b` is `a` once the oldest waiting requests were started at `now`, as
/// many as the free slots allow, in the order in which they arrived.
pub open spec fn served(a: TableView, b: TableView, now: u64) -> bool {
    let k = serve_count(a) as int;
    let head = a.pending.subrange(0, k);
    &&& b.local == a.local
    &&& b.settings == a.settings
    &&& b.peers.dom() == a.peers.dom()
    &&& forall|q: PeerId| #[trigger] a.peers.contains_key(q) ==> b.peers[q] == if head.contains(q) {
        started(a.peers[q], now, a.settings.handshake_timeout)
    } else {
        a.peers[q]
    }
    &&& b.in_flight == a.in_flight + k
    &&& b.pending == a.pending.subrange(k, a.pending.len() as int)
    &&& b.commands == a.commands + open_commands(a, head)
    &&& b.events == a.events
    &&& b.history == a.history
    &&& b.taken == a.taken
    &&& b.reports == a.reports
}

/// What an open request toward `p` at `now` leads to.
pub open spec fn open_outcome(t: TableView, p: PeerId, now: u64) -> OpenRequest {
    if !t.peers.contains_key(p) {
        OpenRequest::Unavailable
    } else {
        match t.peers[p].phase {
            PeerPhase::Closed => if (now as nat) < t.peers[p].retry_at {
                OpenRequest::BackingOff { until: t.peers[p].retry_at as u64 }
            } else if t.in_flight >= t.settings.open_slots {
                OpenRequest::Queued
            } else {
                OpenRequest::Started
            },
            _ => OpenRequest::AlreadyActive,
        }
    }
}

/// A peer whose outbound attempt failed at `now`: closed, one more failure
/// counted, and no new attempt before the backoff has run.
pub open spec fn failed(v: PeerView, now: u64, s: ProtocolSettings) -> PeerView {
    let f = if v.failures < u32::MAX as nat { v.failures + 1 } else { v.failures };
    PeerView {
        phase: PeerPhase::Closed,
        failures: f,
        retry_at: deadline_after(now, backoff_delay(s.backoff_base as nat, s.backoff_cap as nat, f) as u64) as nat,
        ..v
    }
}

/// Whether the outbound attempt of a peer runs on `c`.
pub open spec fn opening_on(v: PeerView, c: ConnectionId) -> bool {
    v.phase matches PeerPhase::Opening { connection, .. } && connection == c
}

/// A peer after the substream on `c` went away. An open session moves to
/// the next open substream, if any, without a break; else it ends. An
/// attempt that ran on `c` fails.
pub open spec fn after_loss(v: PeerView, c: ConnectionId, now: u64, s: ProtocolSettings) -> PeerView {
    match v.phase {
        PeerPhase::Open { direction, .. } => if v.open_on.contains(c) {
            let rest = without(v.open_on, c);
            if rest.len() > 0 {
                PeerView { open_on: rest, phase: PeerPhase::Open { direction, primary: rest[0] }, ..v }
            } else {
                PeerView { open_on: seq![], phase: PeerPhase::Closed, sink: None, ..v }
            }
        } else {
            v
        },
        PeerPhase::Opening { connection, .. } => if connection == c {
            failed(v, now, s)
        } else {
            v
        },
        _ => v,
    }
}

/// Whether the outbound attempt of a peer has run past its deadline.
pub open spec fn timed_out(v: PeerView, now: u64) -> bool {
    v.phase matches PeerPhase::Opening { deadline, .. } && deadline <= now
}

/// A peer after a timer tick at `now`.
pub open spec fn after_tick(v: PeerView, now: u64, s: ProtocolSettings) -> PeerView {
    if timed_out(v, now) {
        failed(v, now, s)
    } else {
        v
    }
}

/// Every peer of `t` after a timer tick at `now`.
pub open spec fn ticked(t: TableView, now: u64) -> Map<PeerId, PeerView> {
    t.peers.map_values(|v: PeerView| after_tick(v, now, t.settings))
}

/// One close command per substream in `on`.
pub open spec fn close_commands(p: PeerId, on: Seq<ConnectionId>) -> Seq<HandlerCommand> {
    on.map_values(|c: ConnectionId| HandlerCommand::CloseSubstream { peer: p, connection: c })
}

/// Whether connection `c` carries the open session with `p`.
pub open spec fn carries_session(t: TableView, p: PeerId, c: ConnectionId) -> bool {
    &&& t.peers.contains_key(p)
    &&& t.peers[p].phase is Open
    &&& t.peers[p].phase->primary == c
}

/// Whether losing the substream on `c` ends the open session.
pub open spec fn loss_ends_session(v: PeerView, c: ConnectionId) -> bool {
    &&& v.phase is Open
    &&& v.open_on.contains(c)
    &&& without(v.open_on, c).len() == 0
}

/// `t` after the substream with `p` on `c` went away for `reason`, before
/// freed slots go to waiting requests.
pub open spec fn lost(t: TableView, p: PeerId, c: ConnectionId, reason: DisconnectReason, now: u64) -> TableView {
    let v = t.peers[p];
    let ev = ProtocolEvent::PeerDisconnected { peer: p, reason };
    TableView {
        peers: t.peers.insert(p, after_loss(v, c, now, t.settings)),
        in_flight: if opening_on(v, c) { (t.in_flight - 1) as nat } else { t.in_flight },
        events: if loss_ends_session(v, c) { t.events.push(ev) } else { t.events },
        history: if loss_ends_session(v, c) { t.history.push(ev) } else { t.history },
        ..t
    }
}

/// How the table changes from `a` to `b` on: an open request toward `p` at
/// `now`, answered `r`.
pub open spec fn request_open_effect(a: TableView, b: TableView, p: PeerId, now: u64, r: OpenRequest) -> bool {
    &&& r == open_outcome(a, p, now)
    &&& b == match r {
        OpenRequest::Started => TableView {
            peers: a.peers.insert(p, started(a.peers[p], now, a.settings.handshake_timeout)),
            in_flight: a.in_flight + 1,
            commands: a.commands.push(HandlerCommand::OpenSubstream { peer: p, connection: a.peers[p].connections[0] }),
            ..a
        },
        OpenRequest::Queued => TableView {
            pending: if a.pending.contains(p) { a.pending } else { a.pending.push(p) },
            ..a
        },
        _ => a,
    }
}

/// The table once it knows of connection `c` to `p`: a peer seen for the
/// first time gets a closed record.
pub open spec fn with_connection(t: TableView, p: PeerId, c: ConnectionId) -> TableView {
    if !t.peers.contains_key(p) {
        TableView {
            peers: t.peers.insert(p, PeerView {
                connections: seq![c],
                open_on: seq![],
                phase: PeerPhase::Closed,
                failures: 0,
                retry_at: 0,
                sink: None,
            }),
            ..t
        }
    } else if t.peers[p].connections.contains(c) {
        t
    } else {
        TableView { peers: t.peers.insert(p, PeerView { connections: t.peers[p].connections.push(c), ..t.peers[p] }), ..t }
    }
}

/// How the table changes from `a` to `b` on: a new connection `c` to `p` at
/// `now`; a protocol that opens automatically then asks for a session.
pub open spec fn connection_established_effect(a: TableView, b: TableView, p: PeerId, c: ConnectionId, now: u64, r: Option<OpenRequest>) -> bool {
    match r {
        None => !a.settings.auto_open && b == with_connection(a, p, c),
        Some(o) => a.settings.auto_open && request_open_effect(with_connection(a, p, c), b, p, now, o),
    }
}

/// How the table changes from `a` to `b` on: a substream that `p` opened on
/// `c` with `handshake`, answered `r`.
pub open spec fn inbound_open_effect(a: TableView, b: TableView, p: PeerId, c: ConnectionId, handshake: Vec<u8>, now: u64, r: InboundDecision) -> bool {
    let reject = TableView { commands: a.commands.push(HandlerCommand::RejectSubstream { peer: p, connection: c }), ..a };
    if !(a.peers.contains_key(p) && a.peers[p].connections.contains(c)) {
        r == InboundDecision::Reject && b == reject
    } else {
        let v = a.peers[p];
        let decision = inbound_step(a.local, p, v.phase, c).1;
        let ev = ProtocolEvent::PeerConnected { peer: p, handshake, direction: Direction::Inbound };
        let accept = a.commands.push(HandlerCommand::AcceptSubstream { peer: p, connection: c });
        &&& r == decision
        &&& match v.phase {
            PeerPhase::Open { .. } => b == TableView {
                peers: a.peers.insert(p, PeerView {
                    open_on: if v.open_on.contains(c) { v.open_on } else { v.open_on.push(c) },
                    ..v
                }),
                commands: accept,
                ..a
            },
            PeerPhase::Closed => b == TableView {
                peers: a.peers.insert(p, opened(v, Direction::Inbound, c, a.settings.sink_capacity)),
                pending: unqueued(a.pending, p),
                events: a.events.push(ev),
                history: a.history.push(ev),
                commands: accept,
                ..a
            },
            PeerPhase::Opening { .. } => if decision == InboundDecision::Reject {
                b == reject
            } else {
                served(TableView {
                    peers: a.peers.insert(p, opened(v, Direction::Inbound, c, a.settings.sink_capacity)),
                    in_flight: (a.in_flight - 1) as nat,
                    events: a.events.push(ev),
                    history: a.history.push(ev),
                    commands: accept,
                    ..a
                }, b, now)
            },
        }
    }
}

/// How the table changes from `a` to `b` on: the remote accepted our
/// substream on `c` with `handshake`.
pub open spec fn outbound_accepted_effect(a: TableView, b: TableView, p: PeerId, c: ConnectionId, handshake: Vec<u8>, now: u64, r: bool) -> bool {
    let ev = ProtocolEvent::PeerConnected { peer: p, handshake, direction: Direction::Outbound };
    &&& r == (a.peers.contains_key(p) && accepted_step(a.peers[p].phase, c) != a.peers[p].phase)
    &&& if r {
        served(TableView {
            peers: a.peers.insert(p, opened(a.peers[p], Direction::Outbound, c, a.settings.sink_capacity)),
            in_flight: (a.in_flight - 1) as nat,
            events: a.events.push(ev),
            history: a.history.push(ev),
            ..a
        }, b, now)
    } else {
        b == a
    }
}

/// How the table changes from `a` to `b` on: the remote refused our
/// substream on `c`.
pub open spec fn outbound_refused_effect(a: TableView, b: TableView, p: PeerId, c: ConnectionId, now: u64, r: bool) -> bool {
    &&& r == (a.peers.contains_key(p) && refused_step(a.peers[p].phase, c) != a.peers[p].phase)
    &&& if r {
        served(TableView {
            peers: a.peers.insert(p, failed(a.peers[p], now, a.settings)),
            in_flight: (a.in_flight - 1) as nat,
            reports: a.reports.push(PeerReport::HandshakeRejected { peer: p }),
            ..a
        }, b, now)
    } else {
        b == a
    }
}

/// How the table changes from `a` to `b` on: the substream with `p` on `c`
/// closed for `reason`.
pub open spec fn substream_closed_effect(a: TableView, b: TableView, p: PeerId, c: ConnectionId, reason: DisconnectReason, now: u64) -> bool {
    if a.peers.contains_key(p) {
        served(lost(a, p, c, reason, now), b, now)
    } else {
        b == a
    }
}

/// How the table changes from `a` to `b` on: the connection `c` to `p` went
/// down for `reason`. A peer left without connections is forgotten, with
/// its waiting request.
pub open spec fn connection_closed_effect(a: TableView, b: TableView, p: PeerId, c: ConnectionId, reason: DisconnectReason, now: u64) -> bool {
    if a.peers.contains_key(p) {
        let m = lost(a, p, c, reason, now);
        let rest = without(a.peers[p].connections, c);
        served(if rest.len() == 0 {
            TableView { peers: m.peers.remove(p), pending: unqueued(a.pending, p), ..m }
        } else {
            TableView { peers: m.peers.insert(p, PeerView { connections: rest, ..m.peers[p] }), ..m }
        }, b, now)
    } else {
        b == a
    }
}

/// How the table changes from `a` to `b` on: a timer tick at `now`. Each
/// attempt past its deadline fails and is reported once.
pub open spec fn tick_effect(a: TableView, b: TableView, now: u64) -> bool {
    let fresh = b.reports.subrange(a.reports.len() as int, b.reports.len() as int);
    let m = TableView { peers: ticked(a, now), reports: b.reports, ..a };
    &&& a.reports.len() <= b.reports.len()
    &&& b.reports.subrange(0, a.reports.len() as int) == a.reports
    &&& fresh.no_duplicates()
    &&& forall|k: int| 0 <= k < fresh.len() ==> (#[trigger] fresh[k] matches PeerReport::HandshakeTimeout { peer }
        && a.peers.contains_key(peer) && timed_out(a.peers[peer], now))
    &&& forall|q: PeerId| #[trigger] a.peers.contains_key(q) && timed_out(a.peers[q], now)
        ==> fresh.contains(PeerReport::HandshakeTimeout { peer: q })
    &&& served(TableView { in_flight: opening_peers(m).len(), ..m }, b, now)
}

/// How the table changes from `a` to `b` on: a close of the pair with `p`
/// asked by the local node. Whatever its phase, the pair ends closed.
pub open spec fn local_close_effect(a: TableView, b: TableView, p: PeerId, now: u64) -> bool {
    if !a.peers.contains_key(p) {
        b == a
    } else {
        let v = a.peers[p];
        let ev = ProtocolEvent::PeerDisconnected { peer: p, reason: DisconnectReason::LocalRequest };
        match v.phase {
            PeerPhase::Open { .. } => b == TableView {
                peers: a.peers.insert(p, PeerView { open_on: seq![], phase: PeerPhase::Closed, sink: None, ..v }),
                events: a.events.push(ev),
                history: a.history.push(ev),
                commands: a.commands + close_commands(p, v.open_on),
                ..a
            },
            PeerPhase::Opening { connection, .. } => served(TableView {
                peers: a.peers.insert(p, PeerView { phase: PeerPhase::Closed, ..v }),
                in_flight: (a.in_flight - 1) as nat,
                commands: a.commands.push(HandlerCommand::CloseSubstream { peer: p, connection }),
                ..a
            }, b, now),
            PeerPhase::Closed => b == TableView { pending: unqueued(a.pending, p), ..a },
        }
    }
}

/// How the table changes from `a` to `b` on: a frame from `p` on the
/// substream of `c`.
pub open spec fn notification_received_effect(a: TableView, b: TableView, p: PeerId, c: ConnectionId, payload: Vec<u8>, now: u64, r: bool) -> bool {
    let ev = ProtocolEvent::Notification { peer: p, payload };
    &&& r == (carries_session(a, p, c) && payload@.len() <= a.settings.max_message_size)
    &&& b == if !carries_session(a, p, c) {
        a
    } else if r {
        TableView { events: a.events.push(ev), history: a.history.push(ev), ..a }
    } else {
        TableView {
            reports: a.reports.push(PeerReport::ProtocolViolation { peer: p }),
            commands: a.commands.push(HandlerCommand::CloseSubstream { peer: p, connection: c }),
            ..lost(a, p, c, DisconnectReason::TransportError, now)
        }
    }
}

/// How the table changes from `a` to `b` on: a send of `frame` toward `p`.
pub open spec fn send_effect(a: TableView, b: TableView, p: PeerId, frame: Seq<u8>, mode: SendMode, r: Result<(), SendError>) -> bool {
    &&& !(a.peers.contains_key(p) && a.peers[p].phase is Open) ==> {
        &&& r == Err::<(), SendError>(SendError::SinkClosed)
        &&& b == a
    }
    &&& a.peers.contains_key(p) && a.peers[p].phase is Open ==> {
        let v = a.peers[p];
        &&& v.sink.is_some()
        &&& r == send_step(v.sink.unwrap(), frame, mode).1
        &&& b == (TableView {
            peers: a.peers.insert(p, PeerView { sink: Some(send_step(v.sink.unwrap(), frame, mode).0), ..v }),
            ..a
        })
    }
}

/// How the table changes from `a` to `b` on: the handler took the oldest frame queued toward `p`.
pub open spec fn drain_effect(a: TableView, b: TableView, p: PeerId, r: Option<Vec<u8>>) -> bool {
    &&& !(a.peers.contains_key(p) && a.peers[p].phase is Open) ==> {
        &&& r.is_none()
        &&& b == a
    }
    &&& a.peers.contains_key(p) && a.peers[p].phase is Open ==> {
        let v = a.peers[p];
        let (after, out) = drain_step(v.sink.unwrap());
        &&& r.is_some() == out.is_some()
        &&& r.is_some() ==> r.unwrap()@ == out.unwrap()
        &&& b == (TableView {
            peers: a.peers.insert(p, PeerView { sink: Some(after), ..v }),
            ..a
        })
    }
}

/// Withdrawing the request of `p` keeps every other waiting request, and
/// changes nothing where `p` has none.
pub proof fn lemma_unqueued(s: Seq<PeerId>, p: PeerId)
    ensures
        forall|q: PeerId| #[trigger] unqueued(s, p).contains(q) <==> (s.contains(q) && q != p),
        s.no_duplicates() ==> unqueued(s, p).no_duplicates(),
        !s.contains(p) ==> unqueued(s, p) == s,
        s.len() == 0 ==> unqueued(s, p).len() == 0,
    decreases s.len(),
{
    reveal(Seq::filter);
    if s.len() > 0 {
        let dl = s.drop_last();
        let x = s.last();
        lemma_unqueued(dl, p);
        assert(s =~= dl.push(x));
        let u = unqueued(dl, p);
        assert forall|q: PeerId| #[trigger] unqueued(s, p).contains(q) <==> (s.contains(q) && q != p) by {
            if s.contains(q) && q != p {
                let j = choose|j: int| 0 <= j < s.len() && s[j] == q;
                if j < dl.len() {
                    assert(dl[j] == q);
                } else {
                    assert(other_than(p)(x));
                    assert(unqueued(s, p) == u.push(x));
                    assert(unqueued(s, p)[u.len() as int] == q);
                }
            }
            if unqueued(s, p).contains(q) {
                if q == x {
                    assert(s[s.len() - 1] == q);
                } else {
                    if x != p {
                        assert(other_than(p)(x));
                        let j = choose|j: int| 0 <= j < unqueued(s, p).len() && unqueued(s, p)[j] == q;
                        assert(unqueued(s, p) == u.push(x));
                        assert(u[j] == q);
                    }
                    assert(u.contains(q));
                    let j = choose|j: int| 0 <= j < dl.len() && dl[j] == q;
                    assert(s[j] == q);
                }
            }
        }
        if s.no_duplicates() {
            assert(dl.no_duplicates()) by {
                assert forall|i: int, j: int| 0 <= i < dl.len() && 0 <= j < dl.len() && i != j implies dl[i] != dl[j] by {
                    assert(dl[i] == s[i] && dl[j] == s[j]);
                }
            }
            if x != p {
                assert(!u.contains(x)) by {
                    if u.contains(x) {
                        let j = choose|j: int| 0 <= j < dl.len() && dl[j] == x;
                        assert(s[j] == s[s.len() - 1]);
                    }
                }
                let w = u.push(x);
                assert(unqueued(s, p) == w);
                assert forall|i: int, j: int| 0 <= i < w.len() && 0 <= j < w.len() && i != j implies w[i] != w[j] by {
                    if i == u.len() {
                        assert(u.contains(w[j]));
                    } else if j == u.len() {
                        assert(u.contains(w[i]));
                    }
                }
            }
        }
        if !s.contains(p) {
            assert(!dl.contains(p)) by {
                if dl.contains(p) {
                    let j = choose|j: int| 0 <= j < dl.len() && dl[j] == p;
                    assert(s[j] == p);
                }
            }
            assert(x != p);
            assert(other_than(p)(x));
            assert(unqueued(s, p) == u.push(x));
        }
    }
}

proof fn lemma_queue_insert(m: Map<PeerId, PeerView>, pending: Seq<PeerId>, p: PeerId, v: PeerView)
    requires
        queue_ok(m, pending),
        pending.contains(p) ==> v.phase == PeerPhase::Closed,
    ensures
        queue_ok(m.insert(p, v), pending),
{
    assert forall|j: int| 0 <= j < pending.len() implies m.insert(p, v).contains_key(#[trigger] pending[j])
        && m.insert(p, v)[pending[j]].phase == PeerPhase::Closed by {
        if pending[j] == p {
            assert(pending.contains(p));
        }
    }
}

proof fn lemma_queue_unqueue(m: Map<PeerId, PeerView>, pending: Seq<PeerId>, p: PeerId)
    requires
        queue_ok(m, pending),
    ensures
        queue_ok(m, unqueued(pending, p)),
        queue_ok(m.remove(p), unqueued(pending, p)),
{
    lemma_unqueued(pending, p);
    let u = unqueued(pending, p);
    assert forall|j: int| 0 <= j < u.len() implies m.remove(p).contains_key(#[trigger] u[j])
        && m.remove(p)[u[j]].phase == PeerPhase::Closed && m.contains_key(u[j]) && m[u[j]].phase == PeerPhase::Closed by {
        assert(u.contains(u[j]));
        let i = choose|i: int| 0 <= i < pending.len() && pending[i] == u[j];
    }
}

proof fn lemma_queue_not_closed(m: Map<PeerId, PeerView>, pending: Seq<PeerId>, p: PeerId)
    requires
        queue_ok(m, pending),
        m.contains_key(p),
        m[p].phase != PeerPhase::Closed,
    ensures
        !pending.contains(p),
{
    if pending.contains(p) {
        let j = choose|j: int| 0 <= j < pending.len() && pending[j] == p;
    }
}

proof fn lemma_append_push<A>(a: Seq<A>, b: Seq<A>, x: A)
    ensures
        (a + b).push(x) == a + b.push(x),
{
    assert((a + b).push(x) =~= a + b.push(x));
}

impl ProtocolTable {
    spec fn wf_core(&self) -> bool {
        &&& unique_peers(self.peers@)
        &&& self.in_flight == opening_count(self.peers@)
        &&& self.in_flight <= self.settings.open_slots
        &&& self.settings.sink_capacity > 0
        &&& well_ordered(self.history@)
        &&& entries_ok(self.peers@, self.settings, self.history@)
        &&& queue_ok(peer_map(self.peers@), self.pending@)
        &&& self.history@ == self.taken@ + self.events@
    }

    pub closed spec fn wf(&self) -> bool {
        self.wf_core() && serving_done(self@)
    }

    /// A table for a protocol with no connected peer.
    pub fn new(local: PeerId, settings: ProtocolSettings) -> (r: ProtocolTable)
        requires
            settings.sink_capacity > 0,
        ensures
            r.wf(),
            r@.local == local,
            r@.settings == settings,
            r@.peers == Map::<PeerId, PeerView>::empty(),
            r@.pending.len() == 0,
            r@.events.len() == 0,
            r@.history.len() == 0,
            r@.taken.len() == 0,
            r@.commands.len() == 0,
            r@.reports.len() == 0,
            r@.in_flight == 0,
    {
        let r = ProtocolTable {
            local,
            settings,
            peers: Vec::new(),
            in_flight: 0,
            pending: std::collections::VecDeque::new(),
            events: std::collections::VecDeque::new(),
            history: Ghost(Seq::empty()),
            taken: Ghost(Seq::empty()),
            commands: std::collections::VecDeque::new(),
            reports: std::collections::VecDeque::new(),
        };
        proof {
            assert(r.history@ =~= r.taken@ + r.events@);
        }
        r
    }

    /// Whether all opening slots are taken. The count never exceeds the cap.
    pub fn slots_full(&self) -> (r: bool)
        requires
            self.wf(),
        ensures
            r == (self@.in_flight >= self@.settings.open_slots),
            self@.in_flight <= self@.settings.open_slots,
    {
        self.in_flight >= self.settings.open_slots
    }

    fn find(&self, p: PeerId) -> (r: Option<usize>)
        requires
            self.wf_core(),
        ensures
            match r {
                Some(i) => i < self.peers@.len() && self.peers@[i as int].peer == p
                    && self@.peers.contains_key(p)
                    && self@.peers[p] == entry_view(self.peers@[i as int]),
                None => !self@.peers.contains_key(p),
            },
    {
        let mut i: usize = 0;
        while i < self.peers.len()
            invariant
                self.wf_core(),
                i <= self.peers@.len(),
                forall|k: int| 0 <= k < i ==> self.peers@[k].peer != p,
            decreases self.peers@.len() - i,
        {
            if self.peers[i].peer == p {
                proof {
                    lemma_map_has(self.peers@, i as int);
                }
                return Some(i);
            }
            i = i + 1;
        }
        proof {
            lemma_map_lacks(self.peers@, p);
        }
        None
    }

    fn start_at(&mut self, i: usize, now: u64)
        requires
            old(self).wf_core(),
            i < old(self).peers@.len(),
            old(self).peers@[i as int].phase == PeerPhase::Closed,
            old(self).in_flight < old(self).settings.open_slots,
            !old(self)@.pending.contains(old(self).peers@[i as int].peer),
        ensures
            final(self).wf_core(),
            final(self).peers@.len() == old(self).peers@.len(),
            final(self).peers@[i as int].peer == old(self).peers@[i as int].peer,
            final(self)@ == (TableView {
                peers: old(self)@.peers.insert(
                    old(self).peers@[i as int].peer,
                    started(old(self)@.peers[old(self).peers@[i as int].peer], now, old(self).settings.handshake_timeout),
                ),
                in_flight: old(self)@.in_flight + 1,
                commands: old(self)@.commands.push(HandlerCommand::OpenSubstream {
                    peer: old(self).peers@[i as int].peer,
                    connection: old(self).peers@[i as int].connections@[0],
                }),
                ..old(self)@
            }),
    {
        let ghost s0 = self.peers@;
        proof {
            lemma_map_has(s0, i as int);
            assert(entry_ok(s0[i as int], self.settings, self.history@));
        }
        let mut e = self.peers.remove(i);
        let c = e.connections[0];
        let p = e.peer;
        let deadline: u64 = if now <= u64::MAX - self.settings.handshake_timeout {
            now + self.settings.handshake_timeout
        } else {
            u64::MAX
        };
        e.phase = PeerPhase::Opening { connection: c, deadline };
        proof {
            assert(e.connections@.contains(e.connections@[0]));
            lemma_replace_entry(s0, self.settings, self.history@, self.history@, i as int, e);
            lemma_queue_insert(peer_map(s0), self.pending@, p, entry_view(e));
        }
        self.peers.insert(i, e);
        proof {
            assert(self.peers@ =~= s0.update(i as int, e));
            assert(entry_view(e) == started(entry_view(s0[i as int]), now, self.settings.handshake_timeout));
        }
        self.in_flight = self.in_flight + 1;
        self.commands.push_back(HandlerCommand::OpenSubstream { peer: p, connection: c });
    }

    /// Start the oldest waiting requests while slots are free. Every waiting
    /// request is for a closed peer, so each one served starts an attempt.
    fn start_pending(&mut self, now: u64)
        requires
            old(self).wf_core(),
        ensures
            final(self).wf(),
            served(old(self)@, final(self)@, now),
    {
        let ghost start = self@;
        let ghost mut k: int = 0;
        proof {
            assert(start.pending.subrange(0, start.pending.len() as int) =~= start.pending);
            assert(start.pending.subrange(0, 0) =~= Seq::<PeerId>::empty());
            assert(open_commands(start, Seq::<PeerId>::empty()) =~= Seq::<HandlerCommand>::empty());
            assert(start.commands + Seq::<HandlerCommand>::empty() =~= start.commands);
            assert(self@.peers.dom() =~= start.peers.dom());
        }
        while self.in_flight < self.settings.open_slots && self.pending.len() > 0
            invariant
                self.wf_core(),
                0 <= k <= start.pending.len(),
                self@.local == start.local,
                self@.settings == start.settings,
                self@.peers.dom() == start.peers.dom(),
                forall|q: PeerId| #[trigger] start.peers.contains_key(q) ==> self@.peers[q] == if start.pending.subrange(0, k).contains(q) {
                    started(start.peers[q], now, start.settings.handshake_timeout)
                } else {
                    start.peers[q]
                },
                self@.in_flight == start.in_flight + k,
                self@.pending == start.pending.subrange(k, start.pending.len() as int),
                self@.commands == start.commands + open_commands(start, start.pending.subrange(0, k)),
                self@.events == start.events,
                self@.history == start.history,
                self@.taken == start.taken,
                self@.reports == start.reports,
            decreases self.pending@.len(),
        {
            let ghost before = self@;
            let p = self.pending.pop_front().unwrap();
            proof {
                assert(p == start.pending[k]);
                assert(before.pending[0] == p);
                assert(self@.pending =~= start.pending.subrange(k + 1, start.pending.len() as int));
                assert(self@.pending =~= before.pending.drop_first());
                assert(!self@.pending.contains(p)) by {
                    if self@.pending.contains(p) {
                        let j = choose|j: int| 0 <= j < self@.pending.len() && self@.pending[j] == p;
                        assert(before.pending[j + 1] == before.pending[0]);
                    }
                }
                assert(queue_ok(self@.peers, self@.pending)) by {
                    assert forall|j: int| 0 <= j < self@.pending.len() implies self@.peers.contains_key(#[trigger] self@.pending[j])
                        && self@.peers[self@.pending[j]].phase == PeerPhase::Closed by {
                        assert(self@.pending[j] == before.pending[j + 1]);
                    }
                    assert forall|i: int, j: int| 0 <= i < self@.pending.len() && 0 <= j < self@.pending.len() && i != j
                        implies self@.pending[i] != self@.pending[j] by {
                        assert(self@.pending[i] == before.pending[i + 1] && self@.pending[j] == before.pending[j + 1]);
                    }
                }
                assert(before.peers.contains_key(p) && before.peers[p].phase == PeerPhase::Closed);
                assert(!start.pending.subrange(0, k).contains(p)) by {
                    if start.pending.subrange(0, k).contains(p) {
                        let j = choose|j: int| 0 <= j < k && start.pending.subrange(0, k)[j] == p;
                        assert(start.pending[j] == start.pending[k]);
                    }
                }
                assert(before.peers[p] == start.peers[p]);
            }
            match self.find(p) {
                Some(i) => {
                    let ghost mid_peers = self.peers@;
                    self.start_at(i, now);
                    proof {
                        let head = start.pending.subrange(0, k);
                        let head1 = start.pending.subrange(0, k + 1);
                        assert(head1 =~= head.push(p));
                        assert forall|q: PeerId| #[trigger] head1.contains(q) <==> (head.contains(q) || q == p) by {
                            if head1.contains(q) && q != p {
                                let j = choose|j: int| 0 <= j < head1.len() && head1[j] == q;
                                assert(head[j] == q);
                            }
                            if head.contains(q) {
                                let j = choose|j: int| 0 <= j < head.len() && head[j] == q;
                                assert(head1[j] == q);
                            }
                            if q == p {
                                assert(head1[k] == p);
                            }
                        }
                        assert(open_commands(start, head1) =~= open_commands(start, head).push(HandlerCommand::OpenSubstream {
                            peer: p,
                            connection: start.peers[p].connections[0],
                        }));
                        lemma_append_push(start.commands, open_commands(start, head), HandlerCommand::OpenSubstream {
                            peer: p,
                            connection: start.peers[p].connections[0],
                        });
                        assert(entry_view(mid_peers[i as int]).connections[0] == mid_peers[i as int].connections@[0]);
                        assert(self@.peers.dom() =~= start.peers.dom());
                        k = k + 1;
                    }
                },
                None => {},
            }
        }
        proof {
            assert(k == serve_count(start));
        }
    }

    /// Take `p`'s request out of the queue of waiting requests.
    fn unqueue(&mut self, p: PeerId)
        requires
            old(self).wf_core(),
        ensures
            final(self).wf_core(),
            final(self).peers@ == old(self).peers@,
            final(self)@ == (TableView { pending: unqueued(old(self)@.pending, p), ..old(self)@ }),
    {
        let ghost old_pending = self.pending@;
        let mut kept: std::collections::VecDeque<PeerId> = std::collections::VecDeque::new();
        let mut i: usize = 0;
        while i < self.pending.len()
            invariant
                i <= self.pending@.len(),
                self.pending@ == old_pending,
                kept@ == unqueued(old_pending.subrange(0, i as int), p),
            decreases self.pending@.len() - i,
        {
            let q = self.pending[i];
            proof {
                assert(old_pending.subrange(0, i + 1).drop_last() =~= old_pending.subrange(0, i as int));
                assert(old_pending.subrange(0, i + 1).last() == q);
                assert(other_than(p)(q) == (q != p));
                reveal(Seq::filter);
            }
            if q != p {
                kept.push_back(q);
            }
            i = i + 1;
        }
        proof {
            assert(old_pending.subrange(0, old_pending.len() as int) =~= old_pending);
            lemma_queue_unqueue(peer_map(self.peers@), old_pending, p);
        }
        self.pending = kept;
    }

    fn pending_contains(&self, p: PeerId) -> (r: bool)
        ensures
            r == self@.pending.contains(p),
    {
        let mut i: usize = 0;
        while i < self.pending.len()
            invariant
                i <= self.pending@.len(),
                forall|k: int| 0 <= k < i ==> self.pending@[k] != p,
            decreases self.pending@.len() - i,
        {
            if self.pending[i] == p {
                return true;
            }
            i = i + 1;
        }
        false
    }

    /// Ask for a session with `p`. Starts an outbound attempt when a slot is
    /// free, else queues the request behind the earlier ones, once.
    pub fn request_open(&mut self, p: PeerId, now: u64) -> (r: OpenRequest)
        requires
            old(self).wf(),
        ensures
            final(self).wf(),
            request_open_effect(old(self)@, final(self)@, p, now, r),
    {
        match self.find(p) {
            None => OpenRequest::Unavailable,
            Some(i) => {
                match self.peers[i].phase {
                    PeerPhase::Closed => {
                        if now < self.peers[i].retry_at {
                            OpenRequest::BackingOff { until: self.peers[i].retry_at }
                        } else if self.in_flight >= self.settings.open_slots {
                            if !self.pending_contains(p) {
                                let ghost before = self@;
                                self.pending.push_back(p);
                                proof {
                                    assert(queue_ok(self@.peers, self@.pending)) by {
                                        assert forall|j: int| 0 <= j < self@.pending.len() implies self@.peers.contains_key(#[trigger] self@.pending[j])
                                            && self@.peers[self@.pending[j]].phase == PeerPhase::Closed by {
                                            if j < before.pending.len() {
                                                assert(self@.pending[j] == before.pending[j]);
                                            }
                                        }
                                        assert forall|a: int, b: int| 0 <= a < self@.pending.len() && 0 <= b < self@.pending.len() && a != b
                                            implies self@.pending[a] != self@.pending[b] by {
                                            if a == before.pending.len() as int {
                                                assert(before.pending.contains(self@.pending[b]) || b == a);
                                            } else if b == before.pending.len() as int {
                                                assert(before.pending.contains(self@.pending[a]));
                                            }
                                        }
                                    }
                                }
                            }
                            OpenRequest::Queued
                        } else {
                            proof {
                                assert(self@.pending.len() == 0);
                            }
                            self.start_at(i, now);
                            OpenRequest::Started
                        }
                    },
                    _ => OpenRequest::AlreadyActive,
                }
            },
        }
    }

    /// Open the session of entry `i` on connection `c`, and tell the consumer.
    fn open_at(&mut self, i: usize, c: ConnectionId, direction: Direction, handshake: Vec<u8>)
        requires
            old(self).wf_core(),
            i < old(self).peers@.len(),
            !(old(self).peers@[i as int].phase is Open),
            old(self).peers@[i as int].connections@.contains(c),
            !old(self)@.pending.contains(old(self).peers@[i as int].peer),
        ensures
            final(self).wf_core(),
            final(self)@ == (TableView {
                peers: old(self)@.peers.insert(
                    old(self).peers@[i as int].peer,
                    opened(old(self)@.peers[old(self).peers@[i as int].peer], direction, c, old(self).settings.sink_capacity),
                ),
                in_flight: if old(self).peers@[i as int].phase is Opening {
                    (old(self)@.in_flight - 1) as nat
                } else {
                    old(self)@.in_flight
                },
                events: old(self)@.events.push(ProtocolEvent::PeerConnected {
                    peer: old(self).peers@[i as int].peer,
                    handshake,
                    direction,
                }),
                history: old(self)@.history.push(ProtocolEvent::PeerConnected {
                    peer: old(self).peers@[i as int].peer,
                    handshake,
                    direction,
                }),
                ..old(self)@
            }),
    {
        let ghost s0 = self.peers@;
        let ghost h0 = self.history@;
        proof {
            lemma_map_has(s0, i as int);
            assert(entry_ok(s0[i as int], self.settings, h0));
        }
        let mut e = self.peers.remove(i);
        let p = e.peer;
        let was_opening = matches!(e.phase, PeerPhase::Opening { .. });
        let mut on: Vec<ConnectionId> = Vec::new();
        on.push(c);
        e.open_on = on;
        e.phase = PeerPhase::Open { direction, primary: c };
        e.failures = 0;
        e.sink = Some(NotificationsSink::new(self.settings.sink_capacity));
        let ev = ProtocolEvent::PeerConnected { peer: p, handshake, direction };
        proof {
            lemma_push_event(h0, ev);
            let h1 = h0.push(ev);
            assert(e.connections@.contains(e.open_on@[0]));
            lemma_replace_entry(s0, self.settings, h0, h1, i as int, e);
            lemma_queue_insert(peer_map(s0), self.pending@, p, entry_view(e));
            lemma_append_push(self.taken@, self.events@, ev);
        }
        self.peers.insert(i, e);
        self.history = Ghost(self.history@.push(ev));
        self.events.push_back(ev);
        if was_opening {
            self.in_flight = self.in_flight - 1;
        }
        proof {
            assert(self.peers@ =~= s0.update(i as int, e));
            assert(entry_view(e).sink == Some(SinkView { queued: seq![], capacity: self.settings.sink_capacity as nat, closed: false }));
            assert(entry_view(e) =~= opened(entry_view(s0[i as int]), direction, c, self.settings.sink_capacity));
        }
    }

    /// A physical connection to `p` came up. A peer seen for the first time
    /// gets a closed record; with automatic opening, an open is requested.
    pub fn connection_established(&mut self, p: PeerId, c: ConnectionId, now: u64) -> (r: Option<OpenRequest>)
        requires
            old(self).wf(),
        ensures
            final(self).wf(),
            connection_established_effect(old(self)@, final(self)@, p, c, now, r),
    {
        let ghost s0 = self.peers@;
        match self.find(p) {
            None => {
                let mut conns: Vec<ConnectionId> = Vec::new();
                conns.push(c);
                let e = PeerEntry {
                    peer: p,
                    connections: conns,
                    open_on: Vec::new(),
                    phase: PeerPhase::Closed,
                    failures: 0,
                    retry_at: 0,
                    sink: None,
                };
                proof {
                    assert(e.connections@[0] == c);
                    assert(e.connections@.contains(c));
                    lemma_push_entry(s0, self.settings, self.history@, e);
                    lemma_queue_insert(peer_map(s0), self.pending@, p, entry_view(e));
                }
                self.peers.push(e);
                proof {
                    assert(entry_view(e).connections =~= seq![c]);
                    assert(entry_view(e).open_on =~= seq![]);
                }
            },
            Some(i) => {
                if !contains_connection(&self.peers[i].connections, c) {
                    proof {
                        lemma_map_has(s0, i as int);
                        assert(entry_ok(s0[i as int], self.settings, self.history@));
                    }
                    let mut e = self.peers.remove(i);
                    e.connections.push(c);
                    proof {
                        assert(e.connections@[e.connections@.len() - 1] == c);
                        assert(e.connections@.contains(c));
                        assert forall|k: int| 0 <= k < e.open_on@.len() implies e.connections@.contains(#[trigger] e.open_on@[k]) by {
                            assert(s0[i as int].connections@.contains(e.open_on@[k]));
                            let j = choose|j: int| 0 <= j < s0[i as int].connections@.len() && s0[i as int].connections@[j] == e.open_on@[k];
                            assert(e.connections@[j] == e.open_on@[k]);
                        }
                        match e.phase {
                            PeerPhase::Opening { connection, .. } => {
                                let j = choose|j: int| 0 <= j < s0[i as int].connections@.len() && s0[i as int].connections@[j] == connection;
                                assert(e.connections@[j] == connection);
                            },
                            _ => {},
                        }
                        lemma_replace_entry(s0, self.settings, self.history@, self.history@, i as int, e);
                        lemma_queue_insert(peer_map(s0), self.pending@, p, entry_view(e));
                    }
                    self.peers.insert(i, e);
                    proof {
                        assert(self.peers@ =~= s0.update(i as int, e));
                    }
                }
            },
        }
        proof {
            assert(self@.peers =~= with_connection(old(self)@, p, c).peers);
            assert(self@ == with_connection(old(self)@, p, c));
        }
        if self.settings.auto_open {
            Some(self.request_open(p, now))
        } else {
            None
        }
    }

    /// The remote opened a substream on `c` and sent its handshake. The
    /// decision follows `inbound_step`; a substream on a connection that the
    /// table does not know is refused.
    pub fn inbound_open(&mut self, p: PeerId, c: ConnectionId, handshake: Vec<u8>, now: u64) -> (r: InboundDecision)
        requires
            old(self).wf(),
        ensures
            final(self).wf(),
            inbound_open_effect(old(self)@, final(self)@, p, c, handshake, now, r),
    {
        let ghost s0 = self.peers@;
        let idx = self.find(p);
        let i = match idx {
            Some(i) => i,
            None => {
                self.commands.push_back(HandlerCommand::RejectSubstream { peer: p, connection: c });
                return InboundDecision::Reject;
            },
        };
        if !contains_connection(&self.peers[i].connections, c) {
            self.commands.push_back(HandlerCommand::RejectSubstream { peer: p, connection: c });
            return InboundDecision::Reject;
        }
        proof {
            lemma_map_has(s0, i as int);
            assert(entry_ok(s0[i as int], self.settings, self.history@));
        }
        match self.peers[i].phase {
            PeerPhase::Open { .. } => {
                if !contains_connection(&self.peers[i].open_on, c) {
                    let mut e = self.peers.remove(i);
                    e.open_on.push(c);
                    proof {
                        assert forall|k: int| 0 <= k < e.open_on@.len() implies e.connections@.contains(#[trigger] e.open_on@[k]) by {
                            if k < e.open_on@.len() - 1 {
                                assert(s0[i as int].open_on@[k] == e.open_on@[k]);
                            }
                        }
                        lemma_replace_entry(s0, self.settings, self.history@, self.history@, i as int, e);
                        lemma_queue_not_closed(peer_map(s0), self.pending@, p);
                        lemma_queue_insert(peer_map(s0), self.pending@, p, entry_view(e));
                    }
                    self.peers.insert(i, e);
                    proof {
                        assert(self.peers@ =~= s0.update(i as int, e));
                    }
                } else {
                    proof {
                        let v = self@.peers[p];
                        assert(v == PeerView { open_on: v.open_on, ..v });
                        assert(self@.peers =~= self@.peers.insert(p, v));
                    }
                }
                self.commands.push_back(HandlerCommand::AcceptSubstream { peer: p, connection: c });
                InboundDecision::Accept
            },
            PeerPhase::Opening { .. } => {
                if keeps_outbound(self.local, p) {
                    self.commands.push_back(HandlerCommand::RejectSubstream { peer: p, connection: c });
                    InboundDecision::Reject
                } else {
                    proof {
                        lemma_queue_not_closed(peer_map(s0), self.pending@, p);
                    }
                    self.open_at(i, c, Direction::Inbound, handshake);
                    self.commands.push_back(HandlerCommand::AcceptSubstream { peer: p, connection: c });
                    self.start_pending(now);
                    InboundDecision::Accept
                }
            },
            PeerPhase::Closed => {
                let ghost before = self@;
                self.unqueue(p);
                proof {
                    lemma_unqueued(before.pending, p);
                    assert(self.peers@[i as int] == s0[i as int]);
                }
                self.open_at(i, c, Direction::Inbound, handshake);
                self.commands.push_back(HandlerCommand::AcceptSubstream { peer: p, connection: c });
                InboundDecision::Accept
            },
        }
    }

    /// Entry `i` fails its outbound attempt at `now`.
    fn fail_at(&mut self, i: usize, now: u64)
        requires
            old(self).wf_core(),
            i < old(self).peers@.len(),
            old(self).peers@[i as int].phase is Opening,
        ensures
            final(self).wf_core(),
            final(self).peers@.len() == old(self).peers@.len(),
            final(self).peers@[i as int].peer == old(self).peers@[i as int].peer,
            forall|k: int| 0 <= k < old(self).peers@.len() && k != i ==> final(self).peers@[k] == old(self).peers@[k],
            entry_view(final(self).peers@[i as int]) == failed(entry_view(old(self).peers@[i as int]), now, old(self).settings),
            final(self)@ == (TableView {
                peers: old(self)@.peers.insert(
                    old(self).peers@[i as int].peer,
                    failed(old(self)@.peers[old(self).peers@[i as int].peer], now, old(self).settings),
                ),
                in_flight: (old(self)@.in_flight - 1) as nat,
                ..old(self)@
            }),
    {
        let ghost s0 = self.peers@;
        proof {
            lemma_map_has(s0, i as int);
            assert(entry_ok(s0[i as int], self.settings, self.history@));
        }
        let mut e = self.peers.remove(i);
        if e.failures < u32::MAX {
            e.failures = e.failures + 1;
        }
        let delay = backoff(self.settings.backoff_base, self.settings.backoff_cap, e.failures);
        e.retry_at = if now <= u64::MAX - delay {
            now + delay
        } else {
            u64::MAX
        };
        e.phase = PeerPhase::Closed;
        proof {
            lemma_replace_entry(s0, self.settings, self.history@, self.history@, i as int, e);
            lemma_queue_insert(peer_map(s0), self.pending@, e.peer, entry_view(e));
        }
        self.peers.insert(i, e);
        self.in_flight = self.in_flight - 1;
        proof {
            assert(self.peers@ =~= s0.update(i as int, e));
            assert(entry_view(e) == failed(entry_view(s0[i as int]), now, self.settings));
        }
    }

    /// The remote accepted our substream on `c` and sent its handshake: the
    /// attempt that ran there opens the session.
    pub fn outbound_accepted(&mut self, p: PeerId, c: ConnectionId, handshake: Vec<u8>, now: u64) -> (r: bool)
        requires
            old(self).wf(),
        ensures
            final(self).wf(),
            outbound_accepted_effect(old(self)@, final(self)@, p, c, handshake, now, r),
    {
        match self.find(p) {
            None => false,
            Some(i) => {
                match self.peers[i].phase {
                    PeerPhase::Opening { connection, .. } => {
                        if connection == c {
                            proof {
                                lemma_map_has(self.peers@, i as int);
                                assert(entry_ok(self.peers@[i as int], self.settings, self.history@));
                                lemma_queue_not_closed(peer_map(self.peers@), self.pending@, p);
                            }
                            self.open_at(i, c, Direction::Outbound, handshake);
                            self.start_pending(now);
                            true
                        } else {
                            false
                        }
                    },
                    _ => false,
                }
            },
        }
    }

    /// The remote refused our substream on `c`: the attempt that ran there
    /// fails, and the refusal is reported.
    pub fn outbound_refused(&mut self, p: PeerId, c: ConnectionId, now: u64) -> (r: bool)
        requires
            old(self).wf(),
        ensures
            final(self).wf(),
            outbound_refused_effect(old(self)@, final(self)@, p, c, now, r),
    {
        match self.find(p) {
            None => false,
            Some(i) => {
                match self.peers[i].phase {
                    PeerPhase::Opening { connection, .. } => {
                        if connection == c {
                            self.fail_at(i, now);
                            self.reports.push_back(PeerReport::HandshakeRejected { peer: p });
                            self.start_pending(now);
                            true
                        } else {
                            false
                        }
                    },
                    _ => false,
                }
            },
        }
    }

    /// The substream on `c` of the open session of entry `i` went away.
    fn lose_substream_at(&mut self, i: usize, c: ConnectionId, reason: DisconnectReason, now: u64)
        requires
            old(self).wf_core(),
            i < old(self).peers@.len(),
            old(self).peers@[i as int].phase is Open,
            old(self).peers@[i as int].open_on@.contains(c),
        ensures
            final(self).wf_core(),
            final(self).peers@.len() == old(self).peers@.len(),
            final(self).peers@[i as int].peer == old(self).peers@[i as int].peer,
            final(self).peers@[i as int].connections@ == old(self).peers@[i as int].connections@,
            !final(self).peers@[i as int].open_on@.contains(c),
            !(final(self).peers@[i as int].phase is Opening),
            forall|k: int| 0 <= k < old(self).peers@.len() && k != i ==> final(self).peers@[k] == old(self).peers@[k],
            final(self)@ == lost(old(self)@, old(self).peers@[i as int].peer, c, reason, now),
    {
        let ghost s0 = self.peers@;
        let ghost h0 = self.history@;
        proof {
            lemma_map_has(s0, i as int);
            assert(entry_ok(s0[i as int], self.settings, h0));
        }
        let mut e = self.peers.remove(i);
        let p = e.peer;
        let direction = match e.phase {
            PeerPhase::Open { direction, .. } => direction,
            _ => Direction::Inbound,
        };
        let rest = remove_connection(&e.open_on, c);
        proof {
            lemma_without(e.open_on@, c);
            assert forall|k: int| 0 <= k < rest@.len() implies e.connections@.contains(#[trigger] rest@[k]) by {
                assert(rest@.contains(rest@[k]));
                let j = choose|j: int| 0 <= j < e.open_on@.len() && e.open_on@[j] == rest@[k];
                assert(e.connections@.contains(e.open_on@[j]));
            }
            lemma_queue_not_closed(peer_map(s0), self.pending@, p);
        }
        if rest.len() > 0 {
            let first = rest[0];
            e.open_on = rest;
            e.phase = PeerPhase::Open { direction, primary: first };
            proof {
                lemma_replace_entry(s0, self.settings, h0, h0, i as int, e);
                lemma_queue_insert(peer_map(s0), self.pending@, p, entry_view(e));
            }
            self.peers.insert(i, e);
            proof {
                assert(self.peers@ =~= s0.update(i as int, e));
                assert(entry_view(e) == after_loss(entry_view(s0[i as int]), c, now, self.settings));
            }
        } else {
            e.open_on = rest;
            e.phase = PeerPhase::Closed;
            e.sink = None;
            let ev = ProtocolEvent::PeerDisconnected { peer: p, reason };
            proof {
                lemma_push_event(h0, ev);
                lemma_replace_entry(s0, self.settings, h0, h0.push(ev), i as int, e);
                lemma_queue_insert(peer_map(s0), self.pending@, p, entry_view(e));
                lemma_append_push(self.taken@, self.events@, ev);
            }
            self.peers.insert(i, e);
            self.history = Ghost(self.history@.push(ev));
            self.events.push_back(ev);
            proof {
                assert(self.peers@ =~= s0.update(i as int, e));
                assert(e.open_on@ =~= seq![]);
                assert(entry_view(e) == after_loss(entry_view(s0[i as int]), c, now, self.settings));
            }
        }
    }

    /// Apply the loss of the substream on `c` to entry `i`, without starting
    /// waiting requests.
    fn apply_loss_at(&mut self, i: usize, c: ConnectionId, reason: DisconnectReason, now: u64)
        requires
            old(self).wf_core(),
            i < old(self).peers@.len(),
        ensures
            final(self).wf_core(),
            final(self).peers@.len() == old(self).peers@.len(),
            final(self).peers@[i as int].peer == old(self).peers@[i as int].peer,
            final(self).peers@[i as int].connections@ == old(self).peers@[i as int].connections@,
            !final(self).peers@[i as int].open_on@.contains(c),
            final(self).peers@[i as int].phase matches PeerPhase::Opening { connection, .. } ==> connection != c,
            forall|k: int| 0 <= k < old(self).peers@.len() && k != i ==> final(self).peers@[k] == old(self).peers@[k],
            final(self)@ == lost(old(self)@, old(self).peers@[i as int].peer, c, reason, now),
    {
        let ghost s0 = self.peers@;
        let ghost a = self@;
        proof {
            lemma_map_has(s0, i as int);
            assert(entry_ok(s0[i as int], self.settings, self.history@));
        }
        match self.peers[i].phase {
            PeerPhase::Open { .. } => {
                if contains_connection(&self.peers[i].open_on, c) {
                    self.lose_substream_at(i, c, reason, now);
                } else {
                    proof {
                        assert(self@.peers =~= self@.peers.insert(s0[i as int].peer, entry_view(s0[i as int])));
                    }
                }
            },
            PeerPhase::Opening { connection, .. } => {
                if connection == c {
                    self.fail_at(i, now);
                } else {
                    proof {
                        assert(self@.peers =~= self@.peers.insert(s0[i as int].peer, entry_view(s0[i as int])));
                    }
                }
            },
            _ => {
                proof {
                    assert(self@.peers =~= self@.peers.insert(s0[i as int].peer, entry_view(s0[i as int])));
                }
            },
        }
    }

    /// The substream with `p` on connection `c` closed: the session moves to
    /// another open substream if there is one, else it ends with `reason`.
    /// An attempt that ran on `c` fails. Freed slots go to waiting requests.
    pub fn substream_closed(&mut self, p: PeerId, c: ConnectionId, reason: DisconnectReason, now: u64)
        requires
            old(self).wf(),
        ensures
            final(self).wf(),
            substream_closed_effect(old(self)@, final(self)@, p, c, reason, now),
    {
        match self.find(p) {
            None => {},
            Some(i) => {
                self.apply_loss_at(i, c, reason, now);
                self.start_pending(now);
            },
        }
    }

    /// The physical connection `c` to `p` went down. Its substream is lost
    /// as by `substream_closed`; a peer left without connections is removed,
    /// with its waiting request.
    pub fn connection_closed(&mut self, p: PeerId, c: ConnectionId, reason: DisconnectReason, now: u64)
        requires
            old(self).wf(),
        ensures
            final(self).wf(),
            connection_closed_effect(old(self)@, final(self)@, p, c, reason, now),
    {
        match self.find(p) {
            None => {},
            Some(i) => {
                let ghost a = self@;
                self.apply_loss_at(i, c, reason, now);
                let ghost m = self@;
                let ghost s1 = self.peers@;
                proof {
                    lemma_map_has(s1, i as int);
                    assert(entry_ok(s1[i as int], self.settings, self.history@));
                }
                let rest = remove_connection(&self.peers[i].connections, c);
                proof {
                    lemma_without(s1[i as int].connections@, c);
                    assert forall|k: int| 0 <= k < s1[i as int].open_on@.len() implies rest@.contains(#[trigger] s1[i as int].open_on@[k]) by {
                        assert(s1[i as int].open_on@.contains(s1[i as int].open_on@[k]));
                    }
                    match s1[i as int].phase {
                        PeerPhase::Opening { connection, .. } => {
                            assert(rest@.contains(connection));
                        },
                        _ => {},
                    }
                }
                if rest.len() == 0 {
                    self.unqueue(p);
                    let ghost s2 = self.peers@;
                    proof {
                        if s1[i as int].open_on@.len() > 0 {
                            assert(rest@.contains(s1[i as int].open_on@[0]));
                        }
                        lemma_remove_entry(s2, self.settings, self.history@, i as int);
                        lemma_queue_unqueue(peer_map(s1), m.pending, p);
                    }
                    let _gone = self.peers.remove(i);
                    proof {
                        assert(self.peers@ =~= s2.remove(i as int));
                        assert(self@ == (TableView { peers: m.peers.remove(p), pending: unqueued(a.pending, p), ..m }));
                    }
                } else {
                    let mut e = self.peers.remove(i);
                    e.connections = rest;
                    proof {
                        lemma_replace_entry(s1, self.settings, self.history@, self.history@, i as int, e);
                        lemma_queue_insert(peer_map(s1), self.pending@, p, entry_view(e));
                    }
                    self.peers.insert(i, e);
                    proof {
                        assert(self.peers@ =~= s1.update(i as int, e));
                        assert(entry_view(e) == PeerView { connections: rest@, ..m.peers[p] });
                    }
                }
                self.start_pending(now);
            },
        }
    }

    /// Fail every outbound attempt whose deadline has come, report each one
    /// once as a handshake timeout, then give freed slots to waiting requests.
    pub fn tick(&mut self, now: u64)
        requires
            old(self).wf(),
        ensures
            final(self).wf(),
            tick_effect(old(self)@, final(self)@, now),
    {
        let ghost s0 = self.peers@;
        let ghost r0 = self.reports@;
        let ghost a = self@;
        let ghost mut idx: Seq<int> = Seq::empty();
        let mut i: usize = 0;
        proof {
            assert(self@.reports.subrange(0, r0.len() as int) =~= r0);
        }
        while i < self.peers.len()
            invariant
                self.wf_core(),
                self@.local == a.local,
                self@.settings == a.settings,
                self@.pending == a.pending,
                unique_peers(s0),
                a.peers == peer_map(s0),
                self.peers@.len() == s0.len(),
                i <= s0.len(),
                forall|k: int| 0 <= k < s0.len() ==> #[trigger] self.peers@[k].peer == s0[k].peer,
                forall|k: int| 0 <= k < i ==> entry_view(#[trigger] self.peers@[k]) == after_tick(entry_view(s0[k]), now, a.settings),
                forall|k: int| i <= k < s0.len() ==> #[trigger] self.peers@[k] == s0[k],
                self@.history == a.history,
                self@.events == a.events,
                self@.taken == a.taken,
                self@.commands == a.commands,
                self@.reports.len() == r0.len() + idx.len(),
                self@.reports.subrange(0, r0.len() as int) == r0,
                forall|m: int| 0 <= m < idx.len() ==> 0 <= #[trigger] idx[m] < i && timed_out(entry_view(s0[idx[m]]), now)
                    && self@.reports[r0.len() + m] == (PeerReport::HandshakeTimeout { peer: s0[idx[m]].peer }),
                forall|m1: int, m2: int| 0 <= m1 < m2 < idx.len() ==> #[trigger] idx[m1] < #[trigger] idx[m2],
                forall|k: int| 0 <= k < i && timed_out(entry_view(#[trigger] s0[k]), now) ==> exists|m: int| 0 <= m < idx.len() && idx[m] == k,
            decreases s0.len() - i,
        {
            let due = match self.peers[i].phase {
                PeerPhase::Opening { deadline, .. } => deadline <= now,
                _ => false,
            };
            let ghost before = self@;
            if due {
                let p = self.peers[i].peer;
                proof {
                    lemma_map_has(s0, i as int);
                    assert(self.peers@[i as int] == s0[i as int]);
                }
                self.fail_at(i, now);
                self.reports.push_back(PeerReport::HandshakeTimeout { peer: p });
                proof {
                    assert(self@.reports.subrange(0, r0.len() as int) =~= before.reports.subrange(0, r0.len() as int));
                    let ghost idx0 = idx;
                    assert forall|k: int| 0 <= k < i && timed_out(entry_view(#[trigger] s0[k]), now) implies exists|m: int| 0 <= m < idx0.len() && idx0[m] == k by {
                    }
                    idx = idx.push(i as int);
                    assert forall|m: int| 0 <= m < idx.len() implies 0 <= #[trigger] idx[m] < i + 1 && timed_out(entry_view(s0[idx[m]]), now)
                        && self@.reports[r0.len() + m] == (PeerReport::HandshakeTimeout { peer: s0[idx[m]].peer }) by {
                        if m < idx.len() - 1 {
                            assert(self@.reports[r0.len() + m] == before.reports[r0.len() + m]);
                        }
                    }
                    assert forall|k: int| 0 <= k < i + 1 && timed_out(entry_view(#[trigger] s0[k]), now) implies exists|m: int| 0 <= m < idx.len() && idx[m] == k by {
                        if k == i {
                            assert(idx[idx.len() - 1] == k);
                        } else {
                            let m = choose|m: int| 0 <= m < idx0.len() && idx0[m] == k;
                            assert(idx[m] == k);
                        }
                    }
                }
            } else {
                proof {
                    assert(self.peers@[i as int] == s0[i as int]);
                    assert(!timed_out(entry_view(s0[i as int]), now));
                    assert(entry_view(s0[i as int]) == after_tick(entry_view(s0[i as int]), now, a.settings));
                }
            }
            i = i + 1;
        }
        let ghost fresh = self@.reports.subrange(r0.len() as int, self@.reports.len() as int);
        proof {
            assert forall|q: PeerId| #[trigger] a.peers.contains_key(q) implies self@.peers.contains_key(q)
                && self@.peers[q] == after_tick(a.peers[q], now, a.settings) by {
                lemma_map_keys(s0, q);
                let k = choose|k: int| 0 <= k < s0.len() && s0[k].peer == q;
                lemma_map_has(s0, k);
                lemma_map_has(self.peers@, k);
            }
            assert forall|q: PeerId| #[trigger] self@.peers.contains_key(q) implies a.peers.contains_key(q) by {
                lemma_map_keys(self.peers@, q);
                let k = choose|k: int| 0 <= k < s0.len() && self.peers@[k].peer == q;
                lemma_map_has(s0, k);
            }
            assert(self@.peers =~= ticked(a, now));
            lemma_opening_peers(self.peers@);
            let m = TableView { peers: ticked(a, now), reports: self@.reports, ..a };
            assert(opening_peers(m) =~= peer_map(self.peers@).dom().filter(|q: PeerId| peer_map(self.peers@)[q].phase is Opening));
            assert(self@ == (TableView { in_flight: opening_peers(m).len(), ..m }));
            assert forall|k: int| 0 <= k < fresh.len() implies (#[trigger] fresh[k] matches PeerReport::HandshakeTimeout { peer }
                && a.peers.contains_key(peer) && timed_out(a.peers[peer], now)) by {
                assert(fresh[k] == self@.reports[r0.len() + k]);
                lemma_map_has(s0, idx[k]);
            }
            assert forall|q: PeerId| #[trigger] a.peers.contains_key(q) && timed_out(a.peers[q], now)
                implies fresh.contains(PeerReport::HandshakeTimeout { peer: q }) by {
                lemma_map_keys(s0, q);
                let k = choose|k: int| 0 <= k < s0.len() && s0[k].peer == q;
                lemma_map_has(s0, k);
                let m = choose|m: int| 0 <= m < idx.len() && idx[m] == k;
                assert(fresh[m] == self@.reports[r0.len() + m]);
            }
            assert forall|x: int, y: int| 0 <= x < fresh.len() && 0 <= y < fresh.len() && x != y implies fresh[x] != fresh[y] by {
                assert(fresh[x] == self@.reports[r0.len() + x]);
                assert(fresh[y] == self@.reports[r0.len() + y]);
                if x < y {
                    assert(idx[x] < idx[y]);
                } else {
                    assert(idx[y] < idx[x]);
                }
            }
        }
        self.start_pending(now);
    }

    /// Close the pair with `p` at the local node's request, whatever its
    /// phase: an open session ends at once for the consumer, a running
    /// attempt is cancelled, a waiting request is withdrawn. The handler is
    /// told to close the substreams. Closing twice is harmless.
    pub fn local_close(&mut self, p: PeerId, now: u64)
        requires
            old(self).wf(),
        ensures
            final(self).wf(),
            local_close_effect(old(self)@, final(self)@, p, now),
    {
        let i = match self.find(p) {
            Some(i) => i,
            None => return,
        };
        let ghost s0 = self.peers@;
        let ghost h0 = self.history@;
        let ghost before = self@;
        proof {
            lemma_map_has(s0, i as int);
            assert(entry_ok(s0[i as int], self.settings, h0));
        }
        match self.peers[i].phase {
            PeerPhase::Open { .. } => {
                proof {
                    lemma_queue_not_closed(peer_map(s0), self.pending@, p);
                }
                let mut e = self.peers.remove(i);
                let mut k: usize = 0;
                while k < e.open_on.len()
                    invariant
                        k <= e.open_on@.len(),
                        self.commands@ == before.commands + close_commands(p, e.open_on@.subrange(0, k as int)),
                        self.peers@ == s0.remove(i as int),
                        self.history@ == h0,
                        self.settings == before.settings,
                        self.local == before.local,
                        self.in_flight == before.in_flight,
                        self.pending@ == before.pending,
                        self.events@ == before.events,
                        self.taken@ == before.taken,
                        self.reports@ == before.reports,
                    decreases e.open_on@.len() - k,
                {
                    let c = e.open_on[k];
                    self.commands.push_back(HandlerCommand::CloseSubstream { peer: p, connection: c });
                    k = k + 1;
                    proof {
                        assert(close_commands(p, e.open_on@.subrange(0, k as int)) =~= close_commands(p, e.open_on@.subrange(0, k - 1)).push(HandlerCommand::CloseSubstream { peer: p, connection: c }));
                    }
                }
                proof {
                    assert(e.open_on@.subrange(0, e.open_on@.len() as int) =~= e.open_on@);
                }
                let ghost on = e.open_on@;
                e.open_on = Vec::new();
                e.phase = PeerPhase::Closed;
                e.sink = None;
                let ev = ProtocolEvent::PeerDisconnected { peer: p, reason: DisconnectReason::LocalRequest };
                proof {
                    lemma_push_event(h0, ev);
                    lemma_replace_entry(s0, self.settings, h0, h0.push(ev), i as int, e);
                    lemma_queue_insert(peer_map(s0), self.pending@, p, entry_view(e));
                    lemma_append_push(self.taken@, self.events@, ev);
                }
                self.peers.insert(i, e);
                self.history = Ghost(self.history@.push(ev));
                self.events.push_back(ev);
                proof {
                    assert(self.peers@ =~= s0.update(i as int, e));
                    assert(entry_view(e) =~= PeerView { open_on: seq![], phase: PeerPhase::Closed, sink: None, ..entry_view(s0[i as int]) });
                }
            },
            PeerPhase::Opening { connection, .. } => {
                let mut e = self.peers.remove(i);
                e.phase = PeerPhase::Closed;
                proof {
                    lemma_replace_entry(s0, self.settings, h0, h0, i as int, e);
                    lemma_queue_insert(peer_map(s0), self.pending@, p, entry_view(e));
                }
                self.peers.insert(i, e);
                self.in_flight = self.in_flight - 1;
                self.commands.push_back(HandlerCommand::CloseSubstream { peer: p, connection });
                proof {
                    assert(self.peers@ =~= s0.update(i as int, e));
                }
                self.start_pending(now);
            },
            PeerPhase::Closed => {
                self.unqueue(p);
                proof {
                    lemma_unqueued(before.pending, p);
                }
            },
        }
    }

    /// A frame arrived from `p` on the substream of connection `c`. On the
    /// primary substream of an open session it becomes a notification, if it
    /// fits the size limit; a larger frame is a protocol violation: it is not
    /// delivered, it is reported, and that substream is closed. Frames
    /// elsewhere are dropped.
    pub fn notification_received(&mut self, p: PeerId, c: ConnectionId, payload: Vec<u8>, now: u64) -> (r: bool)
        requires
            old(self).wf(),
        ensures
            final(self).wf(),
            notification_received_effect(old(self)@, final(self)@, p, c, payload, now, r),
    {
        let i = match self.find(p) {
            Some(i) => i,
            None => return false,
        };
        let primary = match self.peers[i].phase {
            PeerPhase::Open { primary, .. } => primary,
            _ => return false,
        };
        if primary != c {
            return false;
        }
        proof {
            lemma_map_has(self.peers@, i as int);
            assert(entry_ok(self.peers@[i as int], self.settings, self.history@));
            assert(self.peers@[i as int].open_on@.contains(self.peers@[i as int].open_on@[0]));
        }
        if payload.len() <= self.settings.max_message_size {
            let ev = ProtocolEvent::Notification { peer: p, payload };
            proof {
                lemma_push_event(self.history@, ev);
                assert forall|k: int| 0 <= k < self.peers@.len() implies entry_ok(#[trigger] self.peers@[k], self.settings, self.history@.push(ev)) by {
                    assert(entry_ok(self.peers@[k], self.settings, self.history@));
                }
                assert forall|q: PeerId| !peer_map(self.peers@).contains_key(q) implies !is_connected(self.history@.push(ev), q) by {
                    assert(q != p);
                    assert(event_peer(ev) == p);
                    assert(!is_connected(self.history@, q));
                }
                lemma_append_push(self.taken@, self.events@, ev);
            }
            self.history = Ghost(self.history@.push(ev));
            self.events.push_back(ev);
            true
        } else {
            self.reports.push_back(PeerReport::ProtocolViolation { peer: p });
            self.commands.push_back(HandlerCommand::CloseSubstream { peer: p, connection: c });
            self.lose_substream_at(i, c, DisconnectReason::TransportError, now);
            false
        }
    }

    /// Queue `frame` toward `p`; there is no sink outside an open session.
    pub fn send(&mut self, p: PeerId, frame: &Vec<u8>, mode: SendMode) -> (r: Result<(), SendError>)
        requires
            old(self).wf(),
        ensures
            final(self).wf(),
            send_effect(old(self)@, final(self)@, p, frame@, mode, r),
    {
        let i = match self.find(p) {
            Some(i) => i,
            None => return Err(SendError::SinkClosed),
        };
        let ghost s0 = self.peers@;
        proof {
            lemma_map_has(s0, i as int);
            assert(entry_ok(s0[i as int], self.settings, self.history@));
        }
        if self.peers[i].sink.is_none() {
            return Err(SendError::SinkClosed);
        }
        proof {
            lemma_queue_not_closed(peer_map(s0), self.pending@, p);
        }
        let mut e = self.peers.remove(i);
        let mut sink = e.sink.unwrap();
        let r = sink.send(frame, mode);
        e.sink = Some(sink);
        proof {
            lemma_replace_entry(s0, self.settings, self.history@, self.history@, i as int, e);
            lemma_queue_insert(peer_map(s0), self.pending@, p, entry_view(e));
        }
        self.peers.insert(i, e);
        proof {
            assert(self.peers@ =~= s0.update(i as int, e));
        }
        r
    }

    /// The handler takes the oldest frame queued toward `p`.
    pub fn drain(&mut self, p: PeerId) -> (r: Option<Vec<u8>>)
        requires
            old(self).wf(),
        ensures
            final(self).wf(),
            drain_effect(old(self)@, final(self)@, p, r),
    {
        let i = match self.find(p) {
            Some(i) => i,
            None => return None,
        };
        let ghost s0 = self.peers@;
        proof {
            lemma_map_has(s0, i as int);
            assert(entry_ok(s0[i as int], self.settings, self.history@));
        }
        if self.peers[i].sink.is_none() {
            return None;
        }
        proof {
            lemma_queue_not_closed(peer_map(s0), self.pending@, p);
        }
        let mut e = self.peers.remove(i);
        let mut sink = e.sink.unwrap();
        let r = sink.drain();
        e.sink = Some(sink);
        proof {
            lemma_replace_entry(s0, self.settings, self.history@, self.history@, i as int, e);
            lemma_queue_insert(peer_map(s0), self.pending@, p, entry_view(e));
        }
        self.peers.insert(i, e);
        proof {
            assert(self.peers@ =~= s0.update(i as int, e));
        }
        r
    }

    /// The consumer takes the oldest event not yet taken.
    pub fn next_event(&mut self) -> (r: Option<ProtocolEvent>)
        requires
            old(self).wf(),
        ensures
            final(self).wf(),
            old(self)@.events.len() == 0 ==> r.is_none() && final(self)@ == old(self)@,
            old(self)@.events.len() > 0 ==> r == Some(old(self)@.events[0]) && final(self)@ == (TableView {
                events: old(self)@.events.drop_first(),
                taken: old(self)@.taken.push(old(self)@.events[0]),
                ..old(self)@
            }),
    {
        let r = self.events.pop_front();
        if r.is_some() {
            proof {
                let ev = r.unwrap();
                assert(self.events@ =~= old(self)@.events.drop_first());
                assert(old(self)@.taken + old(self)@.events =~= old(self)@.taken.push(ev) + self.events@);
            }
            self.taken = Ghost(self.taken@.push(r.unwrap()));
        }
        r
    }

    /// The handlers take the oldest command not yet taken.
    pub fn next_command(&mut self) -> (r: Option<HandlerCommand>)
        requires
            old(self).wf(),
        ensures
            final(self).wf(),
            old(self)@.commands.len() == 0 ==> r.is_none() && final(self)@ == old(self)@,
            old(self)@.commands.len() > 0 ==> r == Some(old(self)@.commands[0]) && final(self)@ == (TableView {
                commands: old(self)@.commands.drop_first(),
                ..old(self)@
            }),
    {
        let r = self.commands.pop_front();
        proof {
            if old(self)@.commands.len() > 0 {
                assert(self.commands@ =~= old(self)@.commands.drop_first());
            }
        }
        r
    }

    /// The reputation collaborator takes the oldest report not yet taken.
    pub fn next_report(&mut self) -> (r: Option<PeerReport>)
        requires
            old(self).wf(),
        ensures
            final(self).wf(),
            old(self)@.reports.len() == 0 ==> r.is_none() && final(self)@ == old(self)@,
            old(self)@.reports.len() > 0 ==> r == Some(old(self)@.reports[0]) && final(self)@ == (TableView {
                reports: old(self)@.reports.drop_first(),
                ..old(self)@
            }),
    {
        let r = self.reports.pop_front();
        proof {
            if old(self)@.reports.len() > 0 {
                assert(self.reports@ =~= old(self)@.reports.drop_first());
            }
        }
        r
    }

    /// Phase of the pair with `p`, if `p` is connected.
    pub fn phase(&self, p: PeerId) -> (r: Option<PeerPhase>)
        requires
            self.wf(),
        ensures
            r == (if self@.peers.contains_key(p) { Some(self@.peers[p].phase) } else { None::<PeerPhase> }),
    {
        match self.find(p) {
            Some(i) => Some(self.peers[i].phase),
            None => None,
        }
    }

    /// Number of outbound attempts running now.
    pub fn in_flight(&self) -> (r: usize)
        ensures
            r == self@.in_flight,
    {
        self.in_flight
    }

    /// The events that the consumer has taken, and those still waiting for
    /// it, make up every event emitted, in order; and for each peer they come
    /// in generations, whatever the sequence of opens, closes, sends and
    /// connection changes that led here.
    pub proof fn lemma_events_in_generations(&self, p: PeerId)
        requires
            self.wf(),
        ensures
            self@.history == self@.taken + self@.events,
            well_ordered(self@.history),
            well_ordered(self@.taken),
            forall|j: int| 0 <= j < self@.taken.len() && notifies(#[trigger] self@.taken[j], p)
                ==> is_connected(self@.taken.subrange(0, j), p),
            forall|i: int, j: int| 0 <= i < j < self@.taken.len() && connects(#[trigger] self@.taken[i], p)
                && connects(#[trigger] self@.taken[j], p) ==> exists|k: int| i < k < j && disconnects(#[trigger] self@.taken[k], p),
            forall|i: int, j: int| 0 <= i < j < self@.taken.len() && disconnects(#[trigger] self@.taken[i], p)
                && (notifies(#[trigger] self@.taken[j], p) || disconnects(self@.taken[j], p))
                ==> exists|k: int| i < k < j && connects(#[trigger] self@.taken[k], p),
            forall|j: int| 0 <= j < self@.taken.len() && disconnects(#[trigger] self@.taken[j], p)
                ==> is_connected(self@.taken.subrange(0, j), p),
    {
        let h = self@.history;
        let t = self@.taken;
        lemma_prefix_well_ordered(h, t.len() as int);
        assert(h.subrange(0, t.len() as int) =~= t);
        lemma_session_generations(t, p);
    }

    /// The running outbound attempts are those of the peers in `Opening`,
    /// never more of them than the protocol's slots; while a slot is free no
    /// request waits; and each waiting request is for a closed peer, once.
    pub proof fn lemma_slots_respected(&self)
        requires
            self.wf(),
        ensures
            opening_peers(self@).finite(),
            opening_peers(self@).len() == self@.in_flight,
            self@.in_flight <= self@.settings.open_slots,
            serving_done(self@),
            queue_ok(self@.peers, self@.pending),
    {
        lemma_opening_peers(self.peers@);
        assert(opening_peers(self@) =~= peer_map(self.peers@).dom().filter(|q: PeerId| peer_map(self.peers@)[q].phase is Opening));
    }
}

} // verus!
