use notifications::events::ProtocolEvent;
use notifications::frame::{decode_frame, encode_frame, FrameDecode};
use notifications::peer::{backoff, keeps_outbound, ConnectionId, DisconnectReason, Direction, InboundDecision, PeerId, PeerPhase};
use notifications::service::{Notifications, ProtocolConfig, ProtocolIdentity};
use notifications::sink::{SendError, SendMode};
use notifications::table::{HandlerCommand, OpenRequest, PeerReport, ProtocolSettings, ProtocolTable};

fn settings(max: usize, auto_open: bool, slots: usize) -> ProtocolSettings {
    ProtocolSettings {
        max_message_size: max,
        auto_open,
        handshake_timeout: 1000,
        open_slots: slots,
        sink_capacity: 16,
        backoff_base: 100,
        backoff_cap: 1000,
    }
}

fn node(local: PeerId) -> Notifications {
    let mut n = Notifications::new(local);
    let config = ProtocolConfig {
        name: "/test/1".to_string(),
        fallback_names: Vec::new(),
        handshake: vec![local.id as u8, 0xaa],
        settings: settings(1024, false, 4),
    };
    assert_eq!(n.register(config), Ok(0));
    n.start();
    n
}

#[test]
fn two_peers_exchange_notifications_then_disconnect() {
    let a = PeerId { id: 1 };
    let b = PeerId { id: 2 };
    let c = ConnectionId { id: 7 };
    let mut na = node(a);
    let mut nb = node(b);

    // A dials B; the connection is up on both sides
    na.connection_established(b, c, 0);
    nb.connection_established(a, c, 0);
    assert_eq!(na.open_peer(0, b, 0), OpenRequest::Started);
    assert_eq!(na.next_command(0), Some(HandlerCommand::OpenSubstream { peer: b, connection: c }));

    // B receives the substream under the name "/test/1" with A's handshake
    assert_eq!(nb.resolve(&"/test/1".to_string()), Some(ProtocolIdentity { protocol: 0, name: 0 }));
    let hs_a = na.handshake(0).clone();
    let hs_b = nb.handshake(0).clone();
    assert_eq!(nb.inbound_open(0, a, c, hs_a.clone(), 10), InboundDecision::Accept);
    match nb.next_event(0) {
        Some(ProtocolEvent::PeerConnected { peer, handshake, direction }) => {
            assert_eq!(peer, a);
            assert_eq!(handshake, hs_a);
            assert_eq!(direction, Direction::Inbound);
        }
        other => panic!("unexpected {:?}", other),
    }

    // B's handshake reaches A within the handshake timeout
    na.tick(0, 20);
    assert!(na.outbound_accepted(0, b, c, hs_b.clone(), 20));
    match na.next_event(0) {
        Some(ProtocolEvent::PeerConnected { peer, handshake, direction }) => {
            assert_eq!(peer, b);
            assert_eq!(handshake, hs_b);
            assert_eq!(direction, Direction::Outbound);
        }
        other => panic!("unexpected {:?}", other),
    }

    // A sends three payloads of increasing size
    let payloads = vec![vec![1u8], vec![2u8; 10], vec![3u8; 1000]];
    for p in &payloads {
        assert_eq!(na.send(0, b, p, SendMode::Blocking), Ok(()));
    }
    while let Some(frame) = na.drain(0, b) {
        let wire = encode_frame(&frame);
        match decode_frame(&wire, 1024) {
            FrameDecode::Frame { payload, consumed } => {
                assert_eq!(consumed, wire.len());
                assert!(nb.notification_received(0, a, c, payload, 30));
            }
            other => panic!("unexpected {:?}", other),
        }
    }
    for p in &payloads {
        match nb.next_event(0) {
            Some(ProtocolEvent::Notification { peer, payload }) => {
                assert_eq!(peer, a);
                assert_eq!(&payload, p);
            }
            other => panic!("unexpected {:?}", other),
        }
    }
    assert!(nb.next_event(0).is_none());

    // A force-closes the connection; B sees the remote go away
    na.connection_closed(b, c, DisconnectReason::LocalRequest, 40);
    nb.connection_closed(a, c, DisconnectReason::Remote, 40);
    match nb.next_event(0) {
        Some(ProtocolEvent::PeerDisconnected { peer, reason }) => {
            assert_eq!(peer, a);
            assert_eq!(reason, DisconnectReason::Remote);
        }
        other => panic!("unexpected {:?}", other),
    }
    assert!(!nb.notification_received(0, a, c, vec![9], 50));
    assert!(nb.next_event(0).is_none());
    assert_eq!(na.send(0, b, &vec![4], SendMode::BestEffort), Err(SendError::SinkClosed));
}

fn simultaneous_open(low: PeerId, high: PeerId, first_is_low: bool) {
    let c = ConnectionId { id: 3 };
    let (x, y) = if first_is_low { (low, high) } else { (high, low) };
    let mut tx = ProtocolTable::new(x, settings(64, false, 2));
    let mut ty = ProtocolTable::new(y, settings(64, false, 2));
    tx.connection_established(y, c, 0);
    ty.connection_established(x, c, 0);
    assert_eq!(tx.request_open(y, 0), OpenRequest::Started);
    assert_eq!(ty.request_open(x, 0), OpenRequest::Started);
    // each side receives the other's attempt
    let dx = tx.inbound_open(y, c, vec![], 5);
    let dy = ty.inbound_open(x, c, vec![], 5);
    assert_ne!(dx, dy);
    assert_eq!(dx == InboundDecision::Reject, keeps_outbound(x, y));
    // each side answers the other's attempt
    if dx == InboundDecision::Accept {
        assert!(ty.outbound_accepted(x, c, vec![], 6));
        assert!(!tx.outbound_refused(y, c, 6));
    } else {
        assert!(tx.outbound_accepted(y, c, vec![], 6));
        assert!(!ty.outbound_refused(x, c, 6));
    }
    let px = tx.phase(y).unwrap();
    let py = ty.phase(x).unwrap();
    match (px, py) {
        (PeerPhase::Open { direction: d1, .. }, PeerPhase::Open { direction: d2, .. }) => {
            assert_ne!(d1, d2);
            // the peer with the smaller identity dialled
            let low_dir = if first_is_low { d1 } else { d2 };
            assert_eq!(low_dir, Direction::Outbound);
        }
        other => panic!("unexpected {:?}", other),
    }
}

#[test]
fn simultaneous_open_converges_in_both_orders() {
    simultaneous_open(PeerId { id: 1 }, PeerId { id: 2 }, true);
    simultaneous_open(PeerId { id: 1 }, PeerId { id: 2 }, false);
    simultaneous_open(PeerId { id: 40 }, PeerId { id: u64::MAX }, true);
    simultaneous_open(PeerId { id: 0 }, PeerId { id: 9 }, false);
}

#[test]
fn backoff_doubles_up_to_cap() {
    assert_eq!(backoff(100, 1000, 0), 100);
    assert_eq!(backoff(100, 1000, 1), 100);
    assert_eq!(backoff(100, 1000, 2), 200);
    assert_eq!(backoff(100, 1000, 3), 400);
    assert_eq!(backoff(100, 1000, 4), 800);
    assert_eq!(backoff(100, 1000, 5), 1000);
    assert_eq!(backoff(100, 1000, 4_000_000_000), 1000);
    assert_eq!(backoff(5000, 1000, 1), 1000);
    assert_eq!(backoff(u64::MAX / 2 + 1, u64::MAX, 2), u64::MAX);
}

#[test]
fn handshake_timeout_fails_and_backs_off() {
    let me = PeerId { id: 1 };
    let p = PeerId { id: 2 };
    let c = ConnectionId { id: 1 };
    let mut t = ProtocolTable::new(me, settings(64, false, 1));
    t.connection_established(p, c, 0);
    assert_eq!(t.request_open(p, 0), OpenRequest::Started);
    t.tick(999);
    assert!(matches!(t.phase(p), Some(PeerPhase::Opening { .. })));
    t.tick(1000);
    assert_eq!(t.phase(p), Some(PeerPhase::Closed));
    assert_eq!(t.next_report(), Some(PeerReport::HandshakeTimeout { peer: p }));
    assert_eq!(t.in_flight(), 0);
    assert_eq!(t.request_open(p, 1050), OpenRequest::BackingOff { until: 1100 });
    assert_eq!(t.request_open(p, 1100), OpenRequest::Started);
    // a refusal doubles the delay
    assert!(t.outbound_refused(p, c, 1200));
    assert_eq!(t.next_report(), Some(PeerReport::HandshakeRejected { peer: p }));
    assert_eq!(t.request_open(p, 1399), OpenRequest::BackingOff { until: 1400 });
    assert!(t.next_event().is_none());
}

#[test]
fn local_close_is_idempotent() {
    let me = PeerId { id: 1 };
    let p = PeerId { id: 2 };
    let c = ConnectionId { id: 1 };
    let mut t = ProtocolTable::new(me, settings(64, false, 1));
    t.connection_established(p, c, 0);
    assert_eq!(t.inbound_open(p, c, vec![5], 0), InboundDecision::Accept);
    assert!(matches!(t.next_event(), Some(ProtocolEvent::PeerConnected { .. })));
    t.local_close(p, 1);
    t.local_close(p, 2);
    match t.next_event() {
        Some(ProtocolEvent::PeerDisconnected { peer, reason }) => {
            assert_eq!(peer, p);
            assert_eq!(reason, DisconnectReason::LocalRequest);
        }
        other => panic!("unexpected {:?}", other),
    }
    assert!(t.next_event().is_none());
    assert_eq!(t.phase(p), Some(PeerPhase::Closed));
    assert_eq!(t.next_command(), Some(HandlerCommand::AcceptSubstream { peer: p, connection: c }));
    assert_eq!(t.next_command(), Some(HandlerCommand::CloseSubstream { peer: p, connection: c }));
    assert_eq!(t.next_command(), None);
    assert_eq!(t.request_open(p, 3), OpenRequest::Started);
    // closing a running attempt cancels it and frees its slot
    t.local_close(p, 4);
    assert_eq!(t.phase(p), Some(PeerPhase::Closed));
    assert_eq!(t.in_flight(), 0);
    assert!(t.next_event().is_none());
    assert_eq!(t.send(p, &vec![1], SendMode::BestEffort), Err(SendError::SinkClosed));
}

#[test]
fn oversized_frame_is_a_protocol_violation() {
    let me = PeerId { id: 1 };
    let p = PeerId { id: 2 };
    let c = ConnectionId { id: 1 };
    let mut t = ProtocolTable::new(me, settings(4, false, 1));
    t.connection_established(p, c, 0);
    assert_eq!(t.inbound_open(p, c, vec![], 0), InboundDecision::Accept);
    assert!(t.notification_received(p, c, vec![1, 2, 3, 4], 1));
    assert!(!t.notification_received(p, c, vec![1, 2, 3, 4, 5], 2));
    assert_eq!(t.next_report(), Some(PeerReport::ProtocolViolation { peer: p }));
    assert!(matches!(t.next_event(), Some(ProtocolEvent::PeerConnected { .. })));
    assert!(matches!(t.next_event(), Some(ProtocolEvent::Notification { .. })));
    match t.next_event() {
        Some(ProtocolEvent::PeerDisconnected { peer, reason }) => {
            assert_eq!(peer, p);
            assert_eq!(reason, DisconnectReason::TransportError);
        }
        other => panic!("unexpected {:?}", other),
    }
    assert_eq!(t.phase(p), Some(PeerPhase::Closed));
}

#[test]
fn standby_substream_takes_over_without_disconnect() {
    let me = PeerId { id: 1 };
    let p = PeerId { id: 2 };
    let c1 = ConnectionId { id: 1 };
    let c2 = ConnectionId { id: 2 };
    let mut t = ProtocolTable::new(me, settings(64, false, 1));
    t.connection_established(p, c1, 0);
    t.connection_established(p, c2, 0);
    assert_eq!(t.inbound_open(p, c1, vec![], 0), InboundDecision::Accept);
    assert_eq!(t.inbound_open(p, c2, vec![], 0), InboundDecision::Accept);
    assert_eq!(t.send(p, &vec![1], SendMode::Blocking), Ok(()));
    t.connection_closed(p, c1, DisconnectReason::TransportError, 1);
    assert_eq!(t.phase(p), Some(PeerPhase::Open { direction: Direction::Inbound, primary: c2 }));
    assert!(t.notification_received(p, c2, vec![8], 2));
    assert!(!t.notification_received(p, c1, vec![8], 2));
    assert!(matches!(t.next_event(), Some(ProtocolEvent::PeerConnected { .. })));
    assert!(matches!(t.next_event(), Some(ProtocolEvent::Notification { .. })));
    assert!(t.next_event().is_none());
    // the queued frame survives the switch
    assert_eq!(t.drain(p), Some(vec![1]));
    // losing the last substream ends the session
    t.connection_closed(p, c2, DisconnectReason::Remote, 3);
    assert!(matches!(t.next_event(), Some(ProtocolEvent::PeerDisconnected { reason: DisconnectReason::Remote, .. })));
    assert_eq!(t.phase(p), None);
}

#[test]
fn protocols_are_independent() {
    let me = PeerId { id: 1 };
    let p = PeerId { id: 2 };
    let c = ConnectionId { id: 1 };
    let mut n = Notifications::new(me);
    for name in ["/a/1", "/b/1"] {
        let config = ProtocolConfig {
            name: name.to_string(),
            fallback_names: Vec::new(),
            handshake: Vec::new(),
            settings: settings(64, false, 1),
        };
        assert!(n.register(config).is_ok());
    }
    n.start();
    n.connection_established(p, c, 0);
    assert_eq!(n.inbound_open(0, p, c, vec![], 0), InboundDecision::Accept);
    assert_eq!(n.inbound_open(1, p, c, vec![], 0), InboundDecision::Accept);
    // protocol 0's consumer never drains; protocol 1 keeps flowing
    for i in 0..100u8 {
        assert!(n.notification_received(0, p, c, vec![i], 1));
    }
    assert!(n.notification_received(1, p, c, vec![42], 1));
    assert!(matches!(n.next_event(1), Some(ProtocolEvent::PeerConnected { .. })));
    match n.next_event(1) {
        Some(ProtocolEvent::Notification { payload, .. }) => assert_eq!(payload, vec![42]),
        other => panic!("unexpected {:?}", other),
    }
    assert!(n.next_event(1).is_none());
    assert_eq!(n.table(0).phase(p), n.table(1).phase(p));
    // closing on one protocol leaves the other open
    n.close_peer(0, p, 2);
    assert_eq!(n.table(0).phase(p), Some(PeerPhase::Closed));
    assert!(matches!(n.table(1).phase(p), Some(PeerPhase::Open { .. })));
    assert_eq!(n.send(0, p, &vec![1], SendMode::BestEffort), Err(SendError::SinkClosed));
    assert_eq!(n.send(1, p, &vec![1], SendMode::BestEffort), Ok(()));
    assert_eq!(n.drain(1, p), Some(vec![1]));
}
