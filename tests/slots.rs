use notifications::peer::{ConnectionId, Direction, PeerId, PeerPhase};
use notifications::table::{HandlerCommand, OpenRequest, ProtocolSettings, ProtocolTable};

#[test]
fn opening_slots_cap_and_fifo_order() {
    let settings = ProtocolSettings {
        max_message_size: 64,
        auto_open: true,
        handshake_timeout: 1000,
        open_slots: 2,
        sink_capacity: 4,
        backoff_base: 100,
        backoff_cap: 1000,
    };
    let mut t = ProtocolTable::new(PeerId { id: 1 }, settings);
    let peers: Vec<PeerId> = (0..5u64).map(|i| PeerId { id: 10 + i }).collect();
    let conn = |i: usize| ConnectionId { id: 100 + i as u64 };
    for (i, p) in peers.iter().enumerate() {
        let r = t.connection_established(*p, conn(i), 0);
        let expected = if i < 2 { OpenRequest::Started } else { OpenRequest::Queued };
        assert_eq!(r, Some(expected));
        assert!(t.in_flight() <= 2);
    }
    assert_eq!(t.in_flight(), 2);
    assert!(t.slots_full());
    let mut started: Vec<PeerId> = Vec::new();
    while let Some(cmd) = t.next_command() {
        match cmd {
            HandlerCommand::OpenSubstream { peer, .. } => started.push(peer),
            other => panic!("unexpected {:?}", other),
        }
    }
    assert_eq!(started, vec![peers[0], peers[1]]);
    // every acceptance frees a slot for the oldest waiting request
    let mut k = 0;
    while k < started.len() {
        let p = started[k];
        let i = peers.iter().position(|q| *q == p).unwrap();
        assert!(t.outbound_accepted(p, conn(i), vec![], 10 + k as u64));
        assert!(t.in_flight() <= 2);
        while let Some(cmd) = t.next_command() {
            if let HandlerCommand::OpenSubstream { peer, .. } = cmd {
                started.push(peer);
            }
        }
        k += 1;
    }
    assert_eq!(started, peers);
    for (i, p) in peers.iter().enumerate() {
        assert_eq!(t.phase(*p), Some(PeerPhase::Open { direction: Direction::Outbound, primary: conn(i) }));
    }
    assert_eq!(t.in_flight(), 0);
    assert!(!t.slots_full());
}

#[test]
fn waiting_request_survives_and_can_be_withdrawn() {
    let settings = ProtocolSettings {
        max_message_size: 64,
        auto_open: false,
        handshake_timeout: 10,
        open_slots: 1,
        sink_capacity: 4,
        backoff_base: 100,
        backoff_cap: 1000,
    };
    let mut t = ProtocolTable::new(PeerId { id: 1 }, settings);
    let (a, b, c) = (PeerId { id: 2 }, PeerId { id: 3 }, PeerId { id: 4 });
    for (i, p) in [a, b, c].iter().enumerate() {
        t.connection_established(*p, ConnectionId { id: i as u64 }, 0);
    }
    assert_eq!(t.request_open(a, 0), OpenRequest::Started);
    assert_eq!(t.request_open(b, 0), OpenRequest::Queued);
    assert_eq!(t.request_open(b, 0), OpenRequest::Queued);
    assert_eq!(t.request_open(c, 0), OpenRequest::Queued);
    // b withdraws; a times out and its slot goes to c, the next in line
    t.local_close(b, 1);
    t.tick(10);
    assert_eq!(t.phase(a), Some(PeerPhase::Closed));
    assert_eq!(t.phase(b), Some(PeerPhase::Closed));
    assert!(matches!(t.phase(c), Some(PeerPhase::Opening { .. })));
    assert_eq!(t.in_flight(), 1);
    assert_eq!(t.next_report(), Some(notifications::table::PeerReport::HandshakeTimeout { peer: a }));
    assert_eq!(t.next_report(), None);
}
