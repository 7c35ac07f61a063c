use notifications::events::ProtocolEvent;
use notifications::peer::{ConnectionId, DisconnectReason, PeerId};
use notifications::sink::SendMode;
use notifications::table::{ProtocolSettings, ProtocolTable};

struct Lcg(u64);

impl Lcg {
    fn next(&mut self, n: u64) -> u64 {
        self.0 = self.0.wrapping_mul(6364136223846793005).wrapping_add(1442695040888963407);
        (self.0 >> 33) % n
    }
}

#[test]
fn events_keep_their_generations_under_any_interleaving() {
    let settings = ProtocolSettings {
        max_message_size: 8,
        auto_open: false,
        handshake_timeout: 50,
        open_slots: 1,
        sink_capacity: 2,
        backoff_base: 10,
        backoff_cap: 80,
    };
    let me = PeerId { id: 5 };
    let p = PeerId { id: 3 };
    let conns = [ConnectionId { id: 1 }, ConnectionId { id: 2 }];
    let reasons = [DisconnectReason::Remote, DisconnectReason::TransportError];
    for seed in 0..20u64 {
        let mut rng = Lcg(seed);
        let mut t = ProtocolTable::new(me, settings);
        let mut now: u64 = 0;
        let mut connected = false;
        let mut generations = 0u32;
        for _ in 0..3000 {
            now += rng.next(7);
            let c = conns[rng.next(2) as usize];
            match rng.next(12) {
                0 | 1 => {
                    t.request_open(p, now);
                }
                2 => {
                    t.inbound_open(p, c, vec![1], now);
                }
                3 => {
                    t.outbound_accepted(p, c, vec![2], now);
                }
                4 => {
                    t.outbound_refused(p, c, now);
                }
                5 => t.local_close(p, now),
                6 => {
                    t.local_close(p, now);
                }
                7 => {
                    let len = rng.next(12) as usize;
                    t.notification_received(p, c, vec![7; len], now);
                }
                8 => {
                    let mode = if rng.next(2) == 0 { SendMode::Blocking } else { SendMode::BestEffort };
                    let _ = t.send(p, &vec![1, 2], mode);
                    t.drain(p);
                }
                9 => t.substream_closed(p, c, reasons[rng.next(2) as usize], now),
                10 => {
                    if rng.next(2) == 0 {
                        t.connection_closed(p, c, reasons[rng.next(2) as usize], now);
                    } else {
                        t.connection_established(p, c, now);
                    }
                }
                _ => t.tick(now),
            }
            assert!(t.in_flight() <= 1);
            while let Some(ev) = t.next_event() {
                match ev {
                    ProtocolEvent::PeerConnected { peer, .. } => {
                        assert_eq!(peer, p);
                        assert!(!connected, "two connections without a disconnection");
                        connected = true;
                        generations += 1;
                    }
                    ProtocolEvent::Notification { peer, payload } => {
                        assert_eq!(peer, p);
                        assert!(connected, "notification outside a session");
                        assert!(payload.len() <= 8);
                    }
                    ProtocolEvent::PeerDisconnected { peer, .. } => {
                        assert_eq!(peer, p);
                        assert!(connected, "disconnection without a session");
                        connected = false;
                    }
                }
            }
            while t.next_command().is_some() {}
            while t.next_report().is_some() {}
        }
        assert!(generations > 0);
    }
}
