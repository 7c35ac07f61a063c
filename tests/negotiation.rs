use notifications::service::{
    match_inbound, negotiate_outbound, Notifications, ProtocolConfig, ProtocolIdentity, RegisterError,
};
use notifications::peer::PeerId;
use notifications::table::ProtocolSettings;

fn settings() -> ProtocolSettings {
    ProtocolSettings {
        max_message_size: 1024,
        auto_open: false,
        handshake_timeout: 1000,
        open_slots: 4,
        sink_capacity: 8,
        backoff_base: 100,
        backoff_cap: 1000,
    }
}

fn config(name: &str, fallbacks: &[&str]) -> ProtocolConfig {
    ProtocolConfig {
        name: name.to_string(),
        fallback_names: fallbacks.iter().map(|s| s.to_string()).collect(),
        handshake: vec![1, 2, 3],
        settings: settings(),
    }
}

#[test]
fn dialer_picks_first_supported_name() {
    let c = config("/sync/3", &["/sync/2", "/sync/1"]);
    let remote = vec!["/sync/1".to_string(), "/sync/2".to_string()];
    assert_eq!(negotiate_outbound(&c, &remote), Some(1));
    let newest = vec!["/sync/3".to_string()];
    assert_eq!(negotiate_outbound(&c, &newest), Some(0));
    let none = vec!["/other/1".to_string()];
    assert_eq!(negotiate_outbound(&c, &none), None);
}

#[test]
fn listener_matches_requested_name() {
    let c = config("/sync/3", &["/sync/2"]);
    assert_eq!(match_inbound(&c, &"/sync/3".to_string()), Some(0));
    assert_eq!(match_inbound(&c, &"/sync/2".to_string()), Some(1));
    assert_eq!(match_inbound(&c, &"/sync/1".to_string()), None);
}

#[test]
fn registration_rules() {
    let mut n = Notifications::new(PeerId { id: 1 });
    assert_eq!(n.register(config("/a/1", &["/a/0"])), Ok(0));
    assert_eq!(n.register(config("/b/1", &[])), Ok(1));
    assert_eq!(n.register(config("/c/1", &["/a/0"])), Err(RegisterError::NameTaken));
    let mut bad = config("/d/1", &[]);
    bad.settings.sink_capacity = 0;
    assert_eq!(n.register(bad), Err(RegisterError::InvalidSettings));
    let mut no_slot = config("/d/1", &[]);
    no_slot.settings.open_slots = 0;
    assert_eq!(n.register(no_slot), Err(RegisterError::InvalidSettings));
    assert_eq!(n.protocol_count(), 2);
    n.start();
    assert_eq!(n.register(config("/e/1", &[])), Err(RegisterError::AlreadyActive));
    assert_eq!(n.protocol_count(), 2);
    assert_eq!(n.resolve(&"/a/0".to_string()), Some(ProtocolIdentity { protocol: 0, name: 1 }));
    assert_eq!(n.resolve(&"/b/1".to_string()), Some(ProtocolIdentity { protocol: 1, name: 0 }));
    assert_eq!(n.resolve(&"/x/1".to_string()), None);
    assert_eq!(n.handshake(1), &vec![1, 2, 3]);
}
