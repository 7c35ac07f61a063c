use notifications::frame::encode_frame;
use notifications::gate::ReadGate;
use notifications::handler::{ReadOutcome, SubstreamReader};

#[test]
fn reader_cuts_frames_across_chunks() {
    let mut r = SubstreamReader::new(16, 8);
    let mut wire = encode_frame(&vec![1, 2, 3]);
    wire.extend(encode_frame(&vec![4; 10]));
    wire.extend(encode_frame(&Vec::new()));
    let (first, second) = wire.split_at(5);
    r.push_bytes(&first.to_vec());
    match r.next_frame() {
        ReadOutcome::Frame(p) => assert_eq!(p, vec![1, 2, 3]),
        other => panic!("unexpected {:?}", other),
    }
    assert!(matches!(r.next_frame(), ReadOutcome::NeedMore));
    r.push_bytes(&second.to_vec());
    match r.next_frame() {
        ReadOutcome::Frame(p) => assert_eq!(p, vec![4; 10]),
        other => panic!("unexpected {:?}", other),
    }
    match r.next_frame() {
        ReadOutcome::Frame(p) => assert!(p.is_empty()),
        other => panic!("unexpected {:?}", other),
    }
    assert!(matches!(r.next_frame(), ReadOutcome::NeedMore));
}

#[test]
fn reader_pauses_on_full_backlog_and_resumes() {
    let mut r = SubstreamReader::new(16, 2);
    for i in 0..3u8 {
        r.push_bytes(&encode_frame(&vec![i]));
    }
    assert!(matches!(r.next_frame(), ReadOutcome::Frame(_)));
    assert!(matches!(r.next_frame(), ReadOutcome::Frame(_)));
    assert!(matches!(r.next_frame(), ReadOutcome::Paused));
    r.frame_consumed();
    match r.next_frame() {
        ReadOutcome::Frame(p) => assert_eq!(p, vec![2]),
        other => panic!("unexpected {:?}", other),
    }
}

#[test]
fn reader_reports_oversized_frame() {
    let mut r = SubstreamReader::new(4, 2);
    r.push_bytes(&encode_frame(&vec![0; 5]));
    assert!(matches!(r.next_frame(), ReadOutcome::Violation));
    let mut m = SubstreamReader::new(4, 2);
    m.push_bytes(&vec![0x80, 0x00]);
    assert!(matches!(m.next_frame(), ReadOutcome::Violation));
}

#[test]
fn gate_counts_backlog() {
    let mut g = ReadGate::new(2);
    assert!(g.may_read());
    assert!(g.frame_read());
    assert!(g.frame_read());
    assert!(!g.may_read());
    assert!(!g.frame_read());
    g.frame_consumed();
    assert!(g.may_read());
    g.frame_consumed();
    g.frame_consumed();
    assert!(g.frame_read());
}
