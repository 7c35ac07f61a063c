use notifications::sink::{NotificationsSink, SendError, SendMode};

#[test]
fn blocking_sends_arrive_in_order_without_gaps() {
    let mut sink = NotificationsSink::new(4);
    let sent: Vec<Vec<u8>> = (0..25u8).map(|i| vec![i; (i as usize) + 1]).collect();
    let mut wire: Vec<Vec<u8>> = Vec::new();
    for frame in &sent {
        loop {
            match sink.send(frame, SendMode::Blocking) {
                Ok(()) => break,
                Err(SendError::WouldBlock) => {
                    // the handler makes room
                    wire.push(sink.drain().unwrap());
                }
                Err(e) => panic!("unexpected {:?}", e),
            }
        }
    }
    while let Some(f) = sink.drain() {
        wire.push(f);
    }
    assert_eq!(wire, sent);
}

#[test]
fn best_effort_on_full_queue_reports_queue_full() {
    let mut sink = NotificationsSink::new(2);
    assert_eq!(sink.send(&vec![1], SendMode::BestEffort), Ok(()));
    assert_eq!(sink.send(&vec![2], SendMode::BestEffort), Ok(()));
    for i in 0..5000u32 {
        let frame = vec![(i % 256) as u8; 3];
        assert_eq!(sink.send(&frame, SendMode::BestEffort), Err(SendError::QueueFull));
    }
    assert_eq!(sink.len(), 2);
    assert_eq!(sink.drain(), Some(vec![1]));
    assert_eq!(sink.drain(), Some(vec![2]));
    assert_eq!(sink.drain(), None);
}

#[test]
fn blocking_send_on_full_queue_must_wait() {
    let mut sink = NotificationsSink::new(1);
    assert_eq!(sink.send(&vec![7], SendMode::Blocking), Ok(()));
    assert_eq!(sink.send(&vec![8], SendMode::Blocking), Err(SendError::WouldBlock));
    assert_eq!(sink.drain(), Some(vec![7]));
    assert_eq!(sink.send(&vec![8], SendMode::Blocking), Ok(()));
    assert_eq!(sink.drain(), Some(vec![8]));
}

#[test]
fn closed_sink_refuses_ten_thousand_sends() {
    let mut sink = NotificationsSink::new(3);
    assert_eq!(sink.send(&vec![1, 2], SendMode::Blocking), Ok(()));
    sink.close();
    sink.close();
    assert!(sink.is_closed());
    for i in 0..10_000u32 {
        let mode = if i % 2 == 0 { SendMode::Blocking } else { SendMode::BestEffort };
        assert_eq!(sink.send(&vec![0; 4], mode), Err(SendError::SinkClosed));
    }
    // what was queued before the close may still be drained
    assert_eq!(sink.drain(), Some(vec![1, 2]));
    assert_eq!(sink.drain(), None);
    assert_eq!(sink.capacity(), 3);
}
