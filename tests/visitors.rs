use signaling::codec::visitor_count_frame;
use signaling::message::Frame;
use signaling::visitors::VisitorCounter;
use tokio::sync::mpsc::error::TryRecvError;
use tokio::sync::mpsc::{unbounded_channel, UnboundedReceiver};

fn last(rx: &mut UnboundedReceiver<Frame>) -> Option<Frame> {
    let mut seen = None;
    while let Ok(f) = rx.try_recv() {
        seen = Some(f);
    }
    seen
}

#[test]
fn every_visitor_ends_with_joins_minus_leaves() {
    let mut counter = VisitorCounter::new();
    let mut rxs = Vec::new();
    let mut keys = Vec::new();
    for _ in 0..4 {
        let (tx, rx) = unbounded_channel();
        let (key, report) = counter.join(tx);
        assert_eq!(report.len(), keys.len() + 1);
        keys.push(key);
        rxs.push(rx);
    }
    assert_eq!(counter.count(), 4);
    let report = counter.leave(keys[1]).expect("known key");
    assert_eq!(report.len(), 3);
    assert_eq!(counter.count(), 3);
    for (i, rx) in rxs.iter_mut().enumerate() {
        if i == 1 {
            assert_eq!(last(rx), Some(visitor_count_frame(4)));
            assert_eq!(rx.try_recv(), Err(TryRecvError::Disconnected));
        } else {
            assert_eq!(last(rx), Some(visitor_count_frame(3)));
        }
    }
}

#[test]
fn newcomer_sees_count_including_itself() {
    let mut counter = VisitorCounter::new();
    let (tx, mut rx) = unbounded_channel();
    counter.join(tx);
    assert_eq!(rx.try_recv(), Ok(Frame::Text("{\"visitorCount\":1}".to_string())));
    let (tx2, mut rx2) = unbounded_channel();
    counter.join(tx2);
    assert_eq!(rx.try_recv(), Ok(Frame::Text("{\"visitorCount\":2}".to_string())));
    assert_eq!(rx2.try_recv(), Ok(Frame::Text("{\"visitorCount\":2}".to_string())));
}

#[test]
fn unknown_key_changes_nothing() {
    let mut counter = VisitorCounter::new();
    let (tx, mut rx) = unbounded_channel();
    let (key, _) = counter.join(tx);
    let _ = rx.try_recv();
    assert!(counter.leave(key.wrapping_add(1)).is_none());
    assert_eq!(counter.count(), 1);
    assert_eq!(rx.try_recv(), Err(TryRecvError::Empty));
    assert!(counter.leave(key).is_some());
    assert_eq!(counter.count(), 0);
    assert!(counter.leave(key).is_none());
}
