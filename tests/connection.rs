use signaling::connection::{ConnectionState, Event, SignalConnection};
use signaling::message::Frame;
use signaling::registry::{Delivery, Registry};
use tokio::sync::mpsc::error::TryRecvError;
use tokio::sync::mpsc::unbounded_channel;

#[test]
fn open_connection_relays_then_closes() {
    let mut registry = Registry::new();
    let (tx_a, mut rx_a) = unbounded_channel();
    let (tx_b, mut rx_b) = unbounded_channel();
    let mut a = SignalConnection::open(&mut registry, tx_a);
    let b = SignalConnection::open(&mut registry, tx_b);
    assert_ne!(a.id(), b.id());
    assert_eq!(a.state(), ConnectionState::Open);

    let raw = Frame::Text("not a signal".to_string());
    let report = a.on_event(&mut registry, Event::Received(raw.duplicate()));
    assert_eq!(report, vec![Delivery { id: b.id(), accepted: true }]);
    assert_eq!(rx_b.try_recv(), Ok(raw));
    assert_eq!(rx_a.try_recv(), Err(TryRecvError::Empty));

    let report = a.on_event(&mut registry, Event::Ended);
    assert!(report.is_empty());
    assert_eq!(a.state(), ConnectionState::Closed);
    assert_eq!(registry.len(), 1);
    assert!(!registry.contains(a.id()));
    assert_eq!(rx_a.try_recv(), Err(TryRecvError::Disconnected));

    let report = a.on_event(&mut registry, Event::Received(Frame::Text("late".to_string())));
    assert!(report.is_empty());
    assert_eq!(rx_b.try_recv(), Err(TryRecvError::Empty));
}

#[test]
fn read_and_write_failures_close_the_connection() {
    for event in [Event::ReadFailed, Event::WriteFailed] {
        let mut registry = Registry::new();
        let (tx, _rx) = unbounded_channel();
        let mut c = SignalConnection::open(&mut registry, tx);
        c.on_event(&mut registry, event);
        assert_eq!(c.state(), ConnectionState::Closed);
        assert_eq!(registry.len(), 0);
    }
}
