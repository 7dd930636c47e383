use signaling::codec::encode;
use signaling::message::{Frame, IceCandidateData, SignalMessage};
use signaling::registry::{Delivery, Registry};
use tokio::sync::mpsc::error::TryRecvError;
use tokio::sync::mpsc::{unbounded_channel, UnboundedReceiver};

fn peer(registry: &mut Registry, id: u64) -> UnboundedReceiver<Frame> {
    let (tx, rx) = unbounded_channel();
    assert!(registry.register(id, tx).is_ok());
    rx
}

fn text(s: &str) -> Frame {
    Frame::Text(s.to_string())
}

#[test]
fn three_peers_offer_then_candidate_after_one_leaves() {
    let mut registry = Registry::new();
    let mut a = peer(&mut registry, 1);
    let mut b = peer(&mut registry, 2);
    let mut c = peer(&mut registry, 3);

    let offer = text("{\"type\":\"Offer\",\"data\":\"v=0...\"}");
    let report = registry.broadcast_except(1, &offer);
    assert_eq!(
        report,
        vec![Delivery { id: 2, accepted: true }, Delivery { id: 3, accepted: true }]
    );
    assert_eq!(b.try_recv(), Ok(offer.duplicate()));
    assert_eq!(c.try_recv(), Ok(offer.duplicate()));
    assert_eq!(a.try_recv(), Err(TryRecvError::Empty));

    assert!(registry.unregister(2));
    let candidate = SignalMessage::IceCandidate(IceCandidateData {
        candidate: "candidate:1 1 UDP 2122260223 10.0.0.1 5000 typ host".to_string(),
        sdp_mid: Some("0".to_string()),
        sdp_m_line_index: Some(0),
    });
    let ice = Frame::Text(encode(&candidate));
    let report = registry.broadcast_except(1, &ice);
    assert_eq!(report, vec![Delivery { id: 3, accepted: true }]);
    assert_eq!(c.try_recv(), Ok(ice));
    assert_eq!(a.try_recv(), Err(TryRecvError::Empty));
    assert_eq!(b.try_recv(), Err(TryRecvError::Disconnected));
}

#[test]
fn sender_never_gets_its_own_frame() {
    let mut registry = Registry::new();
    let mut rxs: Vec<UnboundedReceiver<Frame>> = (0..5).map(|i| peer(&mut registry, 10 + i)).collect();
    let frame = Frame::Binary(vec![1, 2, 3]);
    let report = registry.broadcast_except(12, &frame);
    assert_eq!(report.iter().map(|d| d.id).collect::<Vec<_>>(), vec![10, 11, 13, 14]);
    for (i, rx) in rxs.iter_mut().enumerate() {
        if i == 2 {
            assert_eq!(rx.try_recv(), Err(TryRecvError::Empty));
        } else {
            assert_eq!(rx.try_recv(), Ok(frame.duplicate()));
            assert_eq!(rx.try_recv(), Err(TryRecvError::Empty));
        }
    }
}

#[test]
fn frames_from_one_sender_keep_their_order() {
    let mut registry = Registry::new();
    let _a = peer(&mut registry, 1);
    let mut b = peer(&mut registry, 2);
    registry.broadcast_except(1, &text("m1"));
    registry.broadcast_except(1, &text("m2"));
    assert_eq!(b.try_recv(), Ok(text("m1")));
    assert_eq!(b.try_recv(), Ok(text("m2")));
    assert_eq!(b.try_recv(), Err(TryRecvError::Empty));
}

#[test]
fn closed_queue_does_not_stop_the_fan_out() {
    let mut registry = Registry::new();
    let _a = peer(&mut registry, 1);
    let b = peer(&mut registry, 2);
    let mut c = peer(&mut registry, 3);
    drop(b);
    let report = registry.broadcast_except(1, &text("x"));
    assert_eq!(
        report,
        vec![Delivery { id: 2, accepted: false }, Delivery { id: 3, accepted: true }]
    );
    assert_eq!(c.try_recv(), Ok(text("x")));

    assert!(registry.unregister(2));
    let report = registry.broadcast_except(3, &text("y"));
    assert_eq!(report, vec![Delivery { id: 1, accepted: true }]);
    assert_eq!(registry.len(), 2);
}

#[test]
fn broadcast_all_reaches_everyone() {
    let mut registry = Registry::new();
    let mut a = peer(&mut registry, 7);
    let mut b = peer(&mut registry, 8);
    let report = registry.broadcast_all(&text("all"));
    assert_eq!(report.len(), 2);
    assert_eq!(a.try_recv(), Ok(text("all")));
    assert_eq!(b.try_recv(), Ok(text("all")));
}

#[test]
fn empty_registry_broadcast_reaches_nobody() {
    let mut registry = Registry::new();
    assert!(registry.broadcast_except(1, &text("x")).is_empty());
    assert!(registry.broadcast_all(&text("x")).is_empty());
    assert_eq!(registry.len(), 0);
}

#[test]
fn duplicate_id_is_refused_and_absent_id_is_a_no_op() {
    let mut registry = Registry::new();
    let _a = peer(&mut registry, 5);
    let (tx, _rx) = unbounded_channel();
    assert!(registry.register(5, tx).is_err());
    assert_eq!(registry.len(), 1);
    assert!(!registry.unregister(6));
    assert_eq!(registry.len(), 1);
    assert!(registry.contains(5));
    assert!(registry.unregister(5));
    assert!(!registry.contains(5));
}

#[test]
fn fresh_ids_avoid_collisions() {
    let mut registry = Registry::new();
    let (tx, _rx0) = unbounded_channel();
    assert_eq!(registry.register_fresh(0, tx), 0);
    let (tx, _rx1) = unbounded_channel();
    assert_eq!(registry.register_fresh(1, tx), 1);
    let (tx, _rx2) = unbounded_channel();
    let third = registry.register_fresh(0, tx);
    assert_eq!(third, 2);
    assert_eq!(registry.fresh_id(u64::MAX), u64::MAX);
    let (tx, _rx3) = unbounded_channel();
    let drawn = registry.connect(tx);
    assert!(drawn != 0 && drawn != 1 && drawn != 2);
    assert_eq!(registry.len(), 4);
}
