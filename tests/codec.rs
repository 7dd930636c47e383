use signaling::codec::{decode, encode, visitor_count_frame};
use signaling::message::{Frame, IceCandidateData, SignalMessage};

fn ice(candidate: &str, sdp_mid: Option<&str>, sdp_m_line_index: Option<u16>) -> SignalMessage {
    SignalMessage::IceCandidate(IceCandidateData {
        candidate: candidate.to_string(),
        sdp_mid: sdp_mid.map(|s| s.to_string()),
        sdp_m_line_index,
    })
}

#[test]
fn ice_candidate_round_trip_keeps_null_and_zero_apart() {
    let m = ice("candidate:1 1 UDP 2122260223 192.168.1.2 54321 typ host", None, Some(0));
    let text = encode(&m);
    assert_eq!(
        text,
        "{\"type\":\"IceCandidate\",\"data\":{\"candidate\":\"candidate:1 1 UDP 2122260223 192.168.1.2 54321 typ host\",\"sdp_mid\":null,\"sdp_m_line_index\":0}}"
    );
    let back = decode(&text).expect("decodes");
    assert_eq!(back, m);
    match back {
        SignalMessage::IceCandidate(d) => {
            assert_eq!(d.sdp_mid, None);
            assert_eq!(d.sdp_m_line_index, Some(0));
        }
        other => panic!("wrong variant: {:?}", other),
    }
}

#[test]
fn ice_candidate_without_index_is_null_not_zero() {
    let m = ice("candidate:2", Some("0"), None);
    let text = encode(&m);
    assert_eq!(
        text,
        "{\"type\":\"IceCandidate\",\"data\":{\"candidate\":\"candidate:2\",\"sdp_mid\":\"0\",\"sdp_m_line_index\":null}}"
    );
    assert_eq!(decode(&text), Some(m));
    assert_ne!(decode(&text), Some(ice("candidate:2", Some("0"), Some(0))));
}

#[test]
fn largest_line_index_round_trips() {
    let m = ice("c", Some("audio"), Some(65535));
    let text = encode(&m);
    assert!(text.ends_with("\"sdp_m_line_index\":65535}}"));
    assert_eq!(decode(&text), Some(m));
}

#[test]
fn offer_is_written_with_tag_and_data() {
    let m = SignalMessage::Offer("v=0\r\no=- 1 2 IN IP4 127.0.0.1\r\n".to_string());
    let text = encode(&m);
    assert_eq!(text, "{\"type\":\"Offer\",\"data\":\"v=0\\r\\no=- 1 2 IN IP4 127.0.0.1\\r\\n\"}");
    assert_eq!(decode(&text), Some(m));
}

#[test]
fn answer_escapes_quotes_backslashes_and_controls() {
    let m = SignalMessage::Answer("a\"b\\c\u{1}d\te\u{8}f\u{c}g\u{1f}h/é".to_string());
    let text = encode(&m);
    assert_eq!(
        text,
        "{\"type\":\"Answer\",\"data\":\"a\\\"b\\\\c\\u0001d\\te\\bf\\fg\\u001fh/é\"}"
    );
    assert_eq!(decode(&text), Some(m));
}

#[test]
fn empty_payloads_round_trip() {
    for m in [
        SignalMessage::Offer(String::new()),
        SignalMessage::Answer(String::new()),
        ice("", Some(""), None),
    ] {
        let text = encode(&m);
        assert_eq!(decode(&text), Some(m));
    }
    assert_eq!(encode(&SignalMessage::Offer(String::new())), "{\"type\":\"Offer\",\"data\":\"\"}");
}

#[test]
fn malformed_text_is_not_a_message() {
    assert_eq!(decode(""), None);
    assert_eq!(decode("hello"), None);
    assert_eq!(decode("{\"type\":\"Bogus\",\"data\":\"x\"}"), None);
    assert_eq!(decode("{\"type\":\"Offer\",\"data\":\"x\"}extra"), None);
    assert_eq!(decode("{\"type\":\"Offer\",\"data\":\"x\""), None);
    assert_eq!(decode("{\"type\":\"Offer\",\"data\":7}"), None);
    assert_eq!(
        decode("{\"type\":\"IceCandidate\",\"data\":{\"candidate\":\"c\",\"sdp_mid\":null,\"sdp_m_line_index\":65536}}"),
        None
    );
}

#[test]
fn decode_accepts_only_the_compact_form() {
    assert_eq!(decode("{\"type\":\"Offer\",\"data\":\"x\"}"), Some(SignalMessage::Offer("x".to_string())));
    assert_eq!(decode("{ \"type\": \"Offer\", \"data\": \"x\" }"), None);
    assert_eq!(decode("{\"type\":\"Offer\",\"data\":\"\\u0078\"}"), None);
}

#[test]
fn visitor_count_frames() {
    assert_eq!(visitor_count_frame(0), Frame::Text("{\"visitorCount\":0}".to_string()));
    assert_eq!(visitor_count_frame(3), Frame::Text("{\"visitorCount\":3}".to_string()));
    assert_eq!(visitor_count_frame(12345), Frame::Text("{\"visitorCount\":12345}".to_string()));
}

#[test]
fn duplicate_copies_both_kinds() {
    let t = Frame::Text("abc".to_string());
    assert_eq!(t.duplicate(), t);
    let b = Frame::Binary(vec![0, 1, 255]);
    assert_eq!(b.duplicate(), b);
}
