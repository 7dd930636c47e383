//! The wire form of the signaling envelope and of the visitor count.
//!
//! An envelope is a JSON object with the variant's name under `type` and its
//! payload under `data`, written compactly with the fields in declaration
//! order: `{"type":"Offer","data":"v=0..."}`.

use vstd::prelude::*;
use crate::json::{decimal, json_quote, chars_of, digits, quote, number_at, string_at, read_as, is_digit};
use crate::message::{Frame, FrameView, IceCandidateData, IceCandidateView, SignalMessage, SignalView};

verus! {

/// `null`, or the string literal of the value.
pub open spec fn optional_text(o: Option<Seq<char>>) -> Seq<char> {
    match o {
        Some(s) => json_quote(s),
        None => "null"@,
    }
}

/// `null`, or the decimal digits of the value.
pub open spec fn optional_number(o: Option<u16>) -> Seq<char> {
    match o {
        Some(n) => decimal(n as nat),
        None => "null"@,
    }
}

/// The JSON object of an ICE candidate.
pub open spec fn candidate_encoding(c: IceCandidateView) -> Seq<char> {
    "{\"candidate\":"@ + json_quote(c.candidate) + ",\"sdp_mid\":"@ + optional_text(c.sdp_mid)
        + ",\"sdp_m_line_index\":"@ + optional_number(c.sdp_m_line_index) + "}"@
}

/// The envelope of `tag` around the JSON text `data`.
pub open spec fn envelope(tag: Seq<char>, data: Seq<char>) -> Seq<char> {
    "{\"type\":"@ + json_quote(tag) + ",\"data\":"@ + data + "}"@
}

/// The wire form of a signaling message.
pub open spec fn encoding(m: SignalView) -> Seq<char> {
    match m {
        SignalView::Offer(sdp) => envelope("Offer"@, json_quote(sdp)),
        SignalView::Answer(sdp) => envelope("Answer"@, json_quote(sdp)),
        SignalView::IceCandidate(c) => envelope("IceCandidate"@, candidate_encoding(c)),
    }
}

/// The text of a visitor-count broadcast.
pub open spec fn visitor_count_text(n: nat) -> Seq<char> {
    "{\"visitorCount\":"@ + decimal(n) + "}"@
}

/// Whether `lit` stands in `t` at index `p`.
fn literal_at(t: &Vec<char>, p: usize, lit: &str) -> (r: bool)
    ensures
        r == (p + lit@.len() <= t.len() && t@.subrange(p as int, p + lit@.len()) == lit@),
{
    let n = lit.unicode_len();
    if p > t.len() || t.len() - p < n {
        return false;
    }
    let mut i: usize = 0;
    while i < n
        invariant
            n == lit@.len(),
            p + n <= t.len(),
            i <= n,
            forall|j: int| 0 <= j < i ==> t@[p + j] == lit@[j],
        decreases n - i,
    {
        if t[p + i] != lit.get_char(i) {
            assert(t@.subrange(p as int, p + n)[i as int] != lit@[i as int]);
            return false;
        }
        i = i + 1;
    }
    assert(t@.subrange(p as int, p + n) =~= lit@);
    true
}

/// The JSON object of an ICE candidate.
fn candidate_text(c: &IceCandidateData) -> (r: String)
    ensures
        r@ == candidate_encoding(c@),
{
    let mut out = String::from_str("{\"candidate\":");
    out.append(quote(c.candidate.as_str()).as_str());
    out.append(",\"sdp_mid\":");
    match &c.sdp_mid {
        Some(m) => out.append(quote(m.as_str()).as_str()),
        None => out.append("null"),
    }
    out.append(",\"sdp_m_line_index\":");
    match c.sdp_m_line_index {
        Some(n) => out.append(digits(n as u64).as_str()),
        None => out.append("null"),
    }
    out.append("}");
    out
}

/// The wire form of `m`.
pub fn encode(m: &SignalMessage) -> (r: String)
    ensures
        r@ == encoding(m@),
{
    let mut out = String::from_str("{\"type\":");
    match m {
        SignalMessage::Offer(sdp) => {
            out.append(quote("Offer").as_str());
            out.append(",\"data\":");
            out.append(quote(sdp.as_str()).as_str());
        },
        SignalMessage::Answer(sdp) => {
            out.append(quote("Answer").as_str());
            out.append(",\"data\":");
            out.append(quote(sdp.as_str()).as_str());
        },
        SignalMessage::IceCandidate(c) => {
            out.append(quote("IceCandidate").as_str());
            out.append(",\"data\":");
            out.append(candidate_text(c).as_str());
        },
    }
    out.append("}");
    out
}

/// The frame that tells visitors how many of them are connected.
pub fn visitor_count_frame(n: u64) -> (f: Frame)
    ensures
        f@ == FrameView::Text(visitor_count_text(n as nat)),
{
    let mut out = String::from_str("{\"visitorCount\":");
    out.append(digits(n).as_str());
    out.append("}");
    Frame::Text(out)
}

/// Whether `piece` stands in `t` from index `at`.
pub open spec fn stands_at(t: Seq<char>, at: int, piece: Seq<char>) -> bool {
    0 <= at && at + piece.len() <= t.len() && t.subrange(at, at + piece.len()) == piece
}

proof fn lemma_stands_in_two(t: Seq<char>, at: int, a: Seq<char>, b: Seq<char>)
    requires
        stands_at(t, at, a + b),
    ensures
        stands_at(t, at, a),
        stands_at(t, at + a.len(), b),
{
    let w = t.subrange(at, at + (a + b).len());
    assert(w == a + b);
    assert(t.subrange(at, at + a.len()) =~= w.subrange(0, a.len() as int));
    assert(w.subrange(0, a.len() as int) =~= a);
    assert(t.subrange(at + a.len(), at + a.len() + b.len()) =~= w.subrange(
        a.len() as int,
        w.len() as int,
    ));
    assert(w.subrange(a.len() as int, w.len() as int) =~= b);
}

proof fn lemma_null_is_not(t: Seq<char>, at: int, piece: Seq<char>)
    requires
        stands_at(t, at, piece),
        piece.len() > 0,
        piece[0] != 'n',
    ensures
        !stands_at(t, at, "null"@),
{
    reveal_strlit("null");
    assert(t[at] == t.subrange(at, at + piece.len())[0]);
    if stands_at(t, at, "null"@) {
        assert(t[at] == t.subrange(at, at + 4)[0]);
    }
}

proof fn lemma_candidate_parts(t: Seq<char>, p: int, c: IceCandidateView)
    requires
        stands_at(t, p, candidate_encoding(c)),
    ensures
        ({
            let a1 = p + "{\"candidate\":"@.len();
            let a2 = a1 + json_quote(c.candidate).len();
            let a3 = a2 + ",\"sdp_mid\":"@.len();
            let a4 = a3 + optional_text(c.sdp_mid).len();
            let a5 = a4 + ",\"sdp_m_line_index\":"@.len();
            let a6 = a5 + optional_number(c.sdp_m_line_index).len();
            &&& stands_at(t, p, "{\"candidate\":"@)
            &&& stands_at(t, a1, json_quote(c.candidate))
            &&& stands_at(t, a2, ",\"sdp_mid\":"@)
            &&& stands_at(t, a3, optional_text(c.sdp_mid))
            &&& (c.sdp_mid is Some <==> !stands_at(t, a3, "null"@))
            &&& stands_at(t, a4, ",\"sdp_m_line_index\":"@)
            &&& stands_at(t, a5, optional_number(c.sdp_m_line_index))
            &&& (c.sdp_m_line_index is Some <==> !stands_at(t, a5, "null"@))
            &&& stands_at(t, a6, "}"@)
            &&& a6 < t.len() && !is_digit(t[a6])
            &&& a6 + 1 == p + candidate_encoding(c).len()
        }),
{
    let k1 = "{\"candidate\":"@;
    let q = json_quote(c.candidate);
    let k2 = ",\"sdp_mid\":"@;
    let o = optional_text(c.sdp_mid);
    let k3 = ",\"sdp_m_line_index\":"@;
    let n = optional_number(c.sdp_m_line_index);
    let e = "}"@;
    lemma_stands_in_two(t, p, k1 + q + k2 + o + k3 + n, e);
    lemma_stands_in_two(t, p, k1 + q + k2 + o + k3, n);
    lemma_stands_in_two(t, p, k1 + q + k2 + o, k3);
    lemma_stands_in_two(t, p, k1 + q + k2, o);
    lemma_stands_in_two(t, p, k1 + q, k2);
    lemma_stands_in_two(t, p, k1, q);
    let a3 = p + k1.len() + q.len() + k2.len();
    let a5 = a3 + o.len() + k3.len();
    let a6 = a5 + n.len();
    reveal_strlit("null");
    reveal_strlit("}");
    match c.sdp_mid {
        Some(s) => {
            lemma_null_is_not(t, a3, o);
        },
        None => {},
    }
    match c.sdp_m_line_index {
        Some(v) => {
            crate::json::lemma_decimal(v as nat);
            assert(is_digit(n[0]));
            lemma_null_is_not(t, a5, n);
        },
        None => {},
    }
    assert(t[a6] == t.subrange(a6, a6 + 1)[0]);
}

/// Whether a reader returned a candidate with view `c` and the index `end`
/// just past it.
spec fn candidate_read_as(r: Option<(IceCandidateData, usize)>, c: IceCandidateView, end: int) -> bool {
    r matches Some(v) && v.0@ == c && v.1 == end
}

/// The ICE candidate object that starts at index `p` of `t`, and the index
/// just past it. One written as `candidate_encoding` writes it is read back.
fn candidate_at(text: &str, t: &Vec<char>, p: usize) -> (r: Option<(IceCandidateData, usize)>)
    requires
        t@ == text@,
    ensures
        forall|c: IceCandidateView|
            #![trigger candidate_encoding(c)]
            stands_at(t@, p as int, candidate_encoding(c)) ==> candidate_read_as(
                r,
                c,
                p + candidate_encoding(c).len(),
            ),
{
    let k1 = "{\"candidate\":";
    let k2 = ",\"sdp_mid\":";
    let k3 = ",\"sdp_m_line_index\":";
    proof {
        reveal_strlit("null");
        reveal_strlit("}");
    }
    if !literal_at(t, p, k1) {
        proof {
            assert forall|c: IceCandidateView| #[trigger]
                stands_at(t@, p as int, candidate_encoding(c)) implies false by {
                lemma_candidate_parts(t@, p as int, c);
            }
        }
        return None;
    }
    let a1 = p + k1.unicode_len();
    let (candidate, a2) = match string_at(text, t, a1) {
        Some(v) => v,
        None => {
            proof {
                assert forall|c: IceCandidateView| #[trigger]
                    stands_at(t@, p as int, candidate_encoding(c)) implies false by {
                    lemma_candidate_parts(t@, p as int, c);
                }
            }
            return None;
        },
    };
    if !literal_at(t, a2, k2) {
        proof {
            assert forall|c: IceCandidateView| #[trigger]
                stands_at(t@, p as int, candidate_encoding(c)) implies false by {
                lemma_candidate_parts(t@, p as int, c);
            }
        }
        return None;
    }
    let a3 = a2 + k2.unicode_len();
    let (sdp_mid, a4): (Option<String>, usize) = if literal_at(t, a3, "null") {
        (None, a3 + 4)
    } else {
        match string_at(text, t, a3) {
            Some((s, e)) => (Some(s), e),
            None => {
                proof {
                    assert forall|c: IceCandidateView| #[trigger]
                        stands_at(t@, p as int, candidate_encoding(c)) implies false by {
                        lemma_candidate_parts(t@, p as int, c);
                    }
                }
                return None;
            },
        }
    };
    if !literal_at(t, a4, k3) {
        proof {
            assert forall|c: IceCandidateView| #[trigger]
                stands_at(t@, p as int, candidate_encoding(c)) implies false by {
                lemma_candidate_parts(t@, p as int, c);
            }
        }
        return None;
    }
    let a5 = a4 + k3.unicode_len();
    let (sdp_m_line_index, a6): (Option<u16>, usize) = if literal_at(t, a5, "null") {
        (None, a5 + 4)
    } else {
        match number_at(t, a5) {
            Some((n, e)) => (Some(n), e),
            None => {
                proof {
                    assert forall|c: IceCandidateView| #[trigger]
                        stands_at(t@, p as int, candidate_encoding(c)) implies false by {
                        lemma_candidate_parts(t@, p as int, c);
                    }
                }
                return None;
            },
        }
    };
    if !literal_at(t, a6, "}") {
        proof {
            assert forall|c: IceCandidateView| #[trigger]
                stands_at(t@, p as int, candidate_encoding(c)) implies false by {
                lemma_candidate_parts(t@, p as int, c);
            }
        }
        return None;
    }
    let data = IceCandidateData { candidate, sdp_mid, sdp_m_line_index };
    let r = Some((data, a6 + 1));
    proof {
        assert forall|c: IceCandidateView| #[trigger]
            stands_at(t@, p as int, candidate_encoding(c)) implies candidate_read_as(
            r,
            c,
            p + candidate_encoding(c).len(),
        ) by {
            lemma_candidate_parts(t@, p as int, c);
        }
    }
    r
}

proof fn lemma_envelope_parts(t: Seq<char>, tag: Seq<char>, data: Seq<char>)
    requires
        t == envelope(tag, data),
    ensures
        ({
            let b1 = "{\"type\":"@.len() as int;
            let b2 = b1 + json_quote(tag).len();
            let b3 = b2 + ",\"data\":"@.len();
            let b4 = b3 + data.len();
            &&& stands_at(t, 0, "{\"type\":"@)
            &&& stands_at(t, b1, json_quote(tag))
            &&& stands_at(t, b2, ",\"data\":"@)
            &&& stands_at(t, b3, data)
            &&& stands_at(t, b4, "}"@)
            &&& b4 + 1 == t.len()
        }),
{
    let k0 = "{\"type\":"@;
    let q = json_quote(tag);
    let kd = ",\"data\":"@;
    let e = "}"@;
    reveal_strlit("}");
    assert(t.subrange(0, t.len() as int) =~= t);
    lemma_stands_in_two(t, 0, k0 + q + kd + data, e);
    lemma_stands_in_two(t, 0, k0 + q + kd, data);
    lemma_stands_in_two(t, 0, k0 + q, kd);
    lemma_stands_in_two(t, 0, k0, q);
}

/// Reads the envelope that fills `t`. An envelope written as `encoding`
/// writes it is read back as the message it was written from.
fn parse_envelope(text: &str, t: &Vec<char>) -> (r: Option<SignalMessage>)
    requires
        t@ == text@,
    ensures
        forall|m: SignalView| #[trigger] encoding(m) == t@ ==> (r matches Some(x) && x@ == m),
{
    let k0 = "{\"type\":";
    let kd = ",\"data\":";
    proof {
        reveal_strlit("}");
        reveal_strlit("Offer");
        reveal_strlit("Answer");
        reveal_strlit("IceCandidate");
    }
    if !literal_at(t, 0, k0) {
        proof {
            assert forall|m: SignalView| #[trigger] encoding(m) == t@ implies false by {
                lemma_message_parts(t@, m);
            }
        }
        return None;
    }
    let b1 = k0.unicode_len();
    let (tag, b2) = match string_at(text, t, b1) {
        Some(v) => v,
        None => {
            proof {
                assert forall|m: SignalView| #[trigger] encoding(m) == t@ implies false by {
                    lemma_message_parts(t@, m);
                }
            }
            return None;
        },
    };
    if !literal_at(t, b2, kd) {
        proof {
            assert forall|m: SignalView| #[trigger] encoding(m) == t@ implies false by {
                lemma_message_parts(t@, m);
            }
        }
        return None;
    }
    let b3 = b2 + kd.unicode_len();
    let r = if tag == String::from_str("Offer") {
        match string_at(text, t, b3) {
            Some((sdp, b4)) => {
                if literal_at(t, b4, "}") && b4 + 1 == t.len() {
                    Some(SignalMessage::Offer(sdp))
                } else {
                    None
                }
            },
            None => None,
        }
    } else if tag == String::from_str("Answer") {
        match string_at(text, t, b3) {
            Some((sdp, b4)) => {
                if literal_at(t, b4, "}") && b4 + 1 == t.len() {
                    Some(SignalMessage::Answer(sdp))
                } else {
                    None
                }
            },
            None => None,
        }
    } else if tag == String::from_str("IceCandidate") {
        match candidate_at(text, t, b3) {
            Some((c, b4)) => {
                if literal_at(t, b4, "}") && b4 + 1 == t.len() {
                    Some(SignalMessage::IceCandidate(c))
                } else {
                    None
                }
            },
            None => None,
        }
    } else {
        None
    };
    proof {
        assert forall|m: SignalView| #[trigger] encoding(m) == t@ implies (r matches Some(x) && x@
            == m) by {
            lemma_message_parts(t@, m);
        }
    }
    r
}

proof fn lemma_message_parts(t: Seq<char>, m: SignalView)
    requires
        encoding(m) == t,
    ensures
        ({
            let b1 = "{\"type\":"@.len() as int;
            let tag = match m {
                SignalView::Offer(_) => "Offer"@,
                SignalView::Answer(_) => "Answer"@,
                SignalView::IceCandidate(_) => "IceCandidate"@,
            };
            let data = match m {
                SignalView::Offer(sdp) => json_quote(sdp),
                SignalView::Answer(sdp) => json_quote(sdp),
                SignalView::IceCandidate(c) => candidate_encoding(c),
            };
            let b2 = b1 + json_quote(tag).len();
            let b3 = b2 + ",\"data\":"@.len();
            let b4 = b3 + data.len();
            &&& stands_at(t, 0, "{\"type\":"@)
            &&& stands_at(t, b1, json_quote(tag))
            &&& stands_at(t, b2, ",\"data\":"@)
            &&& stands_at(t, b3, data)
            &&& stands_at(t, b4, "}"@)
            &&& b4 + 1 == t.len()
        }),
{
    match m {
        SignalView::Offer(sdp) => lemma_envelope_parts(t, "Offer"@, json_quote(sdp)),
        SignalView::Answer(sdp) => lemma_envelope_parts(t, "Answer"@, json_quote(sdp)),
        SignalView::IceCandidate(c) => lemma_envelope_parts(t, "IceCandidate"@, candidate_encoding(c)),
    }
}

/// Reads a signaling message from its wire form. Exactly the texts that
/// `encode` writes are read, each as the message it was written from.
pub fn decode(text: &str) -> (r: Option<SignalMessage>)
    ensures
        r matches Some(m) ==> encoding(m@) == text@,
        forall|m: SignalView| #[trigger] encoding(m) == text@ ==> (r matches Some(x) && x@ == m),
{
    let t = chars_of(text);
    match parse_envelope(text, &t) {
        Some(m) => {
            if encode(&m) == String::from_str(text) {
                Some(m)
            } else {
                None
            }
        },
        None => None,
    }
}

} // verus!
