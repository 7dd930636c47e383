//! The data that travels through the relay: transport frames and the
//! signaling envelope that browser peers exchange.

use vstd::prelude::*;

verus! {

/// One inbound or outbound transport frame.
#[derive(Debug, PartialEq, Eq)]
pub enum Frame {
    Text(String),
    Binary(Vec<u8>),
}

/// The mathematical value of a [`Frame`].
pub enum FrameView {
    Text(Seq<char>),
    Binary(Seq<u8>),
}

impl View for Frame {
    type V = FrameView;

    open spec fn view(&self) -> FrameView {
        match self {
            Frame::Text(s) => FrameView::Text(s@),
            Frame::Binary(b) => FrameView::Binary(b@),
        }
    }
}

impl Frame {
    /// A copy of the frame, for handing one to each of several queues.
    pub fn duplicate(&self) -> (r: Frame)
        ensures
            r@ == self@,
    {
        match self {
            Frame::Text(s) => Frame::Text(s.clone()),
            Frame::Binary(b) => {
                let mut out: Vec<u8> = Vec::new();
                let mut i: usize = 0;
                while i < b.len()
                    invariant
                        i <= b.len(),
                        out@ == b@.subrange(0, i as int),
                    decreases b.len() - i,
                {
                    out.push(b[i]);
                    i = i + 1;
                }
                assert(out@ =~= b@);
                Frame::Binary(out)
            },
        }
    }
}

/// An ICE candidate as a peer proposes it.
#[derive(Debug, PartialEq, Eq)]
pub struct IceCandidateData {
    pub candidate: String,
    pub sdp_mid: Option<String>,
    pub sdp_m_line_index: Option<u16>,
}

/// The signaling envelope: an SDP offer or answer, or an ICE candidate.
#[derive(Debug, PartialEq, Eq)]
pub enum SignalMessage {
    Offer(String),
    Answer(String),
    IceCandidate(IceCandidateData),
}

/// The mathematical value of an [`IceCandidateData`].
pub struct IceCandidateView {
    pub candidate: Seq<char>,
    pub sdp_mid: Option<Seq<char>>,
    pub sdp_m_line_index: Option<u16>,
}

/// The mathematical value of a [`SignalMessage`].
pub enum SignalView {
    Offer(Seq<char>),
    Answer(Seq<char>),
    IceCandidate(IceCandidateView),
}

impl View for IceCandidateData {
    type V = IceCandidateView;

    open spec fn view(&self) -> IceCandidateView {
        IceCandidateView {
            candidate: self.candidate@,
            sdp_mid: match self.sdp_mid {
                Some(m) => Some(m@),
                None => None,
            },
            sdp_m_line_index: self.sdp_m_line_index,
        }
    }
}

impl View for SignalMessage {
    type V = SignalView;

    open spec fn view(&self) -> SignalView {
        match self {
            SignalMessage::Offer(s) => SignalView::Offer(s@),
            SignalMessage::Answer(s) => SignalView::Answer(s@),
            SignalMessage::IceCandidate(d) => SignalView::IceCandidate(d@),
        }
    }
}

} // verus!
