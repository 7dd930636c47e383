//! The visitor counter: a registry of visitor connections that, on every
//! join and every leave, tells each visitor how many are connected.

use vstd::prelude::*;
use tokio::sync::mpsc::UnboundedSender;
use crate::codec::{visitor_count_frame, visitor_count_text};
use crate::message::{Frame, FrameView};
use crate::registry::{accepted_by, delivered, others, targets, Delivery, Registry};

verus! {

/// The frame that announces `n` connected visitors.
pub open spec fn count_view(n: nat) -> FrameView {
    FrameView::Text(visitor_count_text(n))
}

/// Whoever a fan-out report says accepted the frame was among its targets.
proof fn lemma_accepted_hold_last(ids: Seq<u64>, report: Seq<Delivery>)
    requires
        targets(report) == ids,
    ensures
        forall|v: u64| #[trigger] accepted_by(report, v) ==> ids.contains(v),
{
    assert forall|v: u64| #[trigger] accepted_by(report, v) implies ids.contains(v) by {
        let k = choose|k: int| 0 <= k < report.len() && report[k] == Delivery { id: v, accepted: true };
        assert(targets(report)[k] == v);
    }
}

/// The visitor connections, with the number of joins and leaves so far.
pub struct VisitorCounter {
    visitors: Registry,
    joins: Ghost<nat>,
    leaves: Ghost<nat>,
}

impl VisitorCounter {
    /// The registry of visitor connections; each has a key of its own.
    pub closed spec fn registry(&self) -> Registry {
        self.visitors
    }

    /// How many visitors have joined.
    pub closed spec fn joins(&self) -> nat {
        self.joins@
    }

    /// How many visitors have left.
    pub closed spec fn leaves(&self) -> nat {
        self.leaves@
    }

    pub closed spec fn wf(&self) -> bool {
        &&& self.visitors.wf()
        &&& self.visitors.ids().len() + self.leaves@ == self.joins@
    }

    /// No visitors yet.
    pub fn new() -> (r: VisitorCounter)
        ensures
            r.wf(),
            r.joins() == 0,
            r.leaves() == 0,
            r.registry().ids().len() == 0,
    {
        VisitorCounter { visitors: Registry::new(), joins: Ghost(0), leaves: Ghost(0) }
    }

    /// The number of connected visitors.
    pub fn count(&self) -> (n: usize)
        requires
            self.wf(),
        ensures
            n == self.registry().ids().len(),
            n == self.joins() - self.leaves(),
    {
        self.visitors.len()
    }

    /// Tells every connected visitor the current count.
    fn broadcast_visitor_count(&mut self) -> (report: Vec<Delivery>)
        requires
            old(self).wf(),
        ensures
            final(self).wf(),
            final(self).joins() == old(self).joins(),
            final(self).leaves() == old(self).leaves(),
            final(self).registry().ids() == old(self).registry().ids(),
            targets(report@) == old(self).registry().ids(),
            final(self).registry().accepted() == delivered(
                old(self).registry().accepted(),
                report@,
                count_view(old(self).registry().ids().len()),
            ),
    {
        let n = self.visitors.len();
        let frame = visitor_count_frame(n as u64);
        self.visitors.broadcast_all(&frame)
    }

    /// Adds a visitor under a fresh key and tells every visitor, the new one
    /// included, the new count. Returns the key and what the broadcast did.
    pub fn join(&mut self, outbound: UnboundedSender<Frame>) -> (r: (u64, Vec<Delivery>))
        requires
            old(self).wf(),
        ensures
            final(self).wf(),
            final(self).joins() == old(self).joins() + 1,
            final(self).leaves() == old(self).leaves(),
            !old(self).registry().ids().contains(r.0),
            final(self).registry().ids() == old(self).registry().ids().push(r.0),
            targets(r.1@) == final(self).registry().ids(),
            final(self).registry().accepted() == delivered(
                old(self).registry().accepted().insert(r.0, Seq::<FrameView>::empty()),
                r.1@,
                count_view((final(self).joins() - final(self).leaves()) as nat),
            ),
            forall|v: u64| #[trigger]
                accepted_by(r.1@, v) ==> final(self).registry().accepted()[v].last() == count_view(
                    (final(self).joins() - final(self).leaves()) as nat,
                ),
    {
        let key = self.visitors.connect(outbound);
        self.joins = Ghost(self.joins@ + 1);
        let report = self.broadcast_visitor_count();
        proof {
            lemma_accepted_hold_last(self.visitors.ids(), report@);
            self.visitors.lemma_accounts_match();
        }
        (key, report)
    }

    /// Removes the visitor with this key and tells every remaining visitor
    /// the new count. An unknown key changes nothing and tells nobody.
    pub fn leave(&mut self, key: u64) -> (r: Option<Vec<Delivery>>)
        requires
            old(self).wf(),
        ensures
            final(self).wf(),
            r is Some <==> old(self).registry().ids().contains(key),
            r is None ==> *final(self) == *old(self),
            r matches Some(report) ==> {
                &&& final(self).joins() == old(self).joins()
                &&& final(self).leaves() == old(self).leaves() + 1
                &&& final(self).registry().ids() == others(old(self).registry().ids(), key)
                &&& targets(report@) == final(self).registry().ids()
                &&& final(self).registry().accepted() == delivered(
                    old(self).registry().accepted().remove(key),
                    report@,
                    count_view((final(self).joins() - final(self).leaves()) as nat),
                )
                &&& forall|v: u64| #[trigger]
                    accepted_by(report@, v) ==> final(self).registry().accepted()[v].last()
                        == count_view((final(self).joins() - final(self).leaves()) as nat)
            },
    {
        if !self.visitors.contains(key) {
            return None;
        }
        let removed = self.visitors.unregister(key);
        self.leaves = Ghost(self.leaves@ + 1);
        let report = self.broadcast_visitor_count();
        proof {
            lemma_accepted_hold_last(self.visitors.ids(), report@);
            self.visitors.lemma_accounts_match();
        }
        Some(report)
    }
}

} // verus!
