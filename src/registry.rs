//! The connection registry: the live connections, each with the producer end
//! of its outbound queue, and the fan-out of a frame to them.
//!
//! Besides the queues, the registry keeps a ghost account of the frames that
//! each connection's queue has accepted since the connection registered. The
//! queue hands what it accepted to its one consumer in the order accepted.

use vstd::prelude::*;
use vstd::set_lib::{lemma_int_range, lemma_len_subset, set_int_range};
use tokio::sync::mpsc::UnboundedSender;
use crate::message::{Frame, FrameView};

verus! {

#[verifier::external_type_specification]
#[verifier::external_body]
#[verifier::reject_recursive_types(T)]
pub struct ExUnboundedSender<T>(UnboundedSender<T>);

/// Relies on tokio's `UnboundedSender::send`: it enqueues without waiting and
/// fails, handing the frame back, only when the receiving half is closed.
/// The result says whether the queue accepted the frame.
#[verifier::external_body]
fn enqueue(queue: &UnboundedSender<Frame>, frame: Frame) -> (accepted: bool) {
    queue.send(frame).is_ok()
}

/// Relies on rand's `random`: a value drawn from the thread-local generator.
/// Nothing is known of the value.
pub assume_specification<T>[ rand::random::<T> ]() -> (r: T)
    where
        rand::distributions::Standard: rand::distributions::Distribution<T>,
;

/// What one fan-out did for one target: its id, and whether its queue
/// accepted the frame.
#[derive(Clone, Copy, Debug, PartialEq, Eq)]
pub struct Delivery {
    pub id: u64,
    pub accepted: bool,
}

/// The ids that a fan-out report names, in the order it names them.
pub open spec fn targets(report: Seq<Delivery>) -> Seq<u64> {
    report.map_values(|d: Delivery| d.id)
}

/// Whether the report says that the queue of `id` accepted the frame.
pub open spec fn accepted_by(report: Seq<Delivery>, id: u64) -> bool {
    report.contains(Delivery { id, accepted: true })
}

/// The test that passes every id but `sender`.
pub open spec fn not_id(sender: u64) -> spec_fn(u64) -> bool {
    |id: u64| id != sender
}

/// `ids` without `sender`.
pub open spec fn others(ids: Seq<u64>, sender: u64) -> Seq<u64> {
    ids.filter(not_id(sender))
}

/// The account of accepted frames after a fan-out of `f` with this report:
/// `f` is appended for exactly the ids whose queue accepted it.
pub open spec fn delivered(
    log: Map<u64, Seq<FrameView>>,
    report: Seq<Delivery>,
    f: FrameView,
) -> Map<u64, Seq<FrameView>> {
    Map::new(
        |id: u64| log.dom().contains(id),
        |id: u64|
            if accepted_by(report, id) {
                log[id].push(f)
            } else {
                log[id]
            },
    )
}

/// The test that passes every id but the one `exclude` names.
pub open spec fn keeps(exclude: Option<u64>) -> spec_fn(u64) -> bool {
    |id: u64| exclude != Some(id)
}

/// `ids` without the one that `exclude` names.
pub open spec fn kept_ids(ids: Seq<u64>, exclude: Option<u64>) -> Seq<u64> {
    ids.filter(keeps(exclude))
}

struct Entry {
    id: u64,
    outbound: UnboundedSender<Frame>,
}

/// The set of live connections, at most one entry per id.
pub struct Registry {
    entries: Vec<Entry>,
    log: Ghost<Map<u64, Seq<FrameView>>>,
}

proof fn lemma_filter_keeps_all(s: Seq<u64>, p: spec_fn(u64) -> bool)
    requires
        forall|i: int| 0 <= i < s.len() ==> p(s[i]),
    ensures
        s.filter(p) == s,
    decreases s.len(),
{
    reveal(Seq::filter);
    if s.len() > 0 {
        lemma_filter_keeps_all(s.drop_last(), p);
        assert(s.drop_last().push(s.last()) =~= s);
    }
}

proof fn lemma_others_absent(s: Seq<u64>, id: u64)
    requires
        !s.contains(id),
    ensures
        others(s, id) == s,
{
    assert forall|i: int| 0 <= i < s.len() implies not_id(id)(s[i]) by {
        assert(s.contains(s[i]));
    }
    lemma_filter_keeps_all(s, not_id(id));
}

proof fn lemma_remove_is_others(s: Seq<u64>, i: int)
    requires
        s.no_duplicates(),
        0 <= i < s.len(),
    ensures
        s.remove(i) == others(s, s[i]),
{
    let id = s[i];
    let p = not_id(id);
    let a = s.subrange(0, i);
    let b = s.subrange(i + 1, s.len() as int);
    assert(s =~= a + seq![id] + b);
    assert(s.remove(i) =~= a + b);
    assert(!a.contains(id)) by {
        if a.contains(id) {
            let k = choose|k: int| 0 <= k < a.len() && a[k] == id;
            assert(s[k] == s[i]);
        }
    }
    assert(!b.contains(id)) by {
        if b.contains(id) {
            let k = choose|k: int| 0 <= k < b.len() && b[k] == id;
            assert(s[i + 1 + k] == s[i]);
        }
    }
    lemma_others_absent(a, id);
    lemma_others_absent(b, id);
    assert(seq![id].filter(p) =~= Seq::<u64>::empty()) by {
        reveal_with_fuel(Seq::filter, 2);
        assert(seq![id].drop_last() =~= Seq::<u64>::empty());
    }
    Seq::filter_distributes_over_add(a + seq![id], b, p);
    Seq::filter_distributes_over_add(a, seq![id], p);
}

impl Registry {
    /// The ids of the live connections, in the order they registered.
    pub closed spec fn ids(&self) -> Seq<u64> {
        self.entries@.map_values(|e: Entry| e.id)
    }

    /// For each live connection, the frames its queue accepted since it
    /// registered, in the order accepted.
    pub closed spec fn accepted(&self) -> Map<u64, Seq<FrameView>> {
        self.log@
    }

    pub closed spec fn wf(&self) -> bool {
        &&& self.ids().no_duplicates()
        &&& forall|id: u64| self.log@.dom().contains(id) <==> self.ids().contains(id)
    }

    /// `after` is this registry after a fan-out of `f` from `sender` that
    /// reported `report`: the same connections; every other one named once,
    /// in registration order; `f` appended for those whose queue accepted it.
    pub open spec fn relays(self, after: Registry, sender: u64, f: FrameView, report: Seq<Delivery>) -> bool {
        &&& after.ids() == self.ids()
        &&& targets(report) == others(self.ids(), sender)
        &&& after.accepted() == delivered(self.accepted(), report, f)
    }

    /// `after` is this registry with the connection `id` taken out.
    pub open spec fn unregisters(self, after: Registry, id: u64) -> bool {
        &&& after.ids() == others(self.ids(), id)
        &&& after.accepted() == self.accepted().remove(id)
    }

    /// A well-formed registry keeps an account for exactly its live
    /// connections, and no id twice.
    pub proof fn lemma_accounts_match(self)
        requires
            self.wf(),
        ensures
            self.ids().no_duplicates(),
            forall|id: u64| #[trigger] self.accepted().dom().contains(id) <==> self.ids().contains(id),
    {
    }

    /// An empty registry.
    pub fn new() -> (r: Registry)
        ensures
            r.wf(),
            r.ids() == Seq::<u64>::empty(),
            r.accepted() == Map::<u64, Seq<FrameView>>::empty(),
    {
        let r = Registry { entries: Vec::new(), log: Ghost(Map::empty()) };
        assert(r.ids() =~= Seq::<u64>::empty());
        r
    }

    /// The number of live connections.
    pub fn len(&self) -> (n: usize)
        ensures
            n == self.ids().len(),
    {
        self.entries.len()
    }

    /// Whether a connection with this id is registered.
    pub fn contains(&self, id: u64) -> (r: bool)
        ensures
            r == self.ids().contains(id),
    {
        let mut i: usize = 0;
        while i < self.entries.len()
            invariant
                i <= self.entries.len(),
                forall|j: int| 0 <= j < i ==> self.ids()[j] != id,
            decreases self.entries.len() - i,
        {
            if self.entries[i].id == id {
                assert(self.ids()[i as int] == id);
                return true;
            }
            i = i + 1;
        }
        false
    }

    /// An id that no live connection has: `candidate` itself when it is free.
    pub fn fresh_id(&self, candidate: u64) -> (id: u64)
        requires
            self.wf(),
        ensures
            !self.ids().contains(id),
            !self.ids().contains(candidate) ==> id == candidate,
    {
        if !self.contains(candidate) {
            return candidate;
        }
        let ghost ids = self.ids();
        let ghost wide = ids.map_values(|x: u64| x as int);
        proof {
            assert(wide.no_duplicates());
            wide.unique_seq_to_set();
        }
        let mut k: u64 = 0;
        loop
            invariant
                self.wf(),
                ids == self.ids(),
                wide == ids.map_values(|x: u64| x as int),
                wide.to_set().len() == ids.len(),
                ids.len() == self.entries.len(),
                ids.contains(candidate),
                k <= ids.len(),
                forall|j: u64| j < k ==> ids.contains(j),
            decreases ids.len() - k,
        {
            if !self.contains(k) {
                return k;
            }
            proof {
                assert(set_int_range(0, k + 1).subset_of(wide.to_set())) by {
                    assert forall|j: int| set_int_range(0, k + 1).contains(j) implies wide.to_set().contains(j) by {
                        assert(ids.contains(j as u64));
                        let idx = choose|idx: int| 0 <= idx < ids.len() && ids[idx] == j as u64;
                        assert(wide[idx] == j);
                    }
                }
                lemma_int_range(0, k + 1);
                lemma_len_subset(set_int_range(0, k + 1), wide.to_set());
                assert(k + 1 <= self.entries.len());
            }
            k = k + 1;
        }
    }

    /// Adds a connection under `id`. When `id` is already registered nothing
    /// changes and the producer is handed back.
    pub fn register(&mut self, id: u64, outbound: UnboundedSender<Frame>) -> (r: Result<(), UnboundedSender<Frame>>)
        requires
            old(self).wf(),
        ensures
            final(self).wf(),
            r is Err <==> old(self).ids().contains(id),
            r is Err ==> final(self).ids() == old(self).ids() && final(self).accepted() == old(self).accepted(),
            r is Ok ==> final(self).ids() == old(self).ids().push(id),
            r is Ok ==> final(self).accepted() == old(self).accepted().insert(id, Seq::<FrameView>::empty()),
    {
        if self.contains(id) {
            return Err(outbound);
        }
        let ghost ids0 = self.ids();
        self.entries.push(Entry { id, outbound });
        self.log = Ghost(self.log@.insert(id, Seq::empty()));
        assert(self.ids() =~= ids0.push(id));
        assert forall|i: int, j: int| 0 <= i < j < self.ids().len() implies self.ids()[i] != self.ids()[j] by {
            if j == ids0.len() {
                assert(ids0.contains(ids0[i]));
            }
        }
        assert forall|x: u64| self.log@.dom().contains(x) <==> self.ids().contains(x) by {
            if ids0.contains(x) {
                let i = choose|i: int| 0 <= i < ids0.len() && ids0[i] == x;
                assert(self.ids()[i] == x);
            }
            if x == id {
                assert(self.ids()[ids0.len() as int] == id);
            }
            if self.ids().contains(x) && x != id {
                let i = choose|i: int| 0 <= i < self.ids().len() && self.ids()[i] == x;
                assert(ids0[i] == x);
            }
        }
        Ok(())
    }

    /// Adds a connection under a fresh id, `candidate` when it is free.
    pub fn register_fresh(&mut self, candidate: u64, outbound: UnboundedSender<Frame>) -> (id: u64)
        requires
            old(self).wf(),
        ensures
            final(self).wf(),
            !old(self).ids().contains(id),
            !old(self).ids().contains(candidate) ==> id == candidate,
            final(self).ids() == old(self).ids().push(id),
            final(self).accepted() == old(self).accepted().insert(id, Seq::<FrameView>::empty()),
    {
        let id = self.fresh_id(candidate);
        let r = self.register(id, outbound);
        id
    }

    /// Adds a connection under a fresh id drawn at random.
    pub fn connect(&mut self, outbound: UnboundedSender<Frame>) -> (id: u64)
        requires
            old(self).wf(),
        ensures
            final(self).wf(),
            !old(self).ids().contains(id),
            final(self).ids() == old(self).ids().push(id),
            final(self).accepted() == old(self).accepted().insert(id, Seq::<FrameView>::empty()),
    {
        let candidate: u64 = rand::random::<u64>();
        self.register_fresh(candidate, outbound)
    }

    /// Removes the connection with this id, if one is registered; removing an
    /// absent id changes nothing. The removed producer is dropped, which
    /// closes the producer side of that connection's queue.
    pub fn unregister(&mut self, id: u64) -> (removed: bool)
        requires
            old(self).wf(),
        ensures
            final(self).wf(),
            removed == old(self).ids().contains(id),
            removed ==> final(self).ids().len() + 1 == old(self).ids().len(),
            old(self).unregisters(*final(self), id),
    {
        let ghost ids0 = self.ids();
        let mut i: usize = 0;
        while i < self.entries.len()
            invariant
                i <= self.entries.len(),
                self.wf(),
                ids0 == self.ids(),
                self.entries@ == old(self).entries@,
                self.log@ == old(self).log@,
                forall|j: int| 0 <= j < i ==> ids0[j] != id,
            decreases self.entries.len() - i,
        {
            if self.entries[i].id == id {
                let gone = self.entries.remove(i);
                self.log = Ghost(self.log@.remove(id));
                proof {
                    assert(ids0[i as int] == id);
                    assert(ids0.contains(id));
                    assert(self.ids() =~= ids0.remove(i as int));
                    lemma_remove_is_others(ids0, i as int);
                    assert forall|x: u64| self.log@.dom().contains(x) <==> self.ids().contains(x) by {
                        if self.ids().contains(x) {
                            let k = choose|k: int| 0 <= k < self.ids().len() && self.ids()[k] == x;
                            if k < i {
                                assert(ids0[k] == x);
                            } else {
                                assert(ids0[k + 1] == x);
                            }
                        }
                        if ids0.contains(x) && x != id {
                            let k = choose|k: int| 0 <= k < ids0.len() && ids0[k] == x;
                            if k < i {
                                assert(self.ids()[k] == x);
                            } else {
                                assert(self.ids()[k - 1] == x);
                            }
                        }
                    }
                }
                return true;
            }
            i = i + 1;
        }
        proof {
            assert(!ids0.contains(id));
            lemma_others_absent(ids0, id);
            assert(self.log@ =~= self.log@.remove(id));
        }
        false
    }

    /// Hands a copy of `frame` to the queue of every live connection that
    /// `exclude` does not name, in registration order, and reports for each
    /// whether its queue accepted it. A queue that refuses does not stop the
    /// fan-out.
    fn fan_out(&mut self, exclude: Option<u64>, frame: &Frame) -> (report: Vec<Delivery>)
        requires
            old(self).wf(),
        ensures
            final(self).wf(),
            final(self).ids() == old(self).ids(),
            targets(report@) == kept_ids(old(self).ids(), exclude),
            final(self).accepted() == delivered(old(self).accepted(), report@, frame@),
    {
        let ghost ids0 = self.ids();
        let ghost log0 = self.log@;
        let mut report: Vec<Delivery> = Vec::new();
        let mut i: usize = 0;
        proof {
            assert(kept_ids(ids0.subrange(0, 0), exclude) =~= Seq::<u64>::empty()) by {
                reveal(Seq::filter);
            }
            assert(targets(report@) =~= Seq::<u64>::empty());
            assert(delivered(log0, report@, frame@) =~= log0);
        }
        while i < self.entries.len()
            invariant
                i <= self.entries.len(),
                self.entries@ == old(self).entries@,
                ids0 == self.ids(),
                ids0.no_duplicates(),
                forall|id: u64| log0.dom().contains(id) <==> ids0.contains(id),
                targets(report@) == kept_ids(ids0.subrange(0, i as int), exclude),
                self.log@ == delivered(log0, report@, frame@),
            decreases self.entries.len() - i,
        {
            let id = self.entries[i].id;
            let ghost before = report@;
            proof {
                assert(ids0[i as int] == id);
                assert(ids0.subrange(0, i + 1) =~= ids0.subrange(0, i as int).push(id));
                ids0.subrange(0, i as int).lemma_filter_push(id, keeps(exclude));
                assert(!accepted_by(before, id)) by {
                    if accepted_by(before, id) {
                        let k = choose|k: int| 0 <= k < before.len() && before[k] == Delivery { id, accepted: true };
                        assert(targets(before)[k] == id);
                        assert(kept_ids(ids0.subrange(0, i as int), exclude).contains(id));
                        ids0.subrange(0, i as int).lemma_filter_contains_rev(keeps(exclude), id);
                        let j = choose|j: int| 0 <= j < i && ids0.subrange(0, i as int)[j] == id;
                        assert(ids0[j] == ids0[i as int]);
                    }
                }
            }
            proof {
                assert(ids0.contains(id));
            }
            if exclude != Some(id) {
                let accepted = enqueue(&self.entries[i].outbound, frame.duplicate());
                report.push(Delivery { id, accepted });
                if accepted {
                    self.log = Ghost(self.log@.insert(id, self.log@[id].push(frame@)));
                }
                proof {
                    assert(targets(report@) =~= targets(before).push(id));
                    assert forall|x: u64| accepted_by(report@, x) == (accepted_by(before, x) || (x == id && accepted)) by {
                        if accepted_by(report@, x) {
                            let k = choose|k: int| 0 <= k < report@.len() && report@[k] == Delivery { id: x, accepted: true };
                            if k < before.len() {
                                assert(before[k] == report@[k]);
                            }
                        }
                        if accepted_by(before, x) {
                            let k = choose|k: int| 0 <= k < before.len() && before[k] == Delivery { id: x, accepted: true };
                            assert(report@[k] == before[k]);
                        }
                        if x == id && accepted {
                            assert(report@[before.len() as int] == Delivery { id: x, accepted: true });
                        }
                    }
                    assert(self.log@ =~= delivered(log0, report@, frame@));
                }
            }
            i = i + 1;
        }
        proof {
            assert(ids0.subrange(0, i as int) =~= ids0);
        }
        report
    }

    /// Hands `frame` to every live connection but `sender`.
    pub fn broadcast_except(&mut self, sender: u64, frame: &Frame) -> (report: Vec<Delivery>)
        requires
            old(self).wf(),
        ensures
            final(self).wf(),
            old(self).relays(*final(self), sender, frame@, report@),
    {
        let report = self.fan_out(Some(sender), frame);
        proof {
            assert(keeps(Some(sender)) =~= not_id(sender));
            assert(kept_ids(old(self).ids(), Some(sender)) == others(old(self).ids(), sender));
        }
        report
    }

    /// Hands `frame` to every live connection.
    pub fn broadcast_all(&mut self, frame: &Frame) -> (report: Vec<Delivery>)
        requires
            old(self).wf(),
        ensures
            final(self).wf(),
            final(self).ids() == old(self).ids(),
            targets(report@) == old(self).ids(),
            final(self).accepted() == delivered(old(self).accepted(), report@, frame@),
    {
        let report = self.fan_out(None, frame);
        proof {
            lemma_filter_keeps_all(old(self).ids(), keeps(None));
        }
        report
    }
}

/// A broadcast from `sender` is handed to every other live connection, and
/// each of them whose queue accepted it has exactly that frame appended to
/// what it receives; the sender is never handed its own frame.
pub proof fn lemma_relay_reaches_others_only(
    before: Registry,
    after: Registry,
    sender: u64,
    f: FrameView,
    report: Seq<Delivery>,
)
    requires
        before.wf(),
        before.relays(after, sender, f, report),
    ensures
        forall|id: u64| #[trigger]
            before.ids().contains(id) && id != sender ==> targets(report).contains(id),
        !targets(report).contains(sender),
        forall|id: u64|
            before.ids().contains(id) && id != sender && #[trigger] accepted_by(report, id)
                ==> after.accepted()[id] == before.accepted()[id].push(f),
        before.ids().contains(sender) ==> after.accepted()[sender] == before.accepted()[sender],
{
    let ids = before.ids();
    assert forall|id: u64| #[trigger] ids.contains(id) && id != sender implies targets(report).contains(id) by {
        let k = choose|k: int| 0 <= k < ids.len() && ids[k] == id;
        ids.lemma_filter_contains(not_id(sender), k);
    }
    if targets(report).contains(sender) {
        ids.filter(not_id(sender)).lemma_contains_to_index(sender);
        let k = choose|k: int| 0 <= k < ids.filter(not_id(sender)).len() && ids.filter(not_id(sender))[k] == sender;
        ids.lemma_filter_pred(not_id(sender), k);
    }
    if before.ids().contains(sender) && accepted_by(report, sender) {
        let k = choose|k: int| 0 <= k < report.len() && report[k] == Delivery { id: sender, accepted: true };
        assert(targets(report)[k] == sender);
    }
}

/// Once a connection has left, later broadcasts are not handed to it, and
/// nothing more is counted as received by it.
pub proof fn lemma_departed_never_targeted(
    r0: Registry,
    r1: Registry,
    r2: Registry,
    departed: u64,
    sender: u64,
    f: FrameView,
    report: Seq<Delivery>,
)
    requires
        r0.wf(),
        r0.unregisters(r1, departed),
        r1.relays(r2, sender, f, report),
    ensures
        !targets(report).contains(departed),
        !r2.ids().contains(departed),
        !r2.accepted().dom().contains(departed),
{
    let ids = r0.ids();
    if ids.filter(not_id(departed)).contains(departed) {
        ids.filter(not_id(departed)).lemma_contains_to_index(departed);
        let k = choose|k: int| 0 <= k < ids.filter(not_id(departed)).len() && ids.filter(not_id(departed))[k] == departed;
        ids.lemma_filter_pred(not_id(departed), k);
    }
    let ids1 = r1.ids();
    if targets(report).contains(departed) {
        ids1.lemma_filter_contains_rev(not_id(sender), departed);
    }
}

/// Two broadcasts from one sender reach a connection whose queue accepted
/// both in the order they were sent.
pub proof fn lemma_sender_order_kept(
    r0: Registry,
    r1: Registry,
    r2: Registry,
    sender: u64,
    receiver: u64,
    m1: FrameView,
    m2: FrameView,
    report1: Seq<Delivery>,
    report2: Seq<Delivery>,
)
    requires
        r0.wf(),
        r0.ids().contains(receiver),
        r0.relays(r1, sender, m1, report1),
        r1.relays(r2, sender, m2, report2),
        accepted_by(report1, receiver),
        accepted_by(report2, receiver),
    ensures
        r2.accepted()[receiver] == r0.accepted()[receiver] + seq![m1, m2],
{
    assert(r0.accepted().dom().contains(receiver));
    assert(r0.accepted()[receiver].push(m1).push(m2) =~= r0.accepted()[receiver] + seq![m1, m2]);
}

} // verus!
