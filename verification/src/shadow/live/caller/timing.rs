//! Redirect attempts of a group and their times. Tombstones remain retained; a
//! new configuration does not reset the group's last accepted time.
use vstd::prelude::*;

use crate::charge;
use crate::go_time::GoTime;
use crate::ordered::OrderedMap;
use crate::shadow::live::{Batch, LiveEvent, Witness};
use crate::shadow::Event;

verus! {

/// The last attempt to redirect a session.
#[derive(Clone, Copy, Debug, PartialEq, Eq, Structural)]
pub struct Attempt {
    /// When it was made.
    pub time: GoTime,
    /// Latest accepted operation, equal to the independent lifecycle watermark.
    pub operation: u64,
    /// It was accepted and awaits its terminal.
    pub pending: bool,
    /// It was refused, or its terminal reported failure.
    pub failed: bool,
}

impl View for Attempt {
    type V = Attempt;

    open spec fn view(&self) -> Attempt {
        *self
    }
}

/// Scheduling history of one group.
pub struct Timing {
    /// Time of the last accepted redirect.
    pub last_accepted: Option<GoTime>,
    /// Last attempt of each session.
    pub attempts: OrderedMap<u64, Attempt>,
}

/// What [`Timing`] holds.
#[verifier::ext_equal]
pub struct TimingModel {
    /// Time of the last accepted redirect.
    pub last_accepted: Option<GoTime>,
    /// Last attempt of each session.
    pub attempts: Map<u64, Attempt>,
}

impl View for Timing {
    type V = TimingModel;

    open spec fn view(&self) -> TimingModel {
        TimingModel { last_accepted: self.last_accepted, attempts: self.attempts@ }
    }
}

impl Attempt {
    /// The attempt after a lifecycle event of its session. Closing retires a
    /// pending attempt; its own terminal also settles whether it failed.
    pub open spec fn settled(self, event: Event, witness: Witness) -> Attempt {
        match event {
            Event::Closed(_) => Attempt { pending: false, ..self },
            Event::Redirected { operation, success, .. } => if self.pending && self.operation
                == operation && witness.before.redirect_pending && !witness.after.redirect_pending {
                Attempt { pending: false, failed: !success, ..self }
            } else {
                self
            },
            _ => self,
        }
    }

    fn settle(self, event: Event, witness: &Witness) -> (r: Attempt)
        ensures
            r == self.settled(event, *witness),
    {
        let mut attempt = self;
        match event {
            Event::Closed(_) => {
                attempt.pending = false;
            },
            Event::Redirected { operation, success, .. } => {
                if attempt.pending && attempt.operation == operation
                    && witness.before.redirect_pending && !witness.after.redirect_pending {
                    attempt.pending = false;
                    attempt.failed = !success;
                }
            },
            _ => {},
        }
        attempt
    }
}

/// The session whose attempt a captured event ends, if it is such an event.
pub open spec fn terminal_of(event: LiveEvent) -> Option<(u64, Event)> {
    match event {
        LiveEvent::Lifecycle { event, .. } => match event {
            Event::Closed(session) => Some((session, event)),
            Event::Redirected { session, .. } => Some((session, event)),
            _ => None,
        },
        _ => None,
    }
}

impl TimingModel {
    /// No attempt.
    pub open spec fn empty() -> TimingModel {
        TimingModel { last_accepted: None, attempts: Map::empty() }
    }

    /// The retained bytes of the attempts.
    pub open spec fn entry_bytes(self) -> nat {
        charge::clamp(self.attempts.len() * charge::node_bytes::<(u64, Attempt)>())
    }

    /// The history after one captured event.
    pub open spec fn settled(self, event: LiveEvent, witness: Witness) -> TimingModel {
        match terminal_of(event) {
            Some((session, event)) => if self.attempts.contains_key(session) {
                TimingModel {
                    attempts: self.attempts.insert(
                        session,
                        self.attempts[session].settled(event, witness),
                    ),
                    ..self
                }
            } else {
                self
            },
            None => self,
        }
    }

    /// The history after the first captured events of a mutation.
    pub open spec fn settled_by(self, events: Seq<LiveEvent>, count: int, witness: Witness) -> TimingModel
        decreases count,
    {
        if count <= 0 {
            self
        } else {
            self.settled_by(events, count - 1, witness).settled(events[count - 1], witness)
        }
    }

    /// The history after a compared mutation. A mutation of a session that had
    /// already closed settles nothing.
    pub open spec fn after(self, batch: Batch) -> TimingModel {
        if batch.witness.before.closed {
            self
        } else {
            self.settled_by(batch.events@, batch.events@.len() as int, batch.witness)
        }
    }
}

/// The bytes of one attempt.
pub fn attempt_charge() -> (r: usize)
    ensures
        r == charge::node_bytes::<(u64, Attempt)>(),
{
    charge::node_charge::<(u64, Attempt)>()
}

impl Timing {
    /// The attempts form a map.
    pub open spec fn wf(&self) -> bool {
        self.attempts.wf()
    }

    /// No attempt.
    pub fn empty() -> (r: Self)
        ensures
            r.wf(),
            r@ == TimingModel::empty(),
    {
        Timing { last_accepted: None, attempts: OrderedMap::new() }
    }

    /// The retained bytes of the attempts.
    pub fn entry_charge(&self) -> (r: usize)
        requires
            self.wf(),
        ensures
            r == self@.entry_bytes(),
    {
        charge::times(self.attempts.len(), attempt_charge())
    }

    /// An equal history.
    pub fn duplicate(&self) -> (r: Self)
        requires
            self.wf(),
        ensures
            r.wf(),
            r@ == self@,
    {
        let mut attempts: OrderedMap<u64, Attempt> = OrderedMap::new();
        let mut index: usize = 0;
        proof {
            self.attempts.lemma_order();
        }
        while index < self.attempts.len()
            invariant
                self.wf(),
                attempts.wf(),
                index <= self.attempts.order().len(),
                forall|id: u64| #[trigger]
                    attempts@.contains_key(id) <==> self.attempts.order().take(index as int).contains(id),
                forall|id: u64| #[trigger]
                    attempts@.contains_key(id) ==> self.attempts@.contains_key(id) && attempts@[id]
                        == self.attempts@[id],
            decreases self.attempts.order().len() - index,
        {
            let id = self.attempts.key_at(index);
            let ghost order = self.attempts.order();
            let ghost was = attempts@;
            attempts.insert(id, *self.attempts.value_at(index));
            proof {
                assert(order.take(index + 1) =~= order.take(index as int).push(id));
                assert forall|k: u64| #[trigger] attempts@.contains_key(k) <==> order.take(
                    index + 1,
                ).contains(k) by {
                    if was.contains_key(k) {
                        let at = order.take(index as int).index_of(k);
                        assert(order.take(index + 1)[at] == k);
                    }
                    if k == id {
                        assert(order.take(index + 1)[index as int] == k);
                    }
                    if order.take(index + 1).contains(k) && k != id {
                        let at = order.take(index + 1).index_of(k);
                        assert(order.take(index as int)[at] == k);
                    }
                }
            }
            index = index + 1;
        }
        proof {
            assert(self.attempts.order().take(index as int) =~= self.attempts.order());
            assert(attempts@ =~= self.attempts@);
        }
        Timing { last_accepted: self.last_accepted, attempts }
    }

    fn settle_one(&mut self, event: LiveEvent, witness: &Witness)
        requires
            old(self).wf(),
        ensures
            final(self).wf(),
            final(self)@ == old(self)@.settled(event, *witness),
    {
        let ghost before = self@;
        if let LiveEvent::Lifecycle { event, .. } = event {
            let session: u64 = match event {
                Event::Closed(session) => session,
                Event::Redirected { session, .. } => session,
                _ => return ,
            };
            if let Some(attempt) = self.attempts.get_mut(session) {
                *attempt = attempt.settle(event, witness);
            }
        }
        assert(self@ =~= before.settled(event, *witness));
    }

    /// Settle attempts by a compared mutation. A completion changes the failure
    /// phase, never the attempt's own time or the group's last accepted time.
    pub fn settle(&mut self, batch: &Batch)
        requires
            old(self).wf(),
        ensures
            final(self).wf(),
            final(self)@ == old(self)@.after(*batch),
    {
        if batch.witness.before.closed {
            return;
        }
        let ghost before = self@;
        let mut index: usize = 0;
        while index < batch.events.len()
            invariant
                self.wf(),
                index <= batch.events@.len(),
                self@ == before.settled_by(batch.events@, index as int, batch.witness),
            decreases batch.events@.len() - index,
        {
            self.settle_one(batch.events[index], &batch.witness);
            index = index + 1;
        }
    }
}

/// A compared mutation never changes when an attempt was made, of which operation, or
/// when a redirect was last accepted, and forgets no attempt.
pub proof fn law_attempts_keep_their_times(timing: TimingModel, batch: Batch)
    ensures
        ({
            let after = timing.after(batch);
            &&& after.last_accepted == timing.last_accepted
            &&& after.attempts.dom() == timing.attempts.dom()
            &&& forall|id: u64| #[trigger]
                timing.attempts.contains_key(id) ==> after.attempts[id].time
                    == timing.attempts[id].time && after.attempts[id].operation
                    == timing.attempts[id].operation && (after.attempts[id].pending
                    ==> timing.attempts[id].pending)
        }),
{
    lemma_times(timing, batch.events@, batch.events@.len() as int, batch.witness);
}

proof fn lemma_times(timing: TimingModel, events: Seq<LiveEvent>, count: int, witness: Witness)
    ensures
        ({
            let after = timing.settled_by(events, count, witness);
            &&& after.last_accepted == timing.last_accepted
            &&& after.attempts.dom() == timing.attempts.dom()
            &&& forall|id: u64| #[trigger]
                timing.attempts.contains_key(id) ==> after.attempts[id].time
                    == timing.attempts[id].time && after.attempts[id].operation
                    == timing.attempts[id].operation && (after.attempts[id].pending
                    ==> timing.attempts[id].pending)
        }),
    decreases count,
{
    if count > 0 {
        lemma_times(timing, events, count - 1, witness);
        assert(timing.settled_by(events, count, witness).attempts.dom()
            =~= timing.attempts.dom());
    }
}

/// A mutation of one terminal settles the attempt of its own session and no other: the
/// terminal of the pending operation decides whether it failed, any other one leaves
/// it, and a close only ends the wait. A session that had closed before settles nothing.
pub proof fn law_terminal_settles_its_attempt(
    timing: TimingModel,
    batch: Batch,
    event: Event,
    source: u64,
    target: u64,
    session: u64,
    other: u64,
)
    requires
        batch.events@ == seq![LiveEvent::Lifecycle { event, source, target }],
        timing.attempts.contains_key(session),
        timing.attempts.contains_key(other),
    ensures
        ({
            let before = timing.attempts[session];
            let after = timing.after(batch).attempts[session];
            let completes = batch.witness.before.redirect_pending
                && !batch.witness.after.redirect_pending;
            &&& batch.witness.before.closed ==> timing.after(batch) == timing
            &&& event == Event::Closed(session) && !batch.witness.before.closed ==> !after.pending
                && after.failed == before.failed
            &&& event matches Event::Redirected { session: id, operation, success } ==> (id
                == session && !batch.witness.before.closed ==> if before.pending && before.operation
                == operation && completes {
                !after.pending && after.failed == !success
            } else {
                after == before
            })
            &&& !(event is Closed) && !(event is Redirected) ==> timing.after(batch) == timing
            &&& other != session && (event == Event::Closed(session) || (
            event matches Event::Redirected { session: id, .. } && id == session))
                ==> timing.after(batch).attempts[other] == timing.attempts[other]
        }),
{
    reveal_with_fuel(TimingModel::settled_by, 2);
    assert(batch.events@.len() == 1);
    assert(timing.settled_by(batch.events@, 1, batch.witness) == timing.settled(
        batch.events@[0],
        batch.witness,
    ));
}

proof fn lemma_settled_prefix(timing: TimingModel, a: Seq<LiveEvent>, b: Seq<LiveEvent>, count: int, witness: Witness)
    requires
        count <= a.len(),
    ensures
        timing.settled_by(a + b, count, witness) == timing.settled_by(a, count, witness),
    decreases count,
{
    if count > 0 {
        lemma_settled_prefix(timing, a, b, count - 1, witness);
        assert((a + b)[count - 1] == a[count - 1]);
    }
}

proof fn lemma_settled_on(timing: TimingModel, a: Seq<LiveEvent>, b: Seq<LiveEvent>, count: int, witness: Witness)
    requires
        0 <= count <= b.len(),
    ensures
        timing.settled_by(a + b, a.len() + count, witness) == timing.settled_by(
            a,
            a.len() as int,
            witness,
        ).settled_by(b, count, witness),
    decreases count,
{
    if count > 0 {
        lemma_settled_on(timing, a, b, count - 1, witness);
        assert((a + b)[a.len() + count - 1] == b[count - 1]);
    } else {
        lemma_settled_prefix(timing, a, b, a.len() as int, witness);
    }
}

/// Every event of a mutation settles, one after the other: two runs of events settle
/// what the first and then the second settle.
pub proof fn law_events_settle_one_after_another(
    timing: TimingModel,
    a: Seq<LiveEvent>,
    b: Seq<LiveEvent>,
    witness: Witness,
)
    ensures
        timing.settled_by(a + b, (a + b).len() as int, witness) == timing.settled_by(
            a,
            a.len() as int,
            witness,
        ).settled_by(b, b.len() as int, witness),
        timing.settled_by(Seq::empty(), 0, witness) == timing,
{
    lemma_settled_on(timing, a, b, b.len() as int, witness);
}

/// A history that is called with a mutation settles what the mutation settles.
pub proof fn law_calls_settle(timing: &mut Timing, batch: &Batch, r: ())
    requires
        call_ensures(Timing::settle, (timing, batch), r),
    ensures
        final(timing)@ == old(timing)@.after(*batch),
{
}

} // verus!
