//! Effectless migration harness. Its queue carries local tokens only, never
//! production session commands.
use vstd::prelude::*;

use crate::selector::balance::PreparedRedirect;
use crate::selector::RouteError;

verus! {

/// A bounded queue of simulated admissions. Every redirect belongs solely to
/// this simulation.
pub struct MigrationSimulation {
    capacity: usize,
    queue: Vec<PreparedRedirect>,
}

/// The admissions after an offer whose validation passed or did not.
pub open spec fn offered(
    pending: Seq<PreparedRedirect>,
    limit: usize,
    prepared: PreparedRedirect,
    valid: bool,
) -> Seq<PreparedRedirect> {
    if valid && pending.len() < limit {
        pending.push(prepared)
    } else {
        pending
    }
}

/// The admissions after one was taken.
pub open spec fn taken(pending: Seq<PreparedRedirect>) -> Seq<PreparedRedirect> {
    if pending.len() == 0 {
        pending
    } else {
        pending.skip(1)
    }
}

impl MigrationSimulation {
    /// The admissions that were not yet taken, oldest first.
    pub closed spec fn pending(&self) -> Seq<PreparedRedirect> {
        self.queue@
    }

    /// How many admissions the queue holds at most.
    pub closed spec fn limit(&self) -> usize {
        self.capacity
    }

    /// The queue keeps its bound.
    pub open spec fn wf(&self) -> bool {
        self.pending().len() <= self.limit()
    }

    /// Creates a private queue. Zero queue capacity rejects every simulated
    /// offer without advancing accepted state.
    pub fn new(queue_capacity: usize) -> (r: Self)
        ensures
            r.wf(),
            r.limit() == queue_capacity,
            r.pending() == Seq::<PreparedRedirect>::empty(),
    {
        MigrationSimulation { capacity: queue_capacity, queue: Vec::new() }
    }

    /// Tries one bounded offer after its final validation. `false` means queue
    /// rejection.
    ///
    /// # Errors
    /// A refused validation admits nothing.
    pub fn offer(&mut self, prepared: PreparedRedirect, validation: Result<(), RouteError>) -> (r: Result<
        bool,
        RouteError,
    >)
        requires
            old(self).wf(),
        ensures
            final(self).wf(),
            final(self).limit() == old(self).limit(),
            final(self).pending() == offered(
                old(self).pending(),
                old(self).limit(),
                prepared,
                validation is Ok,
            ),
            match validation {
                Err(error) => r == Err::<bool, RouteError>(error) && final(self).pending() == old(
                    self,
                ).pending(),
                Ok(_) => if old(self).pending().len() < old(self).limit() {
                    r == Ok::<bool, RouteError>(true) && final(self).pending() == old(
                        self,
                    ).pending().push(prepared)
                } else {
                    r == Ok::<bool, RouteError>(false) && final(self).pending() == old(
                        self,
                    ).pending()
                },
            },
    {
        if let Err(error) = validation {
            return Err(error);
        }
        if self.queue.len() >= self.capacity {
            return Ok(false);
        }
        self.queue.push(prepared);
        Ok(true)
    }

    /// Removes one local simulated admission, without performing any I/O.
    pub fn take_redirect(&mut self) -> (r: Option<PreparedRedirect>)
        requires
            old(self).wf(),
        ensures
            final(self).wf(),
            final(self).limit() == old(self).limit(),
            final(self).pending() == taken(old(self).pending()),
            if old(self).pending().len() == 0 {
                r is None && final(self).pending() == old(self).pending()
            } else {
                r == Some(old(self).pending()[0]) && final(self).pending() == old(
                    self,
                ).pending().skip(1)
            },
    {
        if self.queue.len() == 0 {
            return None;
        }
        let ghost before = self.queue@;
        let taken = self.queue.remove(0);
        assert(self.queue@ =~= before.skip(1));
        Some(taken)
    }
}

/// The queue after offers that all passed their validation.
pub open spec fn offered_all(
    pending: Seq<PreparedRedirect>,
    limit: usize,
    offers: Seq<PreparedRedirect>,
) -> Seq<PreparedRedirect>
    decreases offers.len(),
{
    if offers.len() == 0 {
        pending
    } else {
        offered(offered_all(pending, limit, offers.drop_last()), limit, offers.last(), true)
    }
}

/// The queue after so many admissions were taken.
pub open spec fn taken_all(pending: Seq<PreparedRedirect>, count: nat) -> Seq<PreparedRedirect>
    decreases count,
{
    if count == 0 {
        pending
    } else {
        taken(taken_all(pending, (count - 1) as nat))
    }
}

/// A queue admits the first offers up to its capacity, rejects the rest, and
/// hands out what it admitted in the order in which it was offered.
pub proof fn law_admissions_leave_in_order(limit: usize, offers: Seq<PreparedRedirect>, count: nat)
    requires
        count < offers.len(),
        count < limit,
    ensures
        taken_all(offered_all(Seq::empty(), limit, offers), count).len() == if offers.len() < limit {
            offers.len() - count
        } else {
            limit - count
        },
        taken_all(offered_all(Seq::empty(), limit, offers), count)[0] == offers[count as int],
{
    lemma_offered_all(limit, offers);
    lemma_taken_all(offered_all(Seq::empty(), limit, offers), count);
}

proof fn lemma_offered_all(limit: usize, offers: Seq<PreparedRedirect>)
    ensures
        offered_all(Seq::empty(), limit, offers) == if offers.len() < limit {
            offers
        } else {
            offers.take(limit as int)
        },
    decreases offers.len(),
{
    if offers.len() != 0 {
        let before = offers.drop_last();
        lemma_offered_all(limit, before);
        let all = offered_all(Seq::empty(), limit, offers);
        if offers.len() <= limit {
            assert(before.push(offers.last()) =~= offers);
            assert(offers.take(limit as int) =~= offers || offers.len() < limit);
        } else {
            assert(before.take(limit as int) =~= offers.take(limit as int));
        }
    } else {
        assert(offers =~= Seq::empty());
        assert(offers.len() < limit || offers.take(0) =~= Seq::empty());
    }
}

proof fn lemma_taken_all(pending: Seq<PreparedRedirect>, count: nat)
    requires
        count <= pending.len(),
    ensures
        taken_all(pending, count) == pending.skip(count as int),
    decreases count,
{
    if count != 0 {
        lemma_taken_all(pending, (count - 1) as nat);
        assert(pending.skip(count - 1).skip(1) =~= pending.skip(count as int));
    } else {
        assert(pending.skip(0) =~= pending);
    }
}

/// An offer whose validation was refused leaves the queue as it was, and a full
/// queue stays as it was whatever is offered.
pub proof fn law_refused_offers_change_nothing(
    pending: Seq<PreparedRedirect>,
    limit: usize,
    prepared: PreparedRedirect,
    valid: bool,
)
    requires
        !valid || pending.len() >= limit,
    ensures
        offered(pending, limit, prepared, valid) == pending,
{
}

/// A queue with room takes a valid offer behind every other; a full one rejects it;
/// and an invalid one is refused with its reason. What is taken is the oldest.
pub proof fn law_queue_is_first_in_first_out(
    offering: &mut MigrationSimulation,
    prepared: PreparedRedirect,
    validation: Result<(), RouteError>,
    accepted: Result<bool, RouteError>,
    taking: &mut MigrationSimulation,
    got: Option<PreparedRedirect>,
)
    requires
        call_ensures(MigrationSimulation::offer, (offering, prepared, validation), accepted),
        call_ensures(MigrationSimulation::take_redirect, (taking,), got),
    ensures
        accepted == Ok::<bool, RouteError>(true) <==> validation is Ok
            && old(offering).pending().len() < old(offering).limit(),
        accepted == Ok::<bool, RouteError>(true) ==> final(offering).pending()
            == old(offering).pending() + seq![prepared],
        accepted != Ok::<bool, RouteError>(true) ==> final(offering).pending()
            == old(offering).pending(),
        validation matches Err(error) ==> accepted == Err::<bool, RouteError>(error),
        got is None <==> old(taking).pending().len() == 0,
        got matches Some(first) ==> old(taking).pending() == seq![first] + final(taking).pending(),
        got is None ==> final(taking).pending() == old(taking).pending(),
{
    assert(old(offering).pending().push(prepared) =~= old(offering).pending() + seq![prepared]);
    if let Some(first) = got {
        assert(old(taking).pending() =~= seq![first] + old(taking).pending().skip(1));
    }
}

} // verus!
