//! Failover masks, timed-out owners, and the per-round order of offers and
//! closes.
use vstd::prelude::*;

use super::balance::MetricUse;
use super::{Member, RouteError};
use crate::shadow::native::Factor;
use crate::slices;

verus! {

/// The backends of one group.
#[derive(Clone, Debug)]
pub struct GroupMembers {
    /// Group.
    pub group: u64,
    /// Its backends in order.
    pub members: Vec<Member>,
}

/// Which history a scoring pass extends.
#[derive(Clone, Copy, Debug, PartialEq, Eq, Structural)]
pub enum FactorSource {
    /// The last observations are kept: no current metric publication.
    Retained,
    /// The factors of a connection policy, which read no metrics.
    Connection,
    /// The current metric publication.
    Metrics,
}

/// The scoring passes of one group: all observed healthy members, then the
/// proposed mask where the group can route.
#[derive(Clone, Debug)]
pub struct Scoring {
    /// Group.
    pub group: u64,
    /// Which history is extended.
    pub source: FactorSource,
    /// Observed healthy backends.
    pub observed: Vec<u64>,
    /// Health of each observed backend under the proposed mask.
    pub proposed: Option<Vec<bool>>,
}

/// What [`Scoring`] holds.
#[verifier::ext_equal]
pub struct ScoringModel {
    /// Group.
    pub group: u64,
    /// Which history is extended.
    pub source: FactorSource,
    /// Observed healthy backends.
    pub observed: Seq<u64>,
    /// Health of each observed backend under the proposed mask.
    pub proposed: Option<Seq<bool>>,
}

impl View for Scoring {
    type V = ScoringModel;

    open spec fn view(&self) -> ScoringModel {
        ScoringModel {
            group: self.group,
            source: self.source,
            observed: self.observed@,
            proposed: match self.proposed {
                Some(proposed) => Some(proposed@),
                None => None,
            },
        }
    }
}

/// The healthy ones of the first members.
pub open spec fn observed(members: Seq<Member>, count: int) -> Seq<u64>
    decreases count,
{
    if count <= 0 {
        seq![]
    } else if members[count - 1].healthy {
        observed(members, count - 1).push(members[count - 1].id)
    } else {
        observed(members, count - 1)
    }
}

/// Whether each healthy one of the first members is not failed.
pub open spec fn proposed(members: Seq<Member>, count: int) -> Seq<bool>
    decreases count,
{
    if count <= 0 {
        seq![]
    } else if members[count - 1].healthy {
        proposed(members, count - 1).push(!members[count - 1].failed)
    } else {
        proposed(members, count - 1)
    }
}

/// The failed ones of the first members.
pub open spec fn failed_ids(members: Seq<Member>, count: int) -> Seq<u64>
    decreases count,
{
    if count <= 0 {
        seq![]
    } else if members[count - 1].failed {
        failed_ids(members, count - 1).push(members[count - 1].id)
    } else {
        failed_ids(members, count - 1)
    }
}

/// Which history a policy's scoring extends.
pub open spec fn source_of(connection: bool, metrics: MetricUse) -> FactorSource {
    if connection {
        FactorSource::Connection
    } else if metrics is Current {
        FactorSource::Metrics
    } else {
        FactorSource::Retained
    }
}

/// The scoring passes of a group.
pub open spec fn scoring_of(group: u64, members: Seq<Member>, connection: bool, metrics: MetricUse) -> ScoringModel {
    ScoringModel {
        group,
        source: source_of(connection, metrics),
        observed: observed(members, members.len() as int),
        proposed: if super::has_routeable(members) {
            Some(proposed(members, members.len() as int))
        } else {
            None
        },
    }
}

/// The scoring passes of the first groups; a group without a healthy member has
/// none.
pub open spec fn scorings(groups: Seq<GroupMembers>, count: int, connection: bool, metrics: MetricUse) -> Seq<
    ScoringModel,
>
    decreases count,
{
    if count <= 0 {
        seq![]
    } else {
        let members = groups[count - 1].members@;
        let before = scorings(groups, count - 1, connection, metrics);
        if observed(members, members.len() as int).len() == 0 {
            before
        } else {
            before.push(scoring_of(groups[count - 1].group, members, connection, metrics))
        }
    }
}

/// The backends of the first groups whose failure takes effect.
pub open spec fn effective(groups: Seq<GroupMembers>, count: int) -> Seq<u64>
    decreases count,
{
    if count <= 0 {
        seq![]
    } else {
        let members = groups[count - 1].members@;
        let before = effective(groups, count - 1);
        if super::ignores_failed(members) {
            before
        } else {
            before + failed_ids(members, members.len() as int)
        }
    }
}

/// What a failover refresh changes.
#[derive(Clone, Debug)]
pub struct FailoverUpdate {
    /// Scoring passes, in group order.
    pub scorings: Vec<Scoring>,
    /// Backends whose failure takes effect.
    pub effective: Vec<u64>,
}

/// The views of some scorings.
pub open spec fn views(list: Seq<Scoring>) -> Seq<ScoringModel> {
    list.map_values(|scoring: Scoring| scoring@)
}

fn score_group(group: &GroupMembers, connection: bool, metrics: MetricUse) -> (r: Option<Scoring>)
    ensures
        ({
            let members = group.members@;
            if observed(members, members.len() as int).len() == 0 {
                r is None
            } else {
                r is Some && r->0@ == scoring_of(group.group, members, connection, metrics)
            }
        }),
{
    let members = &group.members;
    let mut list: Vec<u64> = Vec::new();
    let mut mask: Vec<bool> = Vec::new();
    let mut index: usize = 0;
    while index < members.len()
        invariant
            index <= members@.len(),
            list@ == observed(members@, index as int),
            mask@ == proposed(members@, index as int),
        decreases members@.len() - index,
    {
        let member = members[index];
        if member.healthy {
            list.push(member.id);
            mask.push(!member.failed);
        }
        index = index + 1;
    }
    if list.len() == 0 {
        return None;
    }
    let source = if connection {
        FactorSource::Connection
    } else {
        match metrics {
            MetricUse::Current => FactorSource::Metrics,
            MetricUse::Absent => FactorSource::Retained,
        }
    };
    let proposal = if super::can_route(members) {
        Some(mask)
    } else {
        None
    };
    Some(Scoring { group: group.group, source, observed: list, proposed: proposal })
}

fn add_failed(members: &Vec<Member>, list: &mut Vec<u64>)
    ensures
        final(list)@ == old(list)@ + failed_ids(members@, members@.len() as int),
{
    let ghost before = list@;
    let mut index: usize = 0;
    assert(list@ =~= before + failed_ids(members@, 0));
    while index < members.len()
        invariant
            index <= members@.len(),
            list@ == before + failed_ids(members@, index as int),
        decreases members@.len() - index,
    {
        if members[index].failed {
            list.push(members[index].id);
        }
        assert(list@ =~= before + failed_ids(members@, index + 1));
        index = index + 1;
    }
}

/// Prepare a failover refresh. Every observed healthy member of a group is
/// scored, then the proposed mask, even where that mask is unchanged. A group
/// whose every routeable backend is failed keeps routing to them.
pub fn prepare_failover(groups: &Vec<GroupMembers>, connection: bool, metrics: MetricUse) -> (r: FailoverUpdate)
    ensures
        views(r.scorings@) == scorings(groups@, groups@.len() as int, connection, metrics),
        r.effective@ == effective(groups@, groups@.len() as int),
{
    let mut passes: Vec<Scoring> = Vec::new();
    let mut ids: Vec<u64> = Vec::new();
    let mut index: usize = 0;
    assert(views(passes@) =~= scorings(groups@, 0, connection, metrics));
    while index < groups.len()
        invariant
            index <= groups@.len(),
            views(passes@) == scorings(groups@, index as int, connection, metrics),
            ids@ == effective(groups@, index as int),
        decreases groups@.len() - index,
    {
        let group = &groups[index];
        let ghost was = passes@;
        if let Some(scoring) = score_group(group, connection, metrics) {
            passes.push(scoring);
            assert(views(passes@) =~= views(was).push(scoring@));
        }
        if !super::ignore_failed(&group.members) {
            add_failed(&group.members, &mut ids);
        }
        index = index + 1;
    }
    FailoverUpdate { scorings: passes, effective: ids }
}

proof fn lemma_failed_ids(members: Seq<Member>, count: int, id: u64)
    requires
        0 <= count <= members.len(),
    ensures
        failed_ids(members, count).contains(id) <==> exists|i: int|
            0 <= i < count && (#[trigger] members[i]).failed && members[i].id == id,
    decreases count,
{
    if count > 0 {
        lemma_failed_ids(members, count - 1, id);
        let before = failed_ids(members, count - 1);
        let last = members[count - 1];
        if last.failed {
            assert(before.push(last.id).contains(id) <==> before.contains(id) || last.id == id) by {
                if before.contains(id) {
                    let at = before.index_of(id);
                    assert(before.push(last.id)[at] == id);
                }
                if last.id == id {
                    assert(before.push(last.id)[before.len() as int] == id);
                }
            }
        }
    }
}

/// A failure takes effect exactly where some group has the failed backend and
/// does not ignore its failures.
pub proof fn law_effective_failures(groups: Seq<GroupMembers>, count: int, id: u64)
    requires
        0 <= count <= groups.len(),
    ensures
        effective(groups, count).contains(id) <==> exists|g: int, i: int|
            #![trigger groups[g].members@[i]]
            0 <= g < count && 0 <= i < groups[g].members@.len() && !super::ignores_failed(
                groups[g].members@,
            ) && groups[g].members@[i].failed && groups[g].members@[i].id == id,
    decreases count,
{
    if count > 0 {
        law_effective_failures(groups, count - 1, id);
        let members = groups[count - 1].members@;
        lemma_failed_ids(members, members.len() as int, id);
        let before = effective(groups, count - 1);
        if !super::ignores_failed(members) {
            let more = failed_ids(members, members.len() as int);
            assert((before + more).contains(id) <==> before.contains(id) || more.contains(id)) by {
                if before.contains(id) {
                    let at = before.index_of(id);
                    assert((before + more)[at] == id);
                }
                if more.contains(id) {
                    let at = more.index_of(id);
                    assert((before + more)[before.len() + at] == id);
                }
            }
            if more.contains(id) {
                let i = choose|i: int|
                    0 <= i < members.len() && (#[trigger] members[i]).failed && members[i].id == id;
                assert(groups[count - 1].members@[i].failed);
            }
        }
    }
}

/// The failover clock of one backend.
#[derive(Clone, Copy, Debug, PartialEq, Eq, Structural)]
pub struct FailoverClock {
    /// Backend.
    pub id: u64,
    /// Its group, while it has one.
    pub group: Option<u64>,
    /// Account that owns its sessions.
    pub account: u64,
    /// Since when its failure has been in effect, in nanoseconds.
    pub since: Option<u64>,
}

impl FailoverClock {
    /// The clock after an update: a failure that stays in effect keeps its
    /// start, one that ends is forgotten.
    pub open spec fn updated(self, effective: Seq<u64>, now: u64) -> FailoverClock {
        FailoverClock {
            since: if effective.contains(self.id) {
                match self.since {
                    Some(since) => Some(since),
                    None => Some(now),
                }
            } else {
                None
            },
            ..self
        }
    }

    /// Whether a failure has been in effect for so many seconds.
    pub open spec fn timed_out(self, group: u64, now: u64, timeout_seconds: u64) -> bool {
        &&& self.group == Some(group)
        &&& self.since matches Some(since) && (if now > since {
            now - since
        } else {
            0
        }) >= timeout_seconds * 1_000_000_000
    }
}

/// Update the failover clocks.
pub fn apply_failover(backends: &mut Vec<FailoverClock>, effective: &Vec<u64>, now: u64)
    ensures
        final(backends)@ == old(backends)@.map_values(
            |clock: FailoverClock| clock.updated(effective@, now),
        ),
{
    let ghost before = backends@;
    let ghost after = before.map_values(|clock: FailoverClock| clock.updated(effective@, now));
    let mut index: usize = 0;
    while index < backends.len()
        invariant
            index <= backends@.len(),
            backends@.len() == before.len(),
            after == before.map_values(|clock: FailoverClock| clock.updated(effective@, now)),
            forall|i: int| 0 <= i < index ==> backends@[i] == after[i],
            forall|i: int| index <= i < before.len() ==> backends@[i] == before[i],
        decreases backends@.len() - index,
    {
        let clock = backends[index];
        let since = if slices::holds(effective.as_slice(), clock.id) {
            match clock.since {
                Some(since) => Some(since),
                None => Some(now),
            }
        } else {
            None
        };
        backends.set(
            index,
            FailoverClock { id: clock.id, group: clock.group, account: clock.account, since },
        );
        index = index + 1;
    }
    assert(backends@ =~= after);
}

/// A refresh that finds the same failures restarts no clock.
pub proof fn law_failover_clock_is_kept(clock: FailoverClock, effective: Seq<u64>, now: u64, later: u64)
    ensures
        clock.updated(effective, now).updated(effective, later) == clock.updated(effective, now),
{
}

/// The timed-out owners among the first backends.
pub open spec fn owners_timed_out(
    backends: Seq<FailoverClock>,
    count: int,
    group: u64,
    now: u64,
    timeout_seconds: u64,
) -> Seq<u64>
    decreases count,
{
    if count <= 0 {
        seq![]
    } else if backends[count - 1].timed_out(group, now, timeout_seconds) {
        owners_timed_out(backends, count - 1, group, now, timeout_seconds).push(
            backends[count - 1].account,
        )
    } else {
        owners_timed_out(backends, count - 1, group, now, timeout_seconds)
    }
}

/// The owners of a group whose failure has outlasted the timeout.
pub fn timed_out_owners(
    backends: &Vec<FailoverClock>,
    group: u64,
    now: u64,
    timeout_seconds: u64,
) -> (r: Vec<u64>)
    ensures
        r@ == owners_timed_out(backends@, backends@.len() as int, group, now, timeout_seconds),
{
    let mut owners: Vec<u64> = Vec::new();
    let mut index: usize = 0;
    while index < backends.len()
        invariant
            index <= backends@.len(),
            owners@ == owners_timed_out(backends@, index as int, group, now, timeout_seconds),
        decreases backends@.len() - index,
    {
        let clock = backends[index];
        if clock.group == Some(group) {
            if let Some(since) = clock.since {
                let elapsed: u64 = now.saturating_sub(since);
                if elapsed as u128 >= timeout_seconds as u128 * 1_000_000_000 {
                    owners.push(clock.account);
                }
            }
        }
        index = index + 1;
    }
    owners
}

/// The position of a round in the offers of one group.
#[derive(Clone, Copy, Debug, PartialEq, Eq, Structural)]
pub struct OfferScan {
    /// Prepared redirects.
    pub total: usize,
    /// Offers that may be accepted.
    pub budget: usize,
    /// The next offer.
    pub next: usize,
    /// Accepted offers.
    pub accepted: usize,
}

impl OfferScan {
    /// No more was accepted than offered or budgeted.
    pub open spec fn wf(self) -> bool {
        self.next <= self.total && self.accepted <= self.next && self.accepted <= self.budget
    }

    /// Before the first offer.
    pub fn new(total: usize, budget: usize) -> (r: Self)
        ensures
            r.wf(),
            r == (OfferScan { total, budget, next: 0, accepted: 0 }),
    {
        OfferScan { total, budget, next: 0, accepted: 0 }
    }

    /// Whether a refused offer only passes its session over.
    pub open spec fn passes(error: RouteError) -> bool {
        error is RedirectPending || error is CoolingDown || error is ForceClosing
            || error is NotActive
    }

    /// The scan after the outcome of an offer, and whether it was accepted; any
    /// refusal that is not the session's own is passed on.
    pub open spec fn after(self, outcome: Result<bool, RouteError>) -> Result<(OfferScan, bool), RouteError> {
        match outcome {
            Ok(accepted) => Ok(
                (
                    OfferScan {
                        next: (self.next + 1) as usize,
                        accepted: (self.accepted + (if accepted {
                            1int
                        } else {
                            0int
                        })) as usize,
                        ..self
                    },
                    accepted,
                ),
            ),
            Err(error) => if OfferScan::passes(error) {
                Ok((OfferScan { next: (self.next + 1) as usize, ..self }, false))
            } else {
                Err(error)
            },
        }
    }

    /// Take the outcome of the last offer. An accepted one counts against the
    /// budget.
    ///
    /// # Errors
    /// Any refusal that is not the session's own.
    pub fn offered(&mut self, outcome: Result<bool, RouteError>) -> (r: Result<bool, RouteError>)
        requires
            old(self).wf(),
            old(self).next < old(self).total,
            old(self).accepted < old(self).budget,
        ensures
            final(self).wf(),
            match old(self).after(outcome) {
                Ok((next, accepted)) => r == Ok::<bool, RouteError>(accepted) && *final(self)
                    == next,
                Err(error) => r == Err::<bool, RouteError>(error) && *final(self) == *old(self),
            },
    {
        let accepted = match outcome {
            Ok(accepted) => accepted,
            Err(error) => match error {
                RouteError::RedirectPending
                | RouteError::CoolingDown
                | RouteError::ForceClosing
                | RouteError::NotActive => false,
                _ => return Err(error),
            },
        };
        self.next = self.next + 1;
        if accepted {
            self.accepted = self.accepted + 1;
        }
        Ok(accepted)
    }
}

/// The closes of a group after one was sent: only an accepted one counts.
pub fn closes_after(closes: u64, accepted: bool) -> (r: u64)
    ensures
        r == (if accepted && closes < u64::MAX {
            (closes + 1) as u64
        } else {
            closes
        }),
{
    if accepted {
        closes.saturating_add(1)
    } else {
        closes
    }
}

/// A backend as a refusal record names it.
#[derive(Clone, Debug)]
pub struct RefusalParty {
    /// Backend.
    pub id: u64,
    /// Account that owns its sessions.
    pub account: u64,
    /// Its group, while it has one.
    pub group: Option<u64>,
    /// Its keyspace.
    pub keyspace: String,
}

/// A refused cross-keyspace pair.
#[derive(Clone, Debug)]
pub struct KeyspaceRefusal {
    /// Group of the source.
    pub group: u64,
    /// Source backend.
    pub from: u64,
    /// Target backend.
    pub to: u64,
    /// Keyspace of the source.
    pub from_keyspace: String,
    /// Keyspace of the target.
    pub to_keyspace: String,
    /// Factor that chose the pair, if a factor did.
    pub reason: Option<Factor>,
    /// Physical connections of the source.
    pub physical_connections: u64,
    /// Refusals that earlier records of the group stand for.
    pub refusals: u64,
}

/// The first backend that an account owns.
pub open spec fn owner_at(backends: Seq<RefusalParty>, account: u64, count: int) -> Option<int>
    decreases count,
{
    if count <= 0 {
        None
    } else {
        match owner_at(backends, account, count - 1) {
            Some(at) => Some(at),
            None => if backends[count - 1].account == account {
                Some(count - 1)
            } else {
                None
            },
        }
    }
}

/// The first backend with an identity.
pub open spec fn backend_at(backends: Seq<RefusalParty>, id: u64, count: int) -> Option<int>
    decreases count,
{
    if count <= 0 {
        None
    } else {
        match backend_at(backends, id, count - 1) {
            Some(at) => Some(at),
            None => if backends[count - 1].id == id {
                Some(count - 1)
            } else {
                None
            },
        }
    }
}

/// Record a refused cross-keyspace pair: nothing where the source is gone or
/// has no group, or where the target is gone.
pub fn keyspace_refusal(
    backends: &Vec<RefusalParty>,
    source: u64,
    target_id: u64,
    reason: Option<Factor>,
    physical_connections: u64,
) -> (r: Option<KeyspaceRefusal>)
    ensures
        match (
            owner_at(backends@, source, backends@.len() as int),
            backend_at(backends@, target_id, backends@.len() as int),
        ) {
            (Some(from), Some(to)) => match backends@[from].group {
                Some(group) => {
                    &&& r is Some
                    &&& r->0.group == group
                    &&& r->0.from == backends@[from].id
                    &&& r->0.to == backends@[to].id
                    &&& r->0.from_keyspace@ == backends@[from].keyspace@
                    &&& r->0.to_keyspace@ == backends@[to].keyspace@
                    &&& r->0.reason == reason
                    &&& r->0.physical_connections == physical_connections
                    &&& r->0.refusals == 0
                },
                None => r is None,
            },
            _ => r is None,
        },
{
    let mut from: Option<usize> = None;
    let mut to: Option<usize> = None;
    let mut index: usize = 0;
    while index < backends.len()
        invariant
            index <= backends@.len(),
            match owner_at(backends@, source, index as int) {
                Some(at) => from == Some(at as usize) && 0 <= at < index,
                None => from is None,
            },
            match backend_at(backends@, target_id, index as int) {
                Some(at) => to == Some(at as usize) && 0 <= at < index,
                None => to is None,
            },
        decreases backends@.len() - index,
    {
        if from.is_none() && backends[index].account == source {
            from = Some(index);
        }
        if to.is_none() && backends[index].id == target_id {
            to = Some(index);
        }
        index = index + 1;
    }
    match (from, to) {
        (Some(from), Some(to)) => match backends[from].group {
            Some(group) => Some(
                KeyspaceRefusal {
                    group,
                    from: backends[from].id,
                    to: backends[to].id,
                    from_keyspace: backends[from].keyspace.clone(),
                    to_keyspace: backends[to].keyspace.clone(),
                    reason,
                    physical_connections,
                    refusals: 0,
                },
            ),
            None => None,
        },
        _ => None,
    }
}

/// A failover update scores the healthy members of a group in their order, first as
/// observed and then with the failed ones masked; the second pass takes a member that
/// could be routed to.
pub proof fn law_scoring_takes_the_healthy(
    group: u64,
    members: Seq<Member>,
    connection: bool,
    metrics: MetricUse,
)
    ensures
        ({
            let scoring = scoring_of(group, members, connection, metrics);
            let healthy = members.filter(|member: Member| member.healthy);
            &&& scoring.group == group
            &&& scoring.observed == healthy.map_values(|member: Member| member.id)
            &&& scoring.proposed is Some <==> exists|i: int|
                0 <= i < members.len() && (#[trigger] members[i]).healthy && members[i].label_matches
            &&& scoring.proposed matches Some(mask) ==> mask == healthy.map_values(
                |member: Member| !member.failed,
            )
            &&& scoring.source is Connection <==> connection
            &&& scoring.source is Metrics <==> !connection && metrics is Current
        }),
{
    lemma_healthy(members, members.len() as int);
    assert(members.take(members.len() as int) =~= members);
    if exists|i: int|
        0 <= i < members.len() && (#[trigger] members[i]).healthy && members[i].label_matches {
        let i = choose|i: int|
            0 <= i < members.len() && (#[trigger] members[i]).healthy && members[i].label_matches;
        assert(members[i].routeable());
    }
}

proof fn lemma_healthy(members: Seq<Member>, count: int)
    requires
        0 <= count <= members.len(),
    ensures
        ({
            let healthy = members.take(count).filter(|member: Member| member.healthy);
            &&& observed(members, count) == healthy.map_values(|member: Member| member.id)
            &&& proposed(members, count) == healthy.map_values(|member: Member| !member.failed)
        }),
    decreases count,
{
    reveal(Seq::filter);
    let healthy = members.take(count).filter(|member: Member| member.healthy);
    if count > 0 {
        lemma_healthy(members, count - 1);
        assert(members.take(count).drop_last() =~= members.take(count - 1));
        assert(members.take(count).last() == members[count - 1]);
    }
    assert(observed(members, count) =~= healthy.map_values(|member: Member| member.id));
    assert(proposed(members, count) =~= healthy.map_values(|member: Member| !member.failed));
}

/// Exactly the groups with a healthy member are scored, in order.
pub proof fn law_groups_with_a_healthy_member_are_scored(
    groups: Seq<GroupMembers>,
    connection: bool,
    metrics: MetricUse,
)
    ensures
        scorings(groups, groups.len() as int, connection, metrics) == groups.filter(
            |group: GroupMembers|
                exists|i: int|
                    0 <= i < group.members@.len() && (#[trigger] group.members@[i]).healthy,
        ).map_values(
            |group: GroupMembers| scoring_of(group.group, group.members@, connection, metrics),
        ),
{
    lemma_scored(groups, groups.len() as int, connection, metrics);
    assert(groups.take(groups.len() as int) =~= groups);
}

proof fn lemma_observed(members: Seq<Member>, count: int)
    requires
        0 <= count <= members.len(),
    ensures
        observed(members, count).len() > 0 <==> exists|i: int|
            0 <= i < count && (#[trigger] members[i]).healthy,
    decreases count,
{
    if count > 0 {
        lemma_observed(members, count - 1);
        if members[count - 1].healthy {
            assert(exists|i: int| 0 <= i < count && (#[trigger] members[i]).healthy);
        }
    }
}

proof fn lemma_scored(groups: Seq<GroupMembers>, count: int, connection: bool, metrics: MetricUse)
    requires
        0 <= count <= groups.len(),
    ensures
        scorings(groups, count, connection, metrics) == groups.take(count).filter(
            |group: GroupMembers|
                exists|i: int|
                    0 <= i < group.members@.len() && (#[trigger] group.members@[i]).healthy,
        ).map_values(
            |group: GroupMembers| scoring_of(group.group, group.members@, connection, metrics),
        ),
    decreases count,
{
    reveal(Seq::filter);
    let kept = groups.take(count).filter(
        |group: GroupMembers|
            exists|i: int| 0 <= i < group.members@.len() && (#[trigger] group.members@[i]).healthy,
    );
    if count > 0 {
        lemma_scored(groups, count - 1, connection, metrics);
        lemma_observed(groups[count - 1].members@, groups[count - 1].members@.len() as int);
        assert(groups.take(count).drop_last() =~= groups.take(count - 1));
        assert(groups.take(count).last() == groups[count - 1]);
    }
    assert(scorings(groups, count, connection, metrics) =~= kept.map_values(
        |group: GroupMembers| scoring_of(group.group, group.members@, connection, metrics),
    ));
}

/// A clock runs exactly while its backend's failure is in effect, from the refresh
/// that first found it on, and nothing else of it changes.
pub proof fn law_clock_runs_while_failed(clock: FailoverClock, effective: Seq<u64>, now: u64)
    ensures
        ({
            let after = clock.updated(effective, now);
            &&& after.since is Some <==> effective.contains(clock.id)
            &&& effective.contains(clock.id) && clock.since is None ==> after.since == Some(now)
            &&& effective.contains(clock.id) && clock.since is Some ==> after.since == clock.since
            &&& (after.id, after.group, after.account) == (clock.id, clock.group, clock.account)
        }),
{
}

/// The timed-out owners of a group are the accounts of its failed backends whose clock
/// ran for the whole timeout, in order, and no others. A later look at the same clocks
/// finds no fewer.
pub proof fn law_timed_out_owners(
    backends: Seq<FailoverClock>,
    group: u64,
    now: u64,
    timeout_seconds: u64,
)
    ensures
        owners_timed_out(backends, backends.len() as int, group, now, timeout_seconds)
            == backends.filter(
            |clock: FailoverClock|
                clock.group == Some(group) && clock.since is Some && clock.since->0
                    + timeout_seconds * 1_000_000_000 <= (if now > clock.since->0 {
                    now
                } else {
                    clock.since->0
                }),
        ).map_values(|clock: FailoverClock| clock.account),
        forall|later: u64, i: int|
            0 <= i < backends.len() && now <= later && #[trigger] backends[i].timed_out(
                group,
                now,
                timeout_seconds,
            ) ==> #[trigger] backends[i].timed_out(group, later, timeout_seconds),
{
    lemma_timed_out(backends, backends.len() as int, group, now, timeout_seconds);
    assert(backends.take(backends.len() as int) =~= backends);
}

proof fn lemma_timed_out(
    backends: Seq<FailoverClock>,
    count: int,
    group: u64,
    now: u64,
    timeout_seconds: u64,
)
    requires
        0 <= count <= backends.len(),
    ensures
        owners_timed_out(backends, count, group, now, timeout_seconds) == backends.take(
            count,
        ).filter(
            |clock: FailoverClock|
                clock.group == Some(group) && clock.since is Some && clock.since->0
                    + timeout_seconds * 1_000_000_000 <= (if now > clock.since->0 {
                    now
                } else {
                    clock.since->0
                }),
        ).map_values(|clock: FailoverClock| clock.account),
    decreases count,
{
    reveal(Seq::filter);
    let kept = backends.take(count).filter(
        |clock: FailoverClock|
            clock.group == Some(group) && clock.since is Some && clock.since->0 + timeout_seconds
                * 1_000_000_000 <= (if now > clock.since->0 {
                now
            } else {
                clock.since->0
            }),
    );
    if count > 0 {
        lemma_timed_out(backends, count - 1, group, now, timeout_seconds);
        assert(backends.take(count).drop_last() =~= backends.take(count - 1));
        assert(backends.take(count).last() == backends[count - 1]);
    }
    assert(owners_timed_out(backends, count, group, now, timeout_seconds) =~= kept.map_values(
        |clock: FailoverClock| clock.account,
    ));
}

/// A refusal record names the first backend that the source account owns and the first
/// one with the target's identity.
pub proof fn law_refusal_parties_are_the_first(
    backends: Seq<RefusalParty>,
    account: u64,
    id: u64,
    count: int,
)
    requires
        0 <= count <= backends.len(),
    ensures
        match owner_at(backends, account, count) {
            Some(at) => 0 <= at < count && backends[at].account == account && forall|i: int|
                0 <= i < at ==> (#[trigger] backends[i]).account != account,
            None => forall|i: int| 0 <= i < count ==> (#[trigger] backends[i]).account != account,
        },
        match backend_at(backends, id, count) {
            Some(at) => 0 <= at < count && backends[at].id == id && forall|i: int|
                0 <= i < at ==> (#[trigger] backends[i]).id != id,
            None => forall|i: int| 0 <= i < count ==> (#[trigger] backends[i]).id != id,
        },
    decreases count,
{
    if count > 0 {
        law_refusal_parties_are_the_first(backends, account, id, count - 1);
    }
}

/// An offer takes the next place in its scan, counts against the budget exactly where
/// it was accepted, and ends the scan exactly where its refusal is not the session's
/// own.
pub proof fn law_offers_are_counted(scan: OfferScan, outcome: Result<bool, RouteError>)
    requires
        scan.wf(),
        scan.next < scan.total,
        scan.accepted < scan.budget,
    ensures
        match outcome {
            Err(error) => scan.after(outcome) is Err <==> !(error == RouteError::RedirectPending
                || error == RouteError::CoolingDown || error == RouteError::ForceClosing || error
                == RouteError::NotActive),
            Ok(_) => scan.after(outcome) is Ok,
        },
        scan.after(outcome) matches Err(error) ==> outcome == Err::<bool, RouteError>(error),
        scan.after(outcome) matches Ok((after, accepted)) ==> {
            &&& accepted <==> outcome == Ok::<bool, RouteError>(true)
            &&& after.next == scan.next + 1
            &&& after.accepted - scan.accepted == (if accepted {
                1int
            } else {
                0int
            })
            &&& after.total == scan.total && after.budget == scan.budget
        },
{
}

/// Closes are counted one by one, only where they were accepted, and never wrap.
pub proof fn law_only_accepted_closes_count(closes: u64, accepted: bool, r: u64)
    requires
        call_ensures(closes_after, (closes, accepted), r),
    ensures
        !accepted ==> r == closes,
        accepted && closes != u64::MAX ==> r == closes + 1,
        r >= closes,
{
}

/// A refused pair is recorded exactly where the source account owns a backend whose
/// first one has a group and there is a backend with the target's identity. The
/// record names that group, both backends with their keyspaces, and what was asked.
pub proof fn law_refusal_records_name_their_pair(
    backends: &Vec<RefusalParty>,
    source: u64,
    target_id: u64,
    reason: Option<Factor>,
    physical_connections: u64,
    from: int,
    to: int,
    r: Option<KeyspaceRefusal>,
)
    requires
        call_ensures(
            keyspace_refusal,
            (backends, source, target_id, reason, physical_connections),
            r,
        ),
    ensures
        (forall|i: int| 0 <= i < backends@.len() ==> (#[trigger] backends@[i]).account != source)
            ==> r is None,
        (forall|i: int| 0 <= i < backends@.len() ==> (#[trigger] backends@[i]).id != target_id)
            ==> r is None,
        0 <= from < backends@.len() && backends@[from].account == source && (forall|i: int|
            0 <= i < from ==> (#[trigger] backends@[i]).account != source) && 0 <= to
            < backends@.len() && backends@[to].id == target_id && (forall|i: int|
            0 <= i < to ==> (#[trigger] backends@[i]).id != target_id) ==> {
            &&& r is Some <==> backends@[from].group is Some
            &&& r matches Some(record) ==> {
                &&& backends@[from].group == Some(record.group)
                &&& record.from == backends@[from].id
                &&& record.to == target_id
                &&& record.from_keyspace@ == backends@[from].keyspace@
                &&& record.to_keyspace@ == backends@[to].keyspace@
                &&& record.reason == reason
                &&& record.physical_connections == physical_connections
                &&& record.refusals == 0
            }
        },
{
    law_refusal_parties_are_the_first(
        backends@,
        source,
        target_id,
        backends@.len() as int,
    );
    let owner = owner_at(backends@, source, backends@.len() as int);
    let named = backend_at(backends@, target_id, backends@.len() as int);
    if 0 <= from < backends@.len() && backends@[from].account == source && (forall|i: int|
        0 <= i < from ==> (#[trigger] backends@[i]).account != source) {
        assert(owner == Some(from)) by {
            assert(owner is Some);
            assert(backends@[owner->0].account == source);
        }
    }
    if 0 <= to < backends@.len() && backends@[to].id == target_id && (forall|i: int|
        0 <= i < to ==> (#[trigger] backends@[i]).id != target_id) {
        assert(named == Some(to)) by {
            assert(named is Some);
            assert(backends@[named->0].id == target_id);
        }
    }
}

/// A scan moves on by one place with each offer that it goes on after, and stays
/// where it was with one that ends it.
pub proof fn law_scans_move_on(scan: &mut OfferScan, outcome: Result<bool, RouteError>, r: Result<bool, RouteError>)
    requires
        old(scan).wf(),
        old(scan).next < old(scan).total,
        old(scan).accepted < old(scan).budget,
        call_ensures(OfferScan::offered, (scan, outcome), r),
    ensures
        r is Ok ==> final(scan).next == old(scan).next + 1,
        r == Ok::<bool, RouteError>(true) ==> final(scan).accepted == old(scan).accepted + 1,
        r is Err || r == Ok::<bool, RouteError>(false) ==> final(scan).accepted
            == old(scan).accepted,
        r is Err ==> final(scan).next == old(scan).next && r == outcome,
        outcome is Ok ==> r == outcome,
        final(scan).total == old(scan).total && final(scan).budget == old(scan).budget,
{
    law_offers_are_counted(*old(scan), outcome);
}

} // verus!
