//! Factor migration preparation.
use vstd::prelude::*;

use super::{Member, RouteError};
use crate::shadow::native::Factor;

verus! {

/// The health that balance sees of each backend: failed ones are masked unless
/// the group's failures are ignored.
pub open spec fn masked(members: Seq<Member>) -> Seq<bool> {
    members.map_values(
        |member: Member| member.healthy && (super::ignores_failed(members) || !member.failed),
    )
}

/// Compute [`masked`]. Balance sees unhealthy and draining backends too: a
/// healthy-only list would lose the very sources that need evacuation.
pub fn balance_mask(members: &Vec<Member>) -> (r: Vec<bool>)
    ensures
        r@ == masked(members@),
{
    let ignore = super::ignore_failed(members);
    let mut mask: Vec<bool> = Vec::new();
    let mut index: usize = 0;
    while index < members.len()
        invariant
            ignore == super::ignores_failed(members@),
            index <= members@.len(),
            mask@ == masked(members@).take(index as int),
        decreases members@.len() - index,
    {
        let member = members[index];
        mask.push(member.healthy && (ignore || !member.failed));
        assert(mask@ =~= masked(members@).take(index + 1));
        index = index + 1;
    }
    assert(mask@ =~= masked(members@));
    mask
}

/// Masking never leaves a group that can route without a backend to route to.
pub proof fn law_mask_keeps_a_route(members: Seq<Member>)
    requires
        super::has_routeable(members),
    ensures
        exists|i: int|
            0 <= i < members.len() && (#[trigger] members[i]).label_matches && masked(members)[i],
{
    if super::ignores_failed(members) {
        let i = choose|i: int| 0 <= i < members.len() && (#[trigger] members[i]).routeable();
        assert(members[i].label_matches && masked(members)[i]);
    } else {
        let i = choose|i: int|
            0 <= i < members.len() && (#[trigger] members[i]).routeable() && !members[i].failed;
        assert(members[i].label_matches && masked(members)[i]);
    }
}

/// The migration pair that the factors chose.
#[derive(Clone, Copy, Debug, PartialEq, Eq, Structural)]
pub struct BalancePair {
    /// Source backend.
    pub from: u64,
    /// Target backend.
    pub to: u64,
    /// Deciding factor.
    pub reason: Factor,
}

/// A read-only preparation tied to its physical owner. Retaining it does not
/// retain permission to admit a redirect.
#[derive(Clone, Copy, Debug, PartialEq, Eq, Structural)]
pub struct PreparedRedirect {
    /// Session to be redirected.
    pub session: u64,
    /// Account that physically owns it.
    pub source: u64,
    /// Account that would own it.
    pub target: u64,
    /// Target backend.
    pub target_id: u64,
}

/// A prepared migration of a whole physical owner.
#[derive(Clone, Debug)]
pub struct PreparedBalance {
    /// The chosen pair.
    pub pair: BalancePair,
    /// One preparation for each physical session of the source, in order.
    pub redirects: Vec<PreparedRedirect>,
}

/// The preparations for the physical sessions of a source.
pub open spec fn redirects_of(sessions: Seq<u64>, source: u64, target: u64, target_id: u64) -> Seq<
    PreparedRedirect,
> {
    sessions.map_values(
        |session: u64| PreparedRedirect { session, source, target, target_id },
    )
}

/// Prepare the migration of a chosen pair. `target` is the account of an
/// eligible target, or why it is none.
///
/// # Errors
/// The refusal of the target.
pub fn prepare_balance(
    pair: Option<BalancePair>,
    source: u64,
    target: Result<u64, RouteError>,
    sessions: &Vec<u64>,
) -> (r: Result<Option<PreparedBalance>, RouteError>)
    ensures
        match (pair, target) {
            (None, _) => r matches Ok(prepared) && prepared is None,
            (Some(_), Err(error)) => r matches Err(e) && e == error,
            (Some(pair), Ok(account)) => r matches Ok(prepared) && prepared is Some && prepared->0.pair
                == pair && prepared->0.redirects@ == redirects_of(
                sessions@,
                source,
                account,
                pair.to,
            ),
        },
{
    let pair = match pair {
        Some(pair) => pair,
        None => return Ok(None),
    };
    let account = match target {
        Ok(account) => account,
        Err(error) => return Err(error),
    };
    let ghost expected = redirects_of(sessions@, source, account, pair.to);
    let mut redirects: Vec<PreparedRedirect> = Vec::new();
    let mut index: usize = 0;
    while index < sessions.len()
        invariant
            expected == redirects_of(sessions@, source, account, pair.to),
            index <= sessions@.len(),
            redirects@ == expected.take(index as int),
        decreases sessions@.len() - index,
    {
        redirects.push(
            PreparedRedirect { session: sessions[index], source, target: account, target_id: pair.to },
        );
        assert(redirects@ =~= expected.take(index + 1));
        index = index + 1;
    }
    assert(redirects@ =~= expected);
    Ok(Some(PreparedBalance { pair, redirects }))
}

/// Where a group's evaluation takes its metrics from.
#[derive(Clone, Copy, Debug, PartialEq, Eq, Structural)]
pub enum MetricUse {
    /// The current publication.
    Current,
    /// None: absent, foreign, unreadable or no longer current.
    Absent,
}

/// What is known of a metric publication before it is entered.
#[derive(Clone, Copy, Debug, PartialEq, Eq, Structural)]
pub struct Publication {
    /// There is one.
    pub present: bool,
    /// It belongs to the candidate's own routing source.
    pub own_source: bool,
    /// Its queries could be read.
    pub readable: bool,
}

impl Publication {
    /// Whether the publication may be entered.
    pub open spec fn usable(self) -> bool {
        self.present && self.own_source && self.readable
    }

    /// Decide [`Publication::usable`].
    pub fn is_usable(&self) -> (r: bool)
        ensures
            r == self.usable(),
    {
        self.present && self.own_source && self.readable
    }
}

/// Balance sees a backend as healthy exactly where it is and did not fail; but where
/// every backend that a client could be routed to failed, failures are ignored.
pub proof fn law_failed_backends_are_masked(members: Seq<Member>, at: int)
    requires
        0 <= at < members.len(),
    ensures
        masked(members).len() == members.len(),
        (exists|i: int|
            0 <= i < members.len() && (#[trigger] members[i]).healthy && members[i].label_matches
                && !members[i].failed) ==> masked(members)[at] == (members[at].healthy
            && !members[at].failed),
        (forall|i: int|
            0 <= i < members.len() && (#[trigger] members[i]).healthy ==> !members[i].label_matches)
            ==> masked(members)[at] == (members[at].healthy && !members[at].failed),
        (forall|i: int|
            0 <= i < members.len() && (#[trigger] members[i]).healthy && members[i].label_matches
                ==> members[i].failed) && (exists|i: int|
            0 <= i < members.len() && (#[trigger] members[i]).healthy && members[i].label_matches)
            ==> masked(members)[at] == members[at].healthy,
{
    if exists|i: int|
        0 <= i < members.len() && (#[trigger] members[i]).healthy && members[i].label_matches
            && !members[i].failed {
        let i = choose|i: int|
            0 <= i < members.len() && (#[trigger] members[i]).healthy && members[i].label_matches
                && !members[i].failed;
        assert(members[i].routeable());
    }
    if exists|i: int|
        0 <= i < members.len() && (#[trigger] members[i]).healthy && members[i].label_matches {
        let i = choose|i: int|
            0 <= i < members.len() && (#[trigger] members[i]).healthy && members[i].label_matches;
        assert(members[i].routeable());
    }
}

/// Without a pair nothing is prepared, whatever the target is; a target that is
/// refused is handed on; and otherwise every session of the source is prepared
/// once, in order, from the source to the target.
pub proof fn law_preparations_cover_the_source(
    pair: Option<BalancePair>,
    source: u64,
    target: Result<u64, RouteError>,
    sessions: &Vec<u64>,
    r: Result<Option<PreparedBalance>, RouteError>,
)
    requires
        call_ensures(prepare_balance, (pair, source, target, sessions), r),
    ensures
        pair is None ==> r is Ok && r->Ok_0 is None,
        pair is Some && target is Err ==> r is Err && r->Err_0 == target->Err_0,
        pair is Some && target is Ok ==> r is Ok && r->Ok_0 is Some && {
            let prepared = r->Ok_0->0;
            &&& prepared.pair.from == pair->0.from && prepared.pair.to == pair->0.to
                && prepared.pair.reason == pair->0.reason
            &&& prepared.redirects@.len() == sessions@.len()
            &&& forall|i: int|
                0 <= i < sessions@.len() ==> {
                    let redirect = #[trigger] prepared.redirects@[i];
                    &&& redirect.session == sessions@[i]
                    &&& redirect.source == source
                    &&& redirect.target == target->Ok_0
                    &&& redirect.target_id == pair->0.to
                }
        },
{
}

/// A publication is entered only where it is there, belongs to the candidate's own
/// source and could be read.
pub proof fn law_foreign_publications_are_not_entered(publication: Publication, r: bool)
    requires
        call_ensures(Publication::is_usable, (&publication,), r),
    ensures
        !publication.present ==> !r,
        !publication.own_source ==> !r,
        !publication.readable ==> !r,
        !r ==> !publication.present || !publication.own_source || !publication.readable,
{
}

} // verus!
