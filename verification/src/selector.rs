//! Decisions of the migration scheduler, from plain values to plain values. The
//! router that owns sources, clocks and queues performs what they decide.
use vstd::prelude::*;

pub mod balance;
pub mod failover;
pub mod preparation;
pub mod round;
pub mod runs;
pub mod scheduler;
pub mod worker;

verus! {

/// What a group's failover and balance decisions read of one backend.
#[derive(Clone, Copy, Debug, PartialEq, Eq, Structural)]
pub struct Member {
    /// Backend identity.
    pub id: u64,
    /// Observed healthy.
    pub healthy: bool,
    /// The configured label matches.
    pub label_matches: bool,
    /// The policy's failure list names its routing identity.
    pub failed: bool,
}

/// Why a routing step was refused.
#[derive(Clone, Copy, Debug, PartialEq, Eq, Structural)]
pub enum RouteError {
    /// The captured candidate is no longer current.
    StaleCandidate,
    /// A control source is unavailable.
    ControlUnavailable,
    /// No backend can take the session.
    NoBackend,
    /// Source and target belong to different keyspaces.
    CrossKeyspace,
    /// The session already awaits a redirect.
    RedirectPending,
    /// The session's last attempt failed too recently.
    CoolingDown,
    /// The session is being closed.
    ForceClosing,
    /// The session is not active.
    NotActive,
    /// A worker already runs.
    WorkerRunning,
    /// Any other refusal, by number.
    Other(u16),
}

impl Member {
    /// Whether a client could be routed to the backend.
    pub open spec fn routeable(self) -> bool {
        self.healthy && self.label_matches
    }
}

/// Whether a group has a backend that a client could be routed to.
pub open spec fn has_routeable(members: Seq<Member>) -> bool {
    exists|i: int| 0 <= i < members.len() && (#[trigger] members[i]).routeable()
}

/// Whether a group's failures are ignored: it can route, but only to failed
/// backends.
pub open spec fn ignores_failed(members: Seq<Member>) -> bool {
    &&& has_routeable(members)
    &&& forall|i: int|
        0 <= i < members.len() && (#[trigger] members[i]).routeable() ==> members[i].failed
}

/// Decide [`has_routeable`].
pub fn can_route(members: &Vec<Member>) -> (r: bool)
    ensures
        r == has_routeable(members@),
{
    let mut index: usize = 0;
    while index < members.len()
        invariant
            index <= members@.len(),
            forall|i: int| 0 <= i < index ==> !(#[trigger] members@[i]).routeable(),
        decreases members@.len() - index,
    {
        let member = members[index];
        if member.healthy && member.label_matches {
            assert(members@[index as int].routeable());
            return true;
        }
        index = index + 1;
    }
    false
}

/// Decide [`ignores_failed`].
pub fn ignore_failed(members: &Vec<Member>) -> (r: bool)
    ensures
        r == ignores_failed(members@),
{
    if !can_route(members) {
        return false;
    }
    let mut index: usize = 0;
    while index < members.len()
        invariant
            has_routeable(members@),
            index <= members@.len(),
            forall|i: int|
                0 <= i < index && (#[trigger] members@[i]).routeable() ==> members@[i].failed,
        decreases members@.len() - index,
    {
        let member = members[index];
        if member.healthy && member.label_matches && !member.failed {
            assert(members@[index as int].routeable() && !members@[index as int].failed);
            return false;
        }
        index = index + 1;
    }
    true
}

} // verus!
