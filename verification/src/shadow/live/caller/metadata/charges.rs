//! Growth is covered before it happens: no accepted step retains more than the
//! last charge that its admission covered.
use vstd::prelude::*;

use super::state;
use super::state::{BackendModel, GroupModel};
use super::tracker;
use super::tracker::{OpenModel, TrackerModel};
use super::{Assign, End, Input, MemberModel, Refresh};
use crate::charge;
use crate::charge::Admission;
use crate::texts;

verus! {

proof fn lemma_groups_update(groups: Seq<GroupModel>, at: int, next: GroupModel)
    requires
        0 <= at < groups.len(),
    ensures
        state::groups_bytes(groups.update(at, next)) == state::groups_bytes(groups)
            - state::group_bytes(groups[at]) + state::group_bytes(next),
    decreases groups.len(),
{
    let updated = groups.update(at, next);
    if at == groups.len() - 1 {
        assert(updated.drop_last() =~= groups.drop_last());
    } else {
        assert(updated.drop_last() =~= groups.drop_last().update(at, next));
        lemma_groups_update(groups.drop_last(), at, next);
    }
}

proof fn lemma_groups_remove(groups: Seq<GroupModel>, at: int)
    requires
        0 <= at < groups.len(),
    ensures
        state::groups_bytes(groups.remove(at)) <= state::groups_bytes(groups),
    decreases groups.len(),
{
    let rest = groups.remove(at);
    if at == groups.len() - 1 {
        assert(rest =~= groups.drop_last());
    } else {
        assert(rest.drop_last() =~= groups.drop_last().remove(at));
        lemma_groups_remove(groups.drop_last(), at);
    }
}

proof fn lemma_backends_update(backends: Seq<BackendModel>, at: int, next: BackendModel)
    requires
        0 <= at < backends.len(),
    ensures
        state::backends_bytes(backends.update(at, next)) == state::backends_bytes(backends)
            - texts::copy_bytes(backends[at].values) + texts::copy_bytes(next.values),
    decreases backends.len(),
{
    let updated = backends.update(at, next);
    if at == backends.len() - 1 {
        assert(updated.drop_last() =~= backends.drop_last());
    } else {
        assert(updated.drop_last() =~= backends.drop_last().update(at, next));
        lemma_backends_update(backends.drop_last(), at, next);
    }
}

proof fn lemma_backends_remove(backends: Seq<BackendModel>, at: int)
    requires
        0 <= at < backends.len(),
    ensures
        state::backends_bytes(backends.remove(at)) <= state::backends_bytes(backends),
    decreases backends.len(),
{
    let rest = backends.remove(at);
    if at == backends.len() - 1 {
        assert(rest =~= backends.drop_last());
    } else {
        assert(rest.drop_last() =~= backends.drop_last().remove(at));
        lemma_backends_remove(backends.drop_last(), at);
    }
}

/// Whether a refresh grew by no more than some bytes, keeping what else its
/// charge depends on.
spec fn grew(before: OpenModel, after: OpenModel, bytes: nat) -> bool {
    &&& after.inputs == before.inputs
    &&& after.working.reserved == before.working.reserved
    &&& after.heap_bytes() <= before.heap_bytes() + bytes
}

proof fn lemma_storing(open: OpenModel, account: u64, values: Seq<Seq<char>>)
    requires
        open.working.has_backend(account),
    ensures
        grew(open, open.storing(account, values), texts::copy_bytes(values)),
        open.storing(account, values).working.groups == open.working.groups,
        state::accounts(open.storing(account, values).working.backends) == state::accounts(
            open.working.backends,
        ),
{
    let at = open.working.backend_at(account);
    let list = state::accounts(open.working.backends);
    assert(0 <= at < list.len() && list[at] == account);
    let next = open.storing(account, values).working.backends[at];
    lemma_backends_update(open.working.backends, at, next);
    assert(state::accounts(open.storing(account, values).working.backends) =~= list);
}

proof fn lemma_leaving(open: OpenModel, account: u64, current: u64)
    ensures
        open.leaving(account, current) matches Ok(next) ==> grew(open, next, 0)
            && next.working.backends == open.working.backends,
{
    reveal(OpenModel::leaving);
    if current != 0 && open.working.has_group(current) {
        let at = open.working.group_at(current);
        let list = state::ids(open.working.groups);
        assert(0 <= at < list.len() && list[at] == current);
        lemma_groups_remove(open.working.groups, at);
        let group = open.working.groups[at];
        let members = tracker::others(group.members, account);
        lemma_groups_update(open.working.groups, at, GroupModel { members, ..group });
    }
}

proof fn lemma_dropping(open: OpenModel, account: u64, current: u64)
    requires
        open.working.has_backend(account),
    ensures
        open.dropping(account, current) matches Ok(next) ==> grew(open, next, 0),
{
    reveal(OpenModel::dropping);
    lemma_leaving(open, account, current);
    if let Ok(left) = open.leaving(account, current) {
        let at = left.working.backend_at(account);
        let list = state::accounts(left.working.backends);
        assert(0 <= at < list.len() && list[at] == account);
        lemma_backends_remove(left.working.backends, at);
    }
}

proof fn lemma_joining(open: OpenModel, account: u64, group: u64)
    requires
        open.working.has_backend(account),
    ensures
        open.joining(account, group) matches Ok(next) ==> grew(open, next, 0),
{
    reveal(OpenModel::joining);
    if open.working.has_group(group) {
        let at = open.working.group_at(group);
        let ids = state::ids(open.working.groups);
        assert(0 <= at < ids.len() && ids[at] == group);
        let place = open.working.backend_at(account);
        let list = state::accounts(open.working.backends);
        assert(0 <= place < list.len() && list[place] == account);
        let joined = open.working.groups[at];
        lemma_groups_update(
            open.working.groups,
            at,
            GroupModel { members: joined.members.push(account), ..joined },
        );
        lemma_backends_update(
            open.working.backends,
            place,
            BackendModel { group, ..open.working.backends[place] },
        );
    }
}

proof fn lemma_keeping(open: OpenModel, a: Assign, input: Input, current: u64)
    requires
        open.working.has_backend(a.account),
    ensures
        open.keeping(a, input, current) matches Ok(next) ==> grew(
            open,
            next,
            if a.values_read {
                texts::copy_bytes(a.texts())
            } else {
                0
            },
        ),
{
    reveal(OpenModel::keeping);
    lemma_storing(open, a.account, a.texts());
    let stored = if a.values_read {
        open.storing(a.account, a.texts())
    } else {
        open
    };
    lemma_joining(stored, a.account, a.group);
}

proof fn lemma_bound(open: OpenModel, a: Assign, failed: bool, created: bool)
    ensures
        open.failure_bound(failed) matches Ok(first) ==> {
            &&& grew(open, first, 0)
            &&& first.working == open.working
            &&& first.group_bound(a, created) matches Ok(second) ==> {
                &&& grew(
                    open,
                    second,
                    if created {
                        tracker::creation_bytes(a.texts())
                    } else {
                        0
                    },
                )
                &&& second.working.backends == open.working.backends
            }
        },
{
    reveal(OpenModel::failure_bound);
    reveal(OpenModel::group_bound);
    if let Ok(first) = open.failure_bound(failed) {
        if let Ok(second) = first.group_bound(a, created) {
            if created {
                assert(second.working.groups.drop_last() =~= open.working.groups);
            }
        }
    }
}

spec fn decision_bytes(a: Assign, outcome: state::Outcome) -> nat {
    (if a.values_read {
        texts::copy_bytes(a.texts())
    } else {
        0
    }) + if outcome.created {
        tracker::creation_bytes(a.texts())
    } else {
        0
    }
}

proof fn lemma_applied(
    open: OpenModel,
    a: Assign,
    input: Input,
    current: u64,
    outcome: state::Outcome,
)
    requires
        open.working.has_backend(a.account),
    ensures
        open.applied(a, input, current, outcome) matches Ok(next) ==> grew(
            open,
            next,
            decision_bytes(a, outcome),
        ),
{
    reveal(OpenModel::applied);
    lemma_bound(open, a, outcome.construction_failed, outcome.created);
    if let Ok(first) = open.failure_bound(outcome.construction_failed) {
        if let Ok(second) = first.group_bound(a, outcome.created) {
            lemma_dropping(second, a.account, current);
            lemma_keeping(second, a, input, current);
        }
    }
}

/// Whether a step grew by no more than what its admission last covered.
spec fn step_covered(
    open: OpenModel,
    step: (Result<OpenModel, crate::shadow::InvalidReason>, Admission),
    retained: nat,
) -> bool {
    step.0 matches Ok(next) ==> exists|bytes: nat|
        #[trigger] grew(open, next, bytes) && (bytes == 0 || step.1.last == charge::clamp(
            retained + bytes,
        ))
}

proof fn lemma_decided(
    open: OpenModel,
    a: Assign,
    idle: bool,
    parses: bool,
    retained: nat,
    admission: Admission,
)
    ensures
        step_covered(open, open.decided_by(a, idle, parses, retained, admission), retained),
{
    reveal(OpenModel::decided_by);
    let step = open.decided_by(a, idle, parses, retained, admission);
    if let Ok(next) = step.0 {
        let input = tracker::input_of(open.inputs, a.account);
        let outcome = open.outcome_of(a, idle, parses);
        lemma_applied(open, a, input, open.group_of(a.account), outcome);
        assert(grew(open, next, decision_bytes(a, outcome)));
    }
}

proof fn lemma_revisited(
    open: OpenModel,
    a: Assign,
    account: u64,
    retained: nat,
    admission: Admission,
)
    ensures
        step_covered(open, open.revisited(a, account, retained, admission), retained),
{
    reveal(OpenModel::revisited);
    if let Ok(next) = open.revisited(a, account, retained, admission).0 {
        lemma_storing(open, account, a.texts());
        if a.values_read {
            assert(grew(open, next, texts::copy_bytes(a.texts())));
        } else {
            assert(grew(open, next, 0));
        }
    }
}

/// A decision retains no more than the last charge that was covered for it, or
/// no more than before.
pub proof fn law_assign_is_covered(
    t: TrackerModel,
    a: Assign,
    idle: bool,
    parses: bool,
    admission: Admission,
)
    ensures
        t.assign(a, idle, parses, admission).0 matches Ok(n) ==> {
            ||| n.retained_bytes() <= t.retained_bytes()
            ||| charge::clamp(n.retained_bytes()) <= t.assign(a, idle, parses, admission).1.last
        },
{
    reveal(OpenModel::assign);
    if let Ok(n) = t.assign(a, idle, parses, admission).0 {
        let open = t.open->0;
        let retained = charge::clamp(t.retained_bytes());
        let read = open.having_read(a.texts().len(), texts::total_bytes(a.texts()));
        let step = open.assign(a, idle, parses, retained, admission);
        match open.revisit {
            Some(account) => lemma_revisited(read, a, account, retained, admission),
            None => lemma_decided(read, a, idle, parses, retained, admission),
        }
        assert(step_covered(read, step, retained));
        let bytes = choose|bytes: nat|
            #[trigger] grew(read, n.open->0, bytes) && (bytes == 0 || step.1.last
                == charge::clamp(retained + bytes));
        assert(n.open->0.heap_bytes() <= read.heap_bytes() + bytes);
        assert(read.heap_bytes() == open.heap_bytes());
    }
}

proof fn lemma_storing_all(open: OpenModel, tape: Seq<MemberModel>)
    ensures
        open.storing_all(tape) matches Some(next) ==> grew(open, next, tracker::tape_bytes(tape))
            && next.working.groups == open.working.groups,
    decreases tape.len(),
{
    if tape.len() > 0 {
        lemma_storing_all(open, tape.drop_last());
        if let Some(before) = open.storing_all(tape.drop_last()) {
            if before.working.has_backend(tape.last().account) {
                lemma_storing(before, tape.last().account, tape.last().values);
            }
        }
    }
}

/// A recomputation retains no more than the last charge that was covered for
/// it, or no more than before.
pub proof fn law_refresh_is_covered(
    t: TrackerModel,
    frame: Refresh,
    parses: bool,
    admission: Admission,
)
    ensures
        t.refresh(frame, parses, admission).0 matches Ok(n) ==> {
            ||| n.retained_bytes() <= t.retained_bytes()
            ||| charge::clamp(n.retained_bytes()) <= t.refresh(frame, parses, admission).1.last
        },
{
    reveal(OpenModel::refresh);
    reveal(OpenModel::recomputed);
    if let Ok(n) = t.refresh(frame, parses, admission).0 {
        let open = t.open->0;
        let read = open.having_read(frame.value_count(), frame.byte_count());
        if open.rule.is_cidr() {
            lemma_storing_all(read, frame.tape());
            let stored = read.storing_all(frame.tape())->0;
            let at = read.cursor as int;
            lemma_groups_update(stored.working.groups, at, n.open->0.working.groups[at]);
        }
    }
}

/// A committed refresh retains no more than it did while open.
pub proof fn law_end_releases(t: TrackerModel, tail: End, admission: Admission)
    ensures
        t.end(tail, admission).0 matches Ok(n) ==> n.retained_bytes() <= t.retained_bytes(),
{
    reveal(OpenModel::end);
}

} // verus!
