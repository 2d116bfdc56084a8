//! What a metadata refresh promises of its decisions: who joins and who leaves
//! which group, what a client matches, and what is committed in the end.
use vstd::prelude::*;

use super::state;
use super::state::{GroupModel, StateModel};
use super::tracker;
use super::tracker::{OpenModel, Tracker, TrackerModel};
use super::{Assign, Begin, Classification, End, Input, MemberModel, Refresh, Rule};
use crate::charge::Admission;
use crate::shadow::live::caller::selection::ErrorClass;
use crate::shadow::live::LiveEvent;
use crate::shadow::InvalidReason;
use crate::texts;

verus! {

/// The first match is the first group, in order, that takes every client or whose
/// networks hold the client's address; there is none exactly where no group does.
pub proof fn law_first_match_is_the_first(groups: Seq<GroupModel>, rule: Rule, matches: Seq<bool>)
    ensures
        tracker::first_match(groups, rule, matches) is None <==> groups.len() == 0 || (!(rule is All)
            && forall|i: int| 0 <= i < groups.len() && i < matches.len() ==> !#[trigger] matches[i]),
        tracker::first_match(groups, rule, matches) matches Some(id) ==> exists|at: int|
            {
                &&& 0 <= at < groups.len()
                &&& (#[trigger] groups[at]).id == id
                &&& rule is All ==> at == 0
                &&& !(rule is All) ==> at < matches.len() && matches[at] && forall|i: int|
                    0 <= i < at ==> !#[trigger] matches[i]
            },
    decreases groups.len(),
{
    if groups.len() != 0 {
        let before = groups.drop_last();
        let last = groups.len() - 1;
        law_first_match_is_the_first(before, rule, matches);
        if tracker::first_match(before, rule, matches) is Some {
            let id = tracker::first_match(before, rule, matches)->0;
            let at = choose|at: int|
                {
                    &&& 0 <= at < before.len()
                    &&& (#[trigger] before[at]).id == id
                    &&& rule is All ==> at == 0
                    &&& !(rule is All) ==> at < matches.len() && matches[at] && forall|i: int|
                        0 <= i < at ==> !#[trigger] matches[i]
                };
            assert(groups[at] == before[at]);
        } else {
            assert(groups[last] == groups.last());
        }
    }
}

/// Metadata that is committed under the port rule gives a listener's port to the
/// group that claimed it first, calls it a conflict exactly where two clusters
/// claim it, and finds no group exactly where none does.
pub proof fn law_ports_are_classified_by_their_claims(
    t: TrackerModel,
    matches: Seq<bool>,
    port: Seq<u8>,
)
    requires
        t.failed is None,
        t.open is None,
        t.last_generation != 0,
        t.state.observer_error is Success,
        t.state.rule == Some(Rule::Port),
    ensures
        ({
            let list = state::claims(t.state.groups);
            let found = t.classify(t.last_generation, matches, port);
            let contested = exists|i: int, j: int|
                0 <= i < list.len() && 0 <= j < list.len() && (#[trigger] list[i]).port == port && (
                #[trigger] list[j]).port == port && list[i].cluster != list[j].cluster;
            &&& found is Ok
            &&& found->Ok_0 is Conflict <==> contested
            &&& found->Ok_0 is NoGroup <==> forall|i: int|
                0 <= i < list.len() ==> (#[trigger] list[i]).port != port
            &&& found->Ok_0 matches Classification::Group(id) ==> exists|at: int|
                {
                    &&& 0 <= at < list.len()
                    &&& (#[trigger] list[at]).port == port
                    &&& list[at].group == id
                    &&& forall|i: int| 0 <= i < at ==> (#[trigger] list[i]).port != port
                }
            &&& !(found->Ok_0 is ObserverError)
        }),
{
    state::law_first_claimant_is_the_first(state::claims(t.state.groups), port);
}

/// Under any other rule a client goes to the first group, in order, that it
/// matches, and to none exactly where it matches none.
pub proof fn law_clients_are_classified_by_the_first_match(
    t: TrackerModel,
    rule: Rule,
    matches: Seq<bool>,
    port: Seq<u8>,
)
    requires
        t.failed is None,
        t.open is None,
        t.last_generation != 0,
        t.state.observer_error is Success,
        t.state.rule == Some(rule),
        !(rule is Port),
    ensures
        ({
            let groups = t.state.groups;
            let found = t.classify(t.last_generation, matches, port);
            &&& found is Ok
            &&& found->Ok_0 is NoGroup || found->Ok_0 is Group
            &&& found->Ok_0 is NoGroup <==> groups.len() == 0 || (!(rule is All) && forall|i: int|
                0 <= i < groups.len() && i < matches.len() ==> !#[trigger] matches[i])
            &&& found->Ok_0 matches Classification::Group(id) ==> exists|at: int|
                {
                    &&& 0 <= at < groups.len()
                    &&& (#[trigger] groups[at]).id == id
                    &&& rule is All ==> at == 0
                    &&& !(rule is All) ==> at < matches.len() && matches[at] && forall|i: int|
                        0 <= i < at ==> !#[trigger] matches[i]
                }
        }),
{
    law_first_match_is_the_first(t.state.groups, rule, matches);
}

/// Only the committed generation is read, and not while a refresh is open: an
/// observer's error is all that it says where there is one.
pub proof fn law_only_committed_metadata_is_read(
    t: TrackerModel,
    generation: u64,
    matches: Seq<bool>,
    port: Seq<u8>,
)
    ensures
        t.classify(generation, matches, port) is Ok ==> t.failed is None && t.open is None
            && generation == t.last_generation && generation != 0,
        t.classify(generation, matches, port) is Ok && t.state.observer_error
            != ErrorClass::Success ==> t.classify(generation, matches, port) == Ok::<
            Classification,
            InvalidReason,
        >(Classification::ObserverError(t.state.observer_error)),
        t.route_header(generation) is Ok <==> t.failed is None && t.open is None && generation
            == t.last_generation && t.state.rule is Some,
        t.route_header(generation) is Ok ==> t.route_header(generation)->Ok_0 == (
            t.state.rule->0,
            t.state.observer_error,
        ),
{
}

/// The members that stay are all but the one that leaves, in order.
pub proof fn law_others_are_all_but_one(members: Seq<u64>, account: u64)
    ensures
        tracker::others(members, account) == members.filter(|member: u64| member != account),
        !tracker::others(members, account).contains(account),
        forall|member: u64|
            member != account ==> (#[trigger] tracker::others(members, account).contains(member)
                <==> members.contains(member)),
    decreases members.len(),
{
    reveal(Seq::filter);
    if members.len() != 0 {
        let before = members.drop_last();
        law_others_are_all_but_one(before, account);
        let rest = tracker::others(before, account);
        let all = tracker::others(members, account);
        assert forall|member: u64| all.contains(member) <==> rest.contains(member) || (member
            == members.last() && member != account) by {
            if rest.contains(member) {
                assert(all[rest.index_of(member)] == member);
            }
            if member == members.last() && member != account {
                assert(all[all.len() - 1] == member);
            }
        }
        assert forall|member: u64| members.contains(member) <==> before.contains(member) || member
            == members.last() by {
            if before.contains(member) {
                assert(members[before.index_of(member)] == member);
            }
            if member == members.last() {
                assert(members[members.len() - 1] == member);
            }
            if members.contains(member) {
                let at = members.index_of(member);
                if at < before.len() {
                    assert(before[at] == member);
                }
            }
        }
    }
}

/// A backend that leaves its group is no member of it afterwards. The group goes
/// with its last member, and only as announced; otherwise every other member
/// stays. No other group changes, and no backend does.
#[verifier::rlimit(40)]
pub proof fn law_leaving_a_group(open: OpenModel, account: u64, current: u64, other: u64)
    requires
        open.wf(),
        current != 0,
        open.leaving(account, current) is Ok,
    ensures
        ({
            let next = open.leaving(account, current)->Ok_0;
            let was = open.working.groups[open.working.group_at(current)].members;
            let stays = was.filter(|member: u64| member != account);
            &&& open.working.has_group(current)
            &&& next.working.backends == open.working.backends
            &&& open.pending_removed.contains(current) <==> stays.len() == 0
            &&& stays.len() == 0 ==> !next.working.has_group(current)
                && !next.pending_removed.contains(current)
            &&& stays.len() != 0 ==> next.working.has_group(current)
                && next.working.groups[next.working.group_at(current)].members == stays
            &&& other != current ==> {
                &&& next.working.has_group(other) == open.working.has_group(other)
                &&& next.working.has_group(other) ==> next.working.groups[next.working.group_at(
                    other,
                )] == open.working.groups[open.working.group_at(other)]
                &&& next.pending_removed.contains(other) == open.pending_removed.contains(other)
            }
        }),
{
    reveal(OpenModel::leaving);
    let next = open.leaving(account, current)->Ok_0;
    let at = open.working.group_at(current);
    let ids = state::ids(open.working.groups);
    let after = state::ids(next.working.groups);
    law_others_are_all_but_one(open.working.groups[at].members, account);
    assert(ids[at] == current);
    if tracker::others(open.working.groups[at].members, account).len() == 0 {
        assert(after =~= ids.remove(at));
        lemma_removed(ids, at, other);
        let place = open.pending_removed.index_of(current);
        lemma_removed(open.pending_removed, place, other);
        lemma_removed(open.pending_removed, place, current);
        lemma_removed(ids, at, current);
        if other != current && ids.contains(other) {
            let i = ids.index_of(other);
            let j = after.index_of(other);
            assert(next.working.groups[j] == open.working.groups[i]);
        }
    } else {
        assert(after =~= ids);
    }
}

/// Removing one place of a list without duplicates removes its value alone.
proof fn lemma_removed(list: Seq<u64>, at: int, other: u64)
    requires
        list.no_duplicates(),
        0 <= at < list.len(),
    ensures
        !list.remove(at).contains(list[at]),
        other != list[at] ==> (list.remove(at).contains(other) <==> list.contains(other)),
        other != list[at] && list.contains(other) ==> list.remove(at).index_of(other) == if list.index_of(
            other,
        ) < at {
            list.index_of(other)
        } else {
            list.index_of(other) - 1
        },
        list.remove(at).no_duplicates(),
{
    let rest = list.remove(at);
    assert forall|i: int, j: int| 0 <= i < rest.len() && 0 <= j < rest.len() && i != j implies rest[i]
        != rest[j] by {
        let a = if i < at {
            i
        } else {
            i + 1
        };
        let b = if j < at {
            j
        } else {
            j + 1
        };
        assert(rest[i] == list[a] && rest[j] == list[b]);
    }
    if rest.contains(list[at]) {
        let i = rest.index_of(list[at]);
        let a = if i < at {
            i
        } else {
            i + 1
        };
        assert(rest[i] == list[a]);
    }
    if other != list[at] && list.contains(other) {
        let i = list.index_of(other);
        let a = if i < at {
            i
        } else {
            i - 1
        };
        assert(rest[a] == other);
        state::lemma_place(rest, a);
    }
    if rest.contains(other) {
        let i = rest.index_of(other);
        let a = if i < at {
            i
        } else {
            i + 1
        };
        assert(list[a] == other);
    }
}

/// A backend that joins a group becomes its last member and has that group; no
/// other group and no other backend changes.
pub proof fn law_joining_a_group(open: OpenModel, account: u64, group: u64, other: u64)
    requires
        open.wf(),
        open.working.has_backend(account),
        open.joining(account, group) is Ok,
    ensures
        ({
            let next = open.joining(account, group)->Ok_0;
            &&& open.working.has_group(group)
            &&& next.working.has_group(group)
            &&& next.working.groups[next.working.group_at(group)].members
                == open.working.groups[open.working.group_at(group)].members.push(account)
            &&& next.working.has_backend(account)
            &&& next.group_of(account) == group
            &&& other != group && open.working.has_group(other) ==> next.working.has_group(other)
                && next.working.groups[next.working.group_at(other)]
                == open.working.groups[open.working.group_at(other)]
            &&& other != account && open.working.has_backend(other) ==> next.working.has_backend(
                other,
            ) && next.working.backends[next.working.backend_at(other)]
                == open.working.backends[open.working.backend_at(other)]
        }),
{
    reveal(OpenModel::joining);
    let next = open.joining(account, group)->Ok_0;
    assert(state::ids(next.working.groups) =~= state::ids(open.working.groups));
    assert(state::accounts(next.working.backends) =~= state::accounts(open.working.backends));
    let at = open.working.group_at(group);
    assert(state::ids(open.working.groups)[at] == group);
    let place = open.working.backend_at(account);
    assert(state::accounts(open.working.backends)[place] == account);
    if open.working.has_group(other) {
        assert(state::ids(open.working.groups)[open.working.group_at(other)] == other);
    }
    if open.working.has_backend(other) {
        assert(state::accounts(open.working.backends)[open.working.backend_at(other)] == other);
    }
}

proof fn lemma_leaving_keeps(open: OpenModel, account: u64, current: u64)
    ensures
        open.leaving(account, current) matches Ok(next) ==> {
            &&& next.working.backends == open.working.backends
            &&& next.decided == open.decided
            &&& next.next_index == open.next_index
            &&& next.revisit == open.revisit
            &&& next.created == open.created
            &&& next.removed == open.removed
        },
{
    reveal(OpenModel::leaving);
}

/// A backend that leaves the router is held no more; every other one is as it was.
#[verifier::rlimit(40)]
pub proof fn law_dropping_a_backend(open: OpenModel, account: u64, current: u64, other: u64)
    requires
        open.wf(),
        open.working.has_backend(account),
        open.dropping(account, current) is Ok,
    ensures
        ({
            let next = open.dropping(account, current)->Ok_0;
            &&& !next.working.has_backend(account)
            &&& next.removed == open.removed + 1
            &&& other != account ==> {
                &&& next.working.has_backend(other) == open.working.has_backend(other)
                &&& next.working.has_backend(other) ==> next.working.backends[next.working.backend_at(
                    other,
                )] == open.working.backends[open.working.backend_at(other)]
            }
            &&& open.leaving(account, current) matches Ok(left) && next.working.groups
                == left.working.groups
        }),
{
    reveal(OpenModel::dropping);
    lemma_leaving_keeps(open, account, current);
    let next = open.dropping(account, current)->Ok_0;
    let before = state::accounts(open.working.backends);
    let after = state::accounts(next.working.backends);
    let at = open.working.backend_at(account);
    assert(before[at] == account);
    assert(after =~= before.remove(at));
    lemma_removed(before, at, other);
    lemma_removed(before, at, account);
    if other != account && before.contains(other) {
        let i = before.index_of(other);
        let j = after.index_of(other);
        assert(next.working.backends[j] == open.working.backends[i]);
    }
}

/// A created group is bound to a construction that was announced and, where that
/// is required, natively configured. It takes the values of the decision, has no
/// member yet, and stands behind every other group.
pub proof fn law_created_groups_were_announced(open: OpenModel, a: Assign)
    requires
        open.wf(),
        open.group_bound(a, true) is Ok,
    ensures
        ({
            let next = open.group_bound(a, true)->Ok_0;
            &&& exists|i: int|
                0 <= i < open.pending_created.len() && (#[trigger] open.pending_created[i]).id
                    == a.group && (open.require_native_init ==> open.pending_created[i].init_seen)
            &&& !next.is_pending(a.group)
            &&& next.pending_created.len() == open.pending_created.len() - 1
            &&& next.working.groups == open.working.groups.push(
                GroupModel {
                    id: a.group,
                    values: texts::texts(a.values@),
                    networks: texts::texts(a.values@),
                    members: Seq::empty(),
                },
            )
            &&& next.working.backends == open.working.backends
            &&& next.created == open.created + 1
        }),
{
    reveal(OpenModel::group_bound);
    let next = open.group_bound(a, true)->Ok_0;
    let ids = tracker::construction_ids(open.pending_created);
    let at = open.pending_at(a.group);
    assert(ids[at] == a.group);
    assert(open.pending_created[at].id == a.group);
    assert(tracker::construction_ids(next.pending_created) =~= ids.remove(at));
    lemma_removed(ids, at, a.group);
}

/// A failed construction is the oldest announced one that is not yet accounted
/// for, and natively configured where that is required.
pub proof fn law_failed_constructions_are_taken_in_order(open: OpenModel)
    requires
        open.failure_bound(true) is Ok,
    ensures
        open.failed_constructions.len() != 0,
        open.require_native_init ==> open.failed_constructions[0].init_seen,
        open.failure_bound(true)->Ok_0 == (OpenModel {
            failed_constructions: open.failed_constructions.skip(1),
            ..open
        }),
        open.failure_bound(false) == Ok::<OpenModel, InvalidReason>(open),
{
    reveal(OpenModel::failure_bound);
    assert(open.failed_constructions.remove(0) =~= open.failed_constructions.skip(1));
}

proof fn lemma_storing(open: OpenModel, account: u64, values: Seq<Seq<char>>, other: u64)
    requires
        open.wf(),
        open.working.has_backend(account),
    ensures
        ({
            let next = open.storing(account, values);
            &&& next.wf()
            &&& state::accounts(next.working.backends) == state::accounts(open.working.backends)
            &&& next.working.groups == open.working.groups
            &&& next.group_of(account) == open.group_of(account)
            &&& next.working.backends[next.working.backend_at(account)].values == values
            &&& next.working.backends[next.working.backend_at(account)].read_generation
                == open.generation
            &&& other != account && open.working.has_backend(other)
                ==> next.working.backends[next.working.backend_at(other)]
                == open.working.backends[open.working.backend_at(other)]
        }),
{
    let next = open.storing(account, values);
    let at = open.working.backend_at(account);
    assert(state::accounts(open.working.backends)[at] == account);
    assert(state::accounts(next.working.backends) =~= state::accounts(open.working.backends));
    if open.working.has_backend(other) {
        assert(state::accounts(open.working.backends)[open.working.backend_at(other)] == other);
    }
}

/// A backend that stays keeps its place; it has the decided group where it had
/// none, stores the values that were read, and is visited again next exactly where
/// it is unhealthy or gone.
#[verifier::rlimit(40)]
pub proof fn law_keeping_a_backend(open: OpenModel, a: Assign, input: Input, other: u64)
    requires
        open.wf(),
        open.revisit is None,
        open.working.has_backend(a.account),
        open.keeping(a, input, open.group_of(a.account)) is Ok,
    ensures
        ({
            let current = open.group_of(a.account);
            let next = open.keeping(a, input, current)->Ok_0;
            &&& next.working.has_backend(a.account)
            &&& next.group_of(a.account) == if current == 0 {
                a.group
            } else {
                current
            }
            &&& next.revisit == if input.healthy && input.present {
                None::<u64>
            } else {
                Some(a.account)
            }
            &&& a.values_read ==> next.working.backends[next.working.backend_at(a.account)].values
                == texts::texts(a.values@)
            &&& !a.values_read ==> next.working.backends[next.working.backend_at(a.account)].values
                == open.working.backends[open.working.backend_at(a.account)].values
            &&& current == 0 && a.group != 0 ==> next.working.has_group(a.group)
                && next.working.groups[next.working.group_at(a.group)].members.contains(a.account)
            &&& current != 0 || a.group == 0 ==> next.working.groups == open.working.groups
            &&& other != a.account && open.working.has_backend(other) ==> next.working.has_backend(
                other,
            ) && next.working.backends[next.working.backend_at(other)]
                == open.working.backends[open.working.backend_at(other)]
            &&& next.decided == open.decided
            &&& next.next_index == open.next_index
            &&& next.created == open.created
            &&& next.removed == open.removed
        }),
{
    reveal(OpenModel::keeping);
    let current = open.group_of(a.account);
    let stored = if a.values_read {
        open.storing(a.account, a.texts())
    } else {
        open
    };
    lemma_storing(open, a.account, a.texts(), other);
    if a.group != 0 && current == 0 {
        law_joining_a_group(stored, a.account, a.group, other);
        let joined = stored.joining(a.account, a.group)->Ok_0;
        let members = joined.working.groups[joined.working.group_at(a.group)].members;
        assert(members[members.len() - 1] == a.account);
        assert(joined.working.backends[joined.working.backend_at(a.account)].values
            == stored.working.backends[stored.working.backend_at(a.account)].values) by {
            reveal(OpenModel::joining);
            assert(state::accounts(joined.working.backends) =~= state::accounts(
                stored.working.backends,
            ));
        }
        assert(joined.decided == open.decided && joined.next_index == open.next_index
            && joined.created == open.created && joined.removed == open.removed && joined.revisit
            == open.revisit) by {
            reveal(OpenModel::joining);
        }
    }
}

proof fn lemma_bound(open: OpenModel, a: Assign, failed: bool, created: bool)
    requires
        open.wf(),
    ensures
        open.failure_bound(failed) matches Ok(first) ==> {
            &&& first.wf()
            &&& first.working == open.working
            &&& first.decided == open.decided
            &&& first.next_index == open.next_index
            &&& first.revisit == open.revisit
            &&& first.removed == open.removed
            &&& first.created == open.created
        },
{
    reveal(OpenModel::failure_bound);
}

/// The first visit of a backend is counted once and in order. It is of a held
/// backend that the health loop read and that was not decided before, and it read
/// values exactly where a healthy backend's group depends on them. What it reports
/// is what the retained metadata derives. A removed backend is held no more; any
/// other one has the reported group, and is visited again next exactly where it
/// was kept although unhealthy or gone.
#[verifier::rlimit(40)]
pub proof fn law_decisions_take_effect(
    open: OpenModel,
    a: Assign,
    idle: bool,
    parses: bool,
    retained: nat,
    admission: Admission,
)
    requires
        open.wf(),
        open.revisit is None,
        open.assign(a, idle, parses, retained, admission).0 is Ok,
    ensures
        ({
            let next = open.assign(a, idle, parses, retained, admission).0->Ok_0;
            let input = tracker::input_of(open.inputs, a.account);
            let outcome = open.outcome_of(a, idle, parses);
            &&& a.generation == open.generation
            &&& a.index == open.next_index
            &&& next.next_index == open.next_index + 1
            &&& !open.decided.contains(a.account)
            &&& next.decided == open.decided.push(a.account)
            &&& open.working.has_backend(a.account)
            &&& exists|i: int|
                0 <= i < open.inputs.len() && (#[trigger] open.inputs[i]).account == a.account
            &&& a.values_read <==> input.healthy && input.present && !(open.rule is All)
            &&& outcome.removed == a.removed
            &&& outcome.created == a.created
            &&& outcome.group == a.group
            &&& a.removed ==> !next.working.has_backend(a.account) && next.revisit is None
                && next.removed == open.removed + 1
            &&& !a.removed ==> {
                &&& next.working.has_backend(a.account)
                &&& next.group_of(a.account) == a.group
                &&& next.removed == open.removed
                &&& next.revisit is Some <==> !input.healthy || !input.present
                &&& next.revisit is Some ==> next.revisit == Some(a.account)
            }
            &&& next.created == open.created + if a.created {
                1int
            } else {
                0int
            }
        }),
{
    reveal(OpenModel::assign);
    reveal(OpenModel::decided_by);
    reveal(OpenModel::applied);
    let read = open.having_read(a.texts().len(), texts::total_bytes(a.texts()));
    let current = read.group_of(a.account);
    let input = tracker::input_of(open.inputs, a.account);
    let outcome = read.outcome_of(a, idle, parses);
    assert(outcome == open.outcome_of(a, idle, parses));
    assert(read.wf());
    lemma_bound(read, a, outcome.construction_failed, outcome.created);
    let first = read.failure_bound(outcome.construction_failed)->Ok_0;
    lemma_group_bound(first, a, outcome.created);
    let second = first.group_bound(a, outcome.created)->Ok_0;
    assert(second.working.backends == open.working.backends);
    if a.removed {
        assert(!outcome.created);
        lemma_uncreated(first, a);
        law_dropping_a_backend(second, a.account, current, a.account);
        lemma_dropping_keeps(second, a.account, current);
    } else {
        assert(second.group_of(a.account) == current);
        lemma_keeping_counts(second, a, input);
        assert(current != 0 ==> outcome.group == current);
    }
}

proof fn lemma_uncreated(open: OpenModel, a: Assign)
    ensures
        open.group_bound(a, false) == Ok::<OpenModel, InvalidReason>(open),
{
    reveal(OpenModel::group_bound);
}

proof fn lemma_group_bound(open: OpenModel, a: Assign, created: bool)
    requires
        open.wf(),
    ensures
        open.group_bound(a, created) matches Ok(next) ==> {
            &&& next.working.backends == open.working.backends
            &&& next.decided == open.decided
            &&& next.next_index == open.next_index
            &&& next.revisit == open.revisit
            &&& next.removed == open.removed
            &&& next.created == open.created + if created {
                1int
            } else {
                0int
            }
            &&& next.working.wf()
        },
{
    reveal(OpenModel::group_bound);
    if created && open.group_bound(a, created) is Ok {
        let next = open.group_bound(a, created)->Ok_0;
        let before = state::ids(open.working.groups);
        let after = state::ids(next.working.groups);
        assert(after =~= before.push(a.group));
        let ids = tracker::construction_ids(open.pending_created);
        let at = open.pending_at(a.group);
        assert(ids[at] == a.group);
        assert(open.pending_created[at].id == a.group);
        assert(!open.working.has_group(a.group));
        assert(a.group != 0) by {
            if a.group == 0 {
                assert(ids.contains(0));
            }
        }
        assert(after.no_duplicates());
        assert(!after.contains(0)) by {
            if after.contains(0) {
                let i = after.index_of(0);
                assert(before[i] == 0);
                assert(before.contains(0));
            }
        }
    }
}

proof fn lemma_dropping_keeps(open: OpenModel, account: u64, current: u64)
    ensures
        open.dropping(account, current) matches Ok(next) ==> {
            &&& next.decided == open.decided
            &&& next.next_index == open.next_index
            &&& next.revisit == open.revisit
            &&& next.created == open.created
        },
{
    reveal(OpenModel::dropping);
    lemma_leaving_keeps(open, account, current);
}

proof fn lemma_keeping_counts(open: OpenModel, a: Assign, input: Input)
    requires
        open.working.wf(),
        open.revisit is None,
        open.working.has_backend(a.account),
        open.keeping(a, input, open.group_of(a.account)) is Ok,
    ensures
        ({
            let current = open.group_of(a.account);
            let next = open.keeping(a, input, current)->Ok_0;
            &&& next.working.has_backend(a.account)
            &&& next.group_of(a.account) == if current == 0 {
                a.group
            } else {
                current
            }
            &&& next.revisit == if input.healthy && input.present {
                None::<u64>
            } else {
                Some(a.account)
            }
            &&& next.decided == open.decided
            &&& next.next_index == open.next_index
            &&& next.created == open.created
            &&& next.removed == open.removed
        }),
{
    reveal(OpenModel::keeping);
    reveal(OpenModel::joining);
    let current = open.group_of(a.account);
    let next = open.keeping(a, input, current)->Ok_0;
    let at = open.working.backend_at(a.account);
    assert(state::accounts(open.working.backends)[at] == a.account);
    let stored = if a.values_read {
        open.storing(a.account, a.texts())
    } else {
        open
    };
    assert(state::accounts(stored.working.backends) =~= state::accounts(open.working.backends));
    assert(state::accounts(next.working.backends) =~= state::accounts(open.working.backends));
}

/// A backend that was kept while busy is visited once more by the very next
/// decision, which keeps its group, decides nothing and counts no backend twice.
pub proof fn law_revisits_keep_the_group(
    open: OpenModel,
    a: Assign,
    idle: bool,
    parses: bool,
    retained: nat,
    admission: Admission,
)
    requires
        open.wf(),
        open.revisit is Some,
        open.assign(a, idle, parses, retained, admission).0 is Ok,
    ensures
        ({
            let next = open.assign(a, idle, parses, retained, admission).0->Ok_0;
            &&& a.account == open.revisit->0
            &&& !a.removed
            &&& !a.created
            &&& a.group == open.group_of(a.account)
            &&& a.values_read <==> !(open.rule is All)
            &&& next.revisit is None
            &&& next.next_index == open.next_index + 1
            &&& next.decided == open.decided
            &&& next.working.groups == open.working.groups
            &&& next.working.has_backend(a.account)
            &&& next.group_of(a.account) == a.group
            &&& next.created == open.created
            &&& next.removed == open.removed
        }),
{
    reveal(OpenModel::assign);
    reveal(OpenModel::revisited);
    let read = open.having_read(a.texts().len(), texts::total_bytes(a.texts()));
    assert(read.wf());
    lemma_storing(read, a.account, a.texts(), a.account);
}

proof fn lemma_noted_backend(known: StateModel, input: Input, account: u64)
    requires
        known.wf(),
        account != 0,
    ensures
        ({
            let next = tracker::noted(known, input);
            &&& next.wf()
            &&& next.groups == known.groups
            &&& next.has_backend(account) <==> known.has_backend(account) || input.account
                == account
            &&& known.has_backend(account) ==> {
                let was = known.backends[known.backend_at(account)];
                let now = next.backends[next.backend_at(account)];
                &&& now.group == was.group
                &&& now.values == was.values
                &&& now.support_redirection == if input.account == account {
                    input.support_redirection
                } else {
                    was.support_redirection
                }
            }
            &&& !known.has_backend(account) && input.account == account ==> {
                let now = next.backends[next.backend_at(account)];
                &&& now.group == 0
                &&& now.values.len() == 0
                &&& now.support_redirection == input.support_redirection
            }
        }),
{
    let next = tracker::noted(known, input);
    let before = state::accounts(known.backends);
    let after = state::accounts(next.backends);
    if input.account != 0 {
        if known.has_backend(input.account) {
            let at = known.backend_at(input.account);
            assert(before[at] == input.account);
            assert(after =~= before);
            if before.contains(account) {
                assert(before[before.index_of(account)] == account);
            }
        } else {
            assert(after =~= before.push(input.account));
            assert(after.no_duplicates());
            assert(!after.contains(0)) by {
                if after.contains(0) {
                    let i = after.index_of(0);
                    assert(before[i] == 0);
                    assert(before.contains(0));
                }
            }
            if before.contains(account) {
                let i = before.index_of(account);
                assert(after[i] == account);
                state::lemma_place(after, i);
                assert(next.backends[i] == known.backends[i]);
            }
            if input.account == account {
                assert(after[after.len() - 1] == account);
                state::lemma_place(after, after.len() - 1);
            }
            if after.contains(account) && input.account != account {
                let i = after.index_of(account);
                assert(before[i] == account);
            }
        }
    }
}

/// The health loop adds every backend that the router newly holds, without a group
/// or values, and forgets none. What each held backend was read to support is
/// kept, its group and values are not touched, and neither is any group.
#[verifier::rlimit(40)]
pub proof fn law_health_reads_are_noted(known: StateModel, inputs: Seq<Input>, account: u64)
    requires
        known.wf(),
        account != 0,
        forall|i: int, j: int|
            0 <= i < j < inputs.len() && inputs[j].account != 0 ==> (#[trigger] inputs[i]).account
                != (#[trigger] inputs[j]).account,
    ensures
        ({
            let next = tracker::all_noted(known, inputs);
            let named = exists|i: int|
                0 <= i < inputs.len() && (#[trigger] inputs[i]).account == account;
            &&& next.wf()
            &&& next.groups == known.groups
            &&& next.has_backend(account) <==> known.has_backend(account) || named
            &&& forall|i: int|
                0 <= i < inputs.len() && (#[trigger] inputs[i]).account == account
                    ==> next.backends[next.backend_at(account)].support_redirection
                    == inputs[i].support_redirection
            &&& known.has_backend(account) ==> {
                let was = known.backends[known.backend_at(account)];
                let now = next.backends[next.backend_at(account)];
                &&& now.group == was.group
                &&& now.values == was.values
                &&& !named ==> now.support_redirection == was.support_redirection
            }
            &&& !known.has_backend(account) && named ==> {
                let now = next.backends[next.backend_at(account)];
                &&& now.group == 0
                &&& now.values.len() == 0
            }
        }),
    decreases inputs.len(),
{
    if inputs.len() != 0 {
        let before = inputs.drop_last();
        assert forall|i: int, j: int|
            0 <= i < j < before.len() && before[j].account != 0 implies (
        #[trigger] before[i]).account != (#[trigger] before[j]).account by {
            assert(inputs[i] == before[i] && inputs[j] == before[j]);
        }
        law_health_reads_are_noted(known, before, account);
        lemma_noted_backend(tracker::all_noted(known, before), inputs.last(), account);
        let last = inputs.len() - 1;
        if exists|i: int| 0 <= i < before.len() && (#[trigger] before[i]).account == account {
            let i = choose|i: int| 0 <= i < before.len() && (#[trigger] before[i]).account
                == account;
            assert(inputs[i] == before[i]);
            assert(inputs[last].account != account) by {
                assert(inputs[i].account == account);
                assert(inputs[last] == inputs.last());
            }
        }
        if exists|i: int| 0 <= i < inputs.len() && (#[trigger] inputs[i]).account == account {
            let i = choose|i: int| 0 <= i < inputs.len() && (#[trigger] inputs[i]).account
                == account;
            if i < last {
                assert(before[i] == inputs[i]);
            }
        }
        assert(inputs[last] == inputs.last());
        let next = tracker::all_noted(known, inputs);
        assert forall|i: int| 0 <= i < inputs.len() && (#[trigger] inputs[i]).account
            == account implies next.backends[next.backend_at(account)].support_redirection
            == inputs[i].support_redirection by {
            if i < last {
                assert(before[i] == inputs[i]);
            }
        }
    }
}

/// As many decisions are owed as the health loop read backends that the router
/// holds.
pub proof fn law_held_backends_are_counted(inputs: Seq<Input>)
    ensures
        tracker::held_count(inputs) == inputs.filter(|input: Input| input.account != 0).len(),
    decreases inputs.len(),
{
    reveal(Seq::filter);
    if inputs.len() != 0 {
        law_held_backends_are_counted(inputs.drop_last());
    }
}

/// A refresh begins exactly where none is open, it is the next one, its header is
/// well formed, the rule is the router's, and, without an observer's error, its
/// inputs name every held backend and add only healthy ones. It owes one decision
/// for each held backend, none with an observer's error, and has made none.
#[verifier::rlimit(40)]
pub proof fn law_refreshes_begin_complete(t: TrackerModel, begin: Begin)
    ensures
        t.begin_refusal(begin) is None <==> {
            &&& t.failed is None
            &&& t.open is None
            &&& begin.generation == t.last_generation + 1
            &&& begin.shape_refusal() is None
            &&& t.state.rule matches Some(rule) ==> rule == begin.rule
            &&& begin.observer_error is Success ==> {
                &&& forall|i: int|
                    0 <= i < t.state.backends.len() ==> tracker::names(
                        begin.inputs@,
                        (#[trigger] t.state.backends[i]).account,
                    )
                &&& forall|i: int|
                    0 <= i < begin.inputs@.len() && (#[trigger] begin.inputs@[i]).account != 0
                        && !begin.inputs@[i].healthy ==> t.state.has_backend(
                        begin.inputs@[i].account,
                    )
            }
        },
        ({
            let open = t.opened(begin);
            &&& open.generation == begin.generation
            &&& open.rule == begin.rule
            &&& open.observer_error == begin.observer_error
            &&& open.decided.len() == 0
            &&& open.next_index == 0
            &&& open.cursor == 0
            &&& open.created == 0 && open.removed == 0 && open.refresh_failed == 0
            &&& open.revisit is None
            &&& open.working.groups.len() == t.state.groups.len()
            &&& begin.observer_error is Success ==> {
                &&& open.expected == begin.inputs@.filter(|input: Input| input.account != 0).len()
                &&& open.working.support_redirection <==> forall|i: int|
                    0 <= i < begin.inputs@.len() ==> (
                    #[trigger] begin.inputs@[i]).support_redirection
            }
            &&& !(begin.observer_error is Success) ==> {
                &&& open.expected == 0
                &&& open.working.groups == t.state.groups
                &&& open.working.backends == t.state.backends
                &&& open.working.support_redirection == t.state.support_redirection
            }
        }),
{
    law_held_backends_are_counted(begin.inputs@);
    lemma_noting_keeps_groups(t.opened(begin).working, begin.inputs@);
    let base = StateModel {
        rule: Some(begin.rule),
        observer_error: begin.observer_error,
        reserved: true,
        ..t.state
    };
    lemma_noting_keeps_groups(base, begin.inputs@);
}

proof fn lemma_noting_keeps_groups(known: StateModel, inputs: Seq<Input>)
    ensures
        tracker::all_noted(known, inputs).groups == known.groups,
    decreases inputs.len(),
{
    if inputs.len() != 0 {
        lemma_noting_keeps_groups(known, inputs.drop_last());
    }
}

/// Groups are refreshed in order, each once, after the last decision. Under an
/// address rule the group stores the values that its members read, each once and
/// no other, and matches them only where they parse; a result that does not parse
/// is counted. Under any other rule nothing is stored.
#[verifier::rlimit(40)]
pub proof fn law_refreshes_go_through_the_groups(
    open: OpenModel,
    frame: Refresh,
    parses: bool,
    retained: nat,
    admission: Admission,
)
    requires
        open.refresh(frame, parses, retained, admission).0 is Ok,
    ensures
        ({
            let next = open.refresh(frame, parses, retained, admission).0->Ok_0;
            let at = open.cursor as int;
            let cidr = open.rule is ClientCidr || open.rule is ProxyCidr;
            &&& at < open.working.groups.len()
            &&& open.working.groups[at].id == frame.group
            &&& open.decided.len() == open.expected
            &&& open.revisit is None
            &&& next.cursor == open.cursor + 1
            &&& frame.values_read == cidr
            &&& next.decided == open.decided
            &&& !cidr ==> next.working == open.working && next.refresh_failed
                == open.refresh_failed
            &&& cidr ==> {
                let result = texts::texts(frame.values@);
                let tape = frame.tape();
                &&& frame.parsed == parses
                &&& next.working.groups[at].id == frame.group
                &&& next.working.groups[at].values == result
                &&& next.working.groups[at].members == open.working.groups[at].members
                &&& parses ==> next.working.groups[at].networks == result
                &&& !parses ==> next.working.groups[at].networks
                    == open.working.groups[at].networks
                &&& next.refresh_failed == open.refresh_failed + if parses {
                    0int
                } else {
                    1int
                }
                &&& result.no_duplicates()
                &&& forall|value: Seq<char>| #[trigger]
                    result.contains(value) <==> exists|i: int|
                        0 <= i < tape.len() && (#[trigger] tape[i]).values.contains(value)
                &&& tape.len() == open.working.groups[at].members.len()
                &&& forall|i: int|
                    0 <= i < tape.len() ==> open.working.groups[at].members.contains(
                        (#[trigger] tape[i]).account,
                    )
                &&& forall|i: int|
                    0 <= i < open.working.groups.len() && i != at
                        ==> #[trigger] next.working.groups[i] == open.working.groups[i]
            }
        }),
{
    reveal(OpenModel::refresh);
    reveal(OpenModel::recomputed);
    let cidr = open.rule is ClientCidr || open.rule is ProxyCidr;
    if cidr {
        let read = open.having_read(frame.value_count(), frame.byte_count());
        let tape = frame.tape();
        let result = texts::texts(frame.values@);
        lemma_storing_all_keeps(read, tape);
        assert(frame.texts() == result);
        assert(state::is_union(result, tape));
        assert forall|value: Seq<char>| #[trigger] result.contains(value) <==> exists|i: int|
            0 <= i < tape.len() && (#[trigger] tape[i]).values.contains(value) by {
            if result.contains(value) {
                let j = result.index_of(value);
                assert(state::read_by_some(tape, result[j]));
            }
            if exists|i: int| 0 <= i < tape.len() && (#[trigger] tape[i]).values.contains(value) {
                let i = choose|i: int|
                    0 <= i < tape.len() && (#[trigger] tape[i]).values.contains(value);
                let j = tape[i].values.index_of(value);
                assert(texts::covered(tape[i].values, result));
                assert(result.contains(tape[i].values[j]));
            }
        }
    }
}

proof fn lemma_storing_all_keeps(open: OpenModel, tape: Seq<MemberModel>)
    ensures
        open.storing_all(tape) matches Some(next) ==> next.working.groups == open.working.groups
            && next.decided == open.decided,
    decreases tape.len(),
{
    if tape.len() != 0 {
        lemma_storing_all_keeps(open, tape.drop_last());
    }
}

/// A refresh is committed with exactly the counts that its tail reports: the
/// groups that are live, those that it created, the backends that it removed, the
/// groups that did not parse, and the ports that two clusters claim. Redirection
/// is what the health loop found, and a detector is there under the port rule.
/// With an observer's error nothing was rebuilt.
#[verifier::rlimit(40)]
pub proof fn law_tails_report_what_is_committed(t: TrackerModel, tail: End, admission: Admission)
    requires
        t.end(tail, admission).0 is Ok,
        t.open->0.wf(),
    ensures
        ({
            let open = t.open->0;
            let next = t.end(tail, admission).0->Ok_0;
            &&& t.failed is None
            &&& next.open is None
            &&& next.failed is None
            &&& next.last_generation == tail.generation
            &&& tail.groups == next.state.groups.len()
            &&& open.decided.len() == open.expected
            &&& open.observer_error is Success ==> {
                let list = state::claims(open.working.groups);
                &&& tail.created == open.created
                &&& tail.removed == open.removed
                &&& tail.refresh_failed == open.refresh_failed
                &&& tail.support_redirection == open.working.support_redirection
                &&& next.state.support_redirection == open.working.support_redirection
                &&& next.state.detector_present <==> open.rule is Port
                &&& open.rule is Port ==> next.state.conflicts == state::contested_ports(list).len()
                &&& !(open.rule is Port) ==> next.state.conflicts == 0
                &&& tail.conflicts == next.state.conflicts
                &&& open.cursor == open.working.groups.len()
            }
            &&& !(open.observer_error is Success) ==> {
                &&& next.state == open.working
                &&& tail.created == 0
                &&& tail.removed == 0
                &&& tail.refresh_failed == 0
                &&& tail.conflicts == 0
                &&& tail.support_redirection == t.state.support_redirection
            }
        }),
{
    reveal(OpenModel::end);
}

/// A group is announced once: not while it is live, under construction or failed.
/// It then awaits its native configuration and the decision that binds it.
pub proof fn law_groups_are_announced_once(open: OpenModel, id: u64, other: u64)
    requires
        open.wf(),
        open.group_event(LiveEvent::GroupCreated(id)) is Ok,
    ensures
        ({
            let next = open.group_event(LiveEvent::GroupCreated(id))->Ok_0;
            &&& id != 0
            &&& !open.working.has_group(id)
            &&& !open.is_pending(id)
            &&& !tracker::construction_ids(open.failed_constructions).contains(id)
            &&& next.is_pending(id)
            &&& !next.pending_created[next.pending_at(id)].init_seen
            &&& other != id ==> next.is_pending(other) == open.is_pending(other)
            &&& next.working == open.working
            &&& next.pending_removed == open.pending_removed
            &&& next.failed_constructions == open.failed_constructions
            &&& next.group_event(LiveEvent::GroupCreated(id)) is Err
        }),
{
    let next = open.group_event(LiveEvent::GroupCreated(id))->Ok_0;
    let before = tracker::construction_ids(open.pending_created);
    let after = tracker::construction_ids(next.pending_created);
    assert(after =~= before.push(id));
    assert(after[after.len() - 1] == id);
    assert(after.no_duplicates());
    state::lemma_place(after, after.len() - 1);
    if before.contains(other) {
        assert(after[before.index_of(other)] == other);
    }
    if after.contains(other) && other != id {
        let i = after.index_of(other);
        assert(before[i] == other);
    }
}

/// A group that is removed while under construction has failed, behind those that
/// failed before; a live one awaits the decision that empties it, and is removed
/// once. No other group now.
pub proof fn law_removals_await_their_decision(open: OpenModel, id: u64)
    requires
        open.wf(),
        open.group_event(LiveEvent::GroupRemoved(id)) is Ok,
    ensures
        ({
            let next = open.group_event(LiveEvent::GroupRemoved(id))->Ok_0;
            &&& next.working == open.working
            &&& open.is_pending(id) || open.working.has_group(id)
            &&& open.is_pending(id) ==> {
                &&& !next.is_pending(id)
                &&& next.failed_constructions == open.failed_constructions.push(
                    open.pending_created[open.pending_at(id)],
                )
                &&& next.failed_constructions.last().id == id
                &&& next.pending_removed == open.pending_removed
            }
            &&& !open.is_pending(id) ==> {
                &&& !open.pending_removed.contains(id)
                &&& next.pending_removed == open.pending_removed.push(id)
                &&& next.pending_created == open.pending_created
                &&& next.failed_constructions == open.failed_constructions
                &&& next.group_event(LiveEvent::GroupRemoved(id)) is Err
            }
        }),
{
    let next = open.group_event(LiveEvent::GroupRemoved(id))->Ok_0;
    let before = tracker::construction_ids(open.pending_created);
    if open.is_pending(id) {
        let at = open.pending_at(id);
        assert(before[at] == id);
        assert(tracker::construction_ids(next.pending_created) =~= before.remove(at));
        lemma_removed(before, at, id);
    } else {
        let after = next.pending_removed;
        assert(after[after.len() - 1] == id);
        assert(after.contains(id));
    }
}

/// A native configuration is noted of a group under construction and changes
/// nothing of a live one; there is none of any other group.
pub proof fn law_native_configurations_are_noted(open: OpenModel, group: u64, other: u64)
    requires
        open.wf(),
    ensures
        open.native_init(group) is Ok <==> open.is_pending(group) || open.working.has_group(group),
        open.native_init(group) matches Ok(next) ==> {
            &&& next.working == open.working
            &&& next.is_pending(other) == open.is_pending(other)
            &&& open.is_pending(group) ==> next.pending_created[next.pending_at(group)].init_seen
            &&& open.is_pending(other) && other != group ==> next.pending_created[next.pending_at(
                other,
            )] == open.pending_created[open.pending_at(other)]
            &&& !open.is_pending(group) ==> next == open
        },
{
    if open.native_init(group) is Ok {
        let next = open.native_init(group)->Ok_0;
        let before = tracker::construction_ids(open.pending_created);
        if open.is_pending(group) {
            assert(before[open.pending_at(group)] == group);
        }
        assert(tracker::construction_ids(next.pending_created) =~= before);
        if before.contains(other) {
            assert(before[before.index_of(other)] == other);
        }
    }
}

/// A tracker that is called with a decision, a recomputation or a tail takes the step
/// that the frame makes, or fails with the reason and keeps what was committed.
pub proof fn law_calls_are_tracked(
    deciding: &mut Tracker,
    a: &Assign,
    idle: bool,
    parses: bool,
    first: &mut Admission,
    decided: Result<(), InvalidReason>,
    refreshing: &mut Tracker,
    frame: &Refresh,
    second: &mut Admission,
    refreshed: Result<(), InvalidReason>,
    ending: &mut Tracker,
    tail: End,
    third: &mut Admission,
    ended: Result<(), InvalidReason>,
)
    requires
        call_ensures(Tracker::assign, (deciding, a, idle, parses, first), decided),
        call_ensures(Tracker::refresh, (refreshing, frame, parses, second), refreshed),
        call_ensures(Tracker::end, (ending, tail, third), ended),
    ensures
        decided is Ok ==> old(deciding)@.assign(*a, idle, parses, *old(first)).0 == Ok::<
            TrackerModel,
            InvalidReason,
        >(final(deciding)@),
        decided is Err ==> old(deciding)@.assign(*a, idle, parses, *old(first)).0 is Err
            && final(deciding)@.failed is Some && final(deciding)@.state == old(deciding)@.state
            && final(deciding)@.last_generation == old(deciding)@.last_generation,
        refreshed is Ok ==> old(refreshing)@.refresh(*frame, parses, *old(second)).0 == Ok::<
            TrackerModel,
            InvalidReason,
        >(final(refreshing)@),
        refreshed is Err ==> old(refreshing)@.refresh(*frame, parses, *old(second)).0 is Err
            && final(refreshing)@.failed is Some && final(refreshing)@.state
            == old(refreshing)@.state && final(refreshing)@.last_generation
            == old(refreshing)@.last_generation,
        ended is Ok ==> old(ending)@.end(tail, *old(third)).0 == Ok::<TrackerModel, InvalidReason>(
            final(ending)@,
        ),
        ended is Err ==> old(ending)@.end(tail, *old(third)).0 is Err && final(ending)@.failed
            is Some && final(ending)@.state == old(ending)@.state && final(ending)@.last_generation
            == old(ending)@.last_generation,
{
}

} // verus!
