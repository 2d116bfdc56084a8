//! What a stage commits when every one of its children compared.
use vstd::prelude::*;

use super::laws as stage_laws;
use super::laws::{ledger_after, same_history};
use super::timing::TimingModel;
use super::{retention, Plan, ScopeModel, StageModel};
use crate::shadow::fork;
use crate::shadow::ledger::MirrorModel;
use crate::shadow::live::retention as live_retention;
use crate::shadow::live::{laws, Batch, LiveEvent, LiveModel};
use crate::shadow::native::Evaluation;
use crate::shadow::native_compute::{Computation, FactorModel};
use crate::shadow::{accounting, Epoch, InvalidReason, OwnerModel, Progress, Status};

verus! {

/// A child of a stage.
pub enum Child {
    /// A captured mutation.
    Batch(Batch),
    /// An evaluation and its independent computation.
    Evaluation(Evaluation, Computation),
}

impl Child {
    /// The sequences that the child takes.
    pub open spec fn span(self) -> nat {
        match self {
            Child::Batch(batch) => batch.events@.len(),
            Child::Evaluation(_, _) => 1,
        }
    }

    /// The lifecycle events of the child.
    pub open spec fn events(self) -> Seq<LiveEvent> {
        match self {
            Child::Batch(batch) => batch.events@,
            Child::Evaluation(_, _) => seq![],
        }
    }
}

/// The sequences that the first children take.
pub open spec fn span_of(children: Seq<Child>, count: int) -> nat
    decreases count,
{
    if count <= 0 {
        0
    } else {
        span_of(children, count - 1) + children[count - 1].span()
    }
}

/// The lifecycle events of the first children, in order.
pub open spec fn events_of(children: Seq<Child>, count: int) -> Seq<LiveEvent>
    decreases count,
{
    if count <= 0 {
        seq![]
    } else {
        events_of(children, count - 1) + children[count - 1].events()
    }
}

/// A group's factor and scheduling history.
#[verifier::ext_equal]
pub struct History {
    /// Factor history.
    pub state: FactorModel,
    /// Scheduling history.
    pub timing: TimingModel,
}

/// A group's history after the first children, if the factors accept them all.
pub open spec fn history_after(history: History, children: Seq<Child>, count: int) -> Option<History>
    decreases count,
{
    if count <= 0 {
        Some(history)
    } else {
        match history_after(history, children, count - 1) {
            None => None,
            Some(before) => match children[count - 1] {
                Child::Batch(batch) => Some(
                    History { timing: before.timing.after(batch), ..before },
                ),
                Child::Evaluation(e, c) => match before.state.apply(e, c) {
                    Ok(state) => Some(History { state, ..before }),
                    Err(_) => None,
                },
            },
        }
    }
}

impl LiveModel {
    /// The history of a group that an evaluation is applied to.
    pub open spec fn history_of(self, epoch: Epoch, group: u64) -> History {
        let stored = self.stored_of(epoch, group);
        History { state: stored.state, timing: stored.timing }
    }
}

impl StageModel {
    /// The stage after a child, and whether it compared.
    pub open spec fn child(self, child: Child) -> (StageModel, Result<(), InvalidReason>) {
        match child {
            Child::Batch(batch) => self.batch(batch),
            Child::Evaluation(e, c) => {
                let (next, result) = self.evaluation(e, c);
                (next, super::verdict_of(result))
            },
        }
    }

    /// The stage after the first children, if they all compared.
    pub open spec fn after_children(self, children: Seq<Child>, count: int) -> Option<StageModel>
        decreases count,
    {
        if count <= 0 {
            Some(self)
        } else {
            match self.after_children(children, count - 1) {
                None => None,
                Some(before) => match before.child(children[count - 1]) {
                    (next, Ok(_)) => Some(next),
                    (_, Err(_)) => None,
                },
            }
        }
    }

    /// The stage is sound and has not failed, and its private owner is still
    /// compared.
    pub open spec fn comparing(self) -> bool {
        &&& self.sound()
        &&& self.failed is None
        &&& self.metadata is None
        &&& self.staged.core.owners[self.key()].epoch == self.epoch
        &&& self.staged.core.owners[self.key()].status is Comparing
    }

    /// The private sequence.
    pub open spec fn at(self) -> u64 {
        self.staged.core.owners[self.key()].sequence
    }
}

/// No attempt is settled where there is none.
proof fn lemma_empty_settles(events: Seq<LiveEvent>, count: int, batch: Batch)
    ensures
        TimingModel::empty().settled_by(events, count, batch.witness) == TimingModel::empty(),
    decreases count,
{
    if count > 0 {
        lemma_empty_settles(events, count - 1, batch);
    }
}

proof fn lemma_batch_child(s: StageModel, batch: Batch)
    requires
        s.comparing(),
        s.batch(batch).1 is Ok,
    ensures
        ({
            let n = s.batch(batch).0;
            &&& n.comparing()
            &&& n.at() == s.at() + batch.events@.len()
            &&& n.original == s.original
            &&& n.part().accounts.dom() == s.part().accounts.dom()
            &&& n.staged.selectors == s.staged.selectors
            &&& n.staged.history_of(s.epoch, s.group) == (History {
                timing: s.staged.history_of(s.epoch, s.group).timing.after(batch),
                ..s.staged.history_of(s.epoch, s.group)
            })
            &&& ledger_after(
                s.whole().merged(s.part()),
                batch.events@,
                batch.events@.len() as int,
            ) == Some(s.whole().merged(n.part()))
        }),
{
    let count = batch.events@.len() as int;
    stage_laws::lemma_batch_sound(s, batch);
    stage_laws::law_batch_commits_as_applied(s, batch);
    laws::law_observe_advances_or_disqualifies(s.staged, batch);
    stage_laws::lemma_run_keeps_accounts(s.staged, batch, s.group, s.sessions, count);
    live_retention::lemma_observe_staged(s.staged, batch, s.epoch, s.group);
    lemma_batch_history(s, batch);
}

proof fn lemma_batch_history(s: StageModel, batch: Batch)
    requires
        s.comparing(),
        s.batch(batch).1 is Ok,
    ensures
        s.batch(batch).0.staged.history_of(s.epoch, s.group) == (History {
            timing: s.staged.history_of(s.epoch, s.group).timing.after(batch),
            ..s.staged.history_of(s.epoch, s.group)
        }),
{
    let count = batch.events@.len() as int;
    live_retention::lemma_run_retention(s.staged, batch, count);
    lemma_empty_settles(batch.events@, count, batch);
    let (state, result) = s.staged.compared(batch);
    assert(state.native == s.staged.native);
    assert(result == Ok::<bool, InvalidReason>(true)) by {
        laws::law_observe_advances_or_disqualifies(s.staged, batch);
        if let Err(reason) = result {
            let noticed = state.invalidated(batch.epoch, reason);
            assert(s.staged.observe(batch).progress(batch.epoch).status is Invalid);
        }
    }
    let before = s.staged.native[s.epoch];
    let after = before.settled(batch);
    assert(s.batch(batch).0.staged.native[s.epoch] == after);
    assert(after.groups.contains_key(s.group) == before.groups.contains_key(s.group));
}

proof fn lemma_evaluation_child(s: StageModel, e: Evaluation, c: Computation)
    requires
        s.comparing(),
        s.evaluation(e, c).1 is Ok,
    ensures
        ({
            let n = s.evaluation(e, c).0;
            &&& n.comparing()
            &&& n.at() == s.at() + 1
            &&& same_history(n.original, s.original)
            &&& n.part() == s.part()
            &&& n.staged.selectors == s.staged.selectors
            &&& s.staged.history_of(s.epoch, s.group).state.apply(e, c) is Ok
            &&& n.staged.history_of(s.epoch, s.group) == (History {
                state: s.staged.history_of(s.epoch, s.group).state.apply(e, c)->Ok_0,
                ..s.staged.history_of(s.epoch, s.group)
            })
        }),
{
    stage_laws::lemma_evaluation_sound(s, e, c);
}

/// Events after others are applied to what the others left.
proof fn lemma_after_appended(ledger: MirrorModel, first: Seq<LiveEvent>, second: Seq<LiveEvent>, count: int)
    requires
        0 <= count <= second.len(),
        ledger_after(ledger, first, first.len() as int) is Some,
    ensures
        ledger_after(ledger, first + second, first.len() + count) == ledger_after(
            ledger_after(ledger, first, first.len() as int)->0,
            second,
            count,
        ),
    decreases count,
{
    if count > 0 {
        lemma_after_appended(ledger, first, second, count - 1);
        assert((first + second)[first.len() + count - 1] == second[count - 1]);
    } else {
        lemma_after_prefix(ledger, first, second, first.len() as int);
    }
}

proof fn lemma_after_prefix(ledger: MirrorModel, first: Seq<LiveEvent>, second: Seq<LiveEvent>, count: int)
    requires
        0 <= count <= first.len(),
    ensures
        ledger_after(ledger, first + second, count) == ledger_after(ledger, first, count),
    decreases count,
{
    if count > 0 {
        lemma_after_prefix(ledger, first, second, count - 1);
        assert((first + second)[count - 1] == first[count - 1]);
    }
}

/// What every prefix of compared children keeps.
proof fn lemma_children(s: StageModel, children: Seq<Child>, count: int)
    requires
        0 <= count <= children.len(),
        s.comparing(),
        s.after_children(children, count) is Some,
    ensures
        ({
            let n = s.after_children(children, count)->0;
            let events = events_of(children, count);
            &&& n.comparing()
            &&& n.at() == s.at() + span_of(children, count)
            &&& n.follows(s)
            &&& s.charged() ==> n.charged()
            &&& n.part().accounts.dom() == s.part().accounts.dom()
            &&& n.staged.selectors == s.staged.selectors
            &&& history_after(s.staged.history_of(s.epoch, s.group), children, count) == Some(
                n.staged.history_of(s.epoch, s.group),
            )
            &&& ledger_after(s.whole().merged(s.part()), events, events.len() as int) == Some(
                s.whole().merged(n.part()),
            )
        }),
    decreases count,
{
    if count > 0 {
        lemma_children(s, children, count - 1);
        let before = s.after_children(children, count - 1)->0;
        let child = children[count - 1];
        let events = events_of(children, count - 1);
        let whole = s.whole().merged(s.part());
        lemma_after_appended(whole, events, child.events(), child.events().len() as int);
        match child {
            Child::Batch(batch) => {
                retention::lemma_batch(before, batch);
                lemma_batch_child(before, batch);
            },
            Child::Evaluation(e, c) => {
                retention::lemma_evaluation(before, e, c);
                lemma_evaluation_child(before, e, c);
                assert(events + child.events() =~= events);
            },
        }
    }
}

/// A stage whose children all compared and took exactly the sequences before its
/// last one is committed. Its owner goes on at that last sequence, with the ledger
/// that applying every captured event of the children gives and the group history
/// that applying every child gives. Nothing else changes: accounts of other groups,
/// undeclared sessions, the groups, other owners, other histories.
pub proof fn law_compared_children_commit_together(
    m: LiveModel,
    scope: ScopeModel,
    copy: Result<usize, InvalidReason>,
    plan: Plan,
    children: Seq<Child>,
)
    requires
        m.accounted(),
        m.charged(),
        m.plan(scope, copy) == Ok::<Plan, InvalidReason>(plan),
        m.staged(scope, plan).after_children(children, children.len() as int) is Some,
        span_of(children, children.len() as int) == scope.span - 1,
    ensures
        ({
            let key = scope.epoch.key();
            let s = m.staged(scope, plan).after_children(children, children.len() as int)->0;
            let n = s.finished(Ok(()));
            let before = m.core.owners[key].ledger;
            let after = n.core.owners[key].ledger;
            let events = events_of(children, children.len() as int);
            &&& s.verdict(Ok(())) is None
            &&& n.progress(scope.epoch) == (Progress {
                status: Status::Comparing,
                compared_sequence: (scope.sequence + scope.span - 1) as u64,
                transition: None,
            })
            &&& ledger_after(before, events, events.len() as int) == Some(after)
            &&& history_after(
                m.history_of(scope.epoch, scope.group),
                children,
                children.len() as int,
            ) == Some(n.history_of(scope.epoch, scope.group))
            &&& after.accounts.dom() == before.accounts.dom()
            &&& forall|id: u64|
                before.accounts.contains_key(id) && !before.in_group(scope.group, id)
                    ==> #[trigger] after.accounts[id] == before.accounts[id]
            &&& forall|id: u64|
                !scope.sessions.contains(id) ==> (#[trigger] after.sessions.contains_key(id)
                    <==> before.sessions.contains_key(id)) && (before.sessions.contains_key(id)
                    ==> after.sessions[id] == before.sessions[id])
            &&& n.core == m.core.with_owner(
                key,
                OwnerModel {
                    ledger: after,
                    sequence: (scope.sequence + scope.span - 1) as u64,
                    ..m.core.owners[key]
                },
            )
            &&& n.groups == m.groups
            &&& n.selectors == m.selectors
            &&& n.metadata == m.metadata
            &&& forall|epoch: Epoch|
                epoch != scope.epoch && m.native.contains_key(epoch) ==> n.native.contains_key(epoch)
                    && #[trigger] n.native[epoch] == m.native[epoch]
            &&& forall|group: u64|
                group != scope.group && m.native[scope.epoch].groups.contains_key(group)
                    ==> #[trigger] n.native[scope.epoch].groups[group]
                    == m.native[scope.epoch].groups[group]
        }),
{
    let key = scope.epoch.key();
    let fresh = m.staged(scope, plan);
    let count = children.len() as int;
    assert(same_history(fresh.original, m));
    stage_laws::lemma_fresh_sound(m, scope, fresh);
    retention::lemma_fresh(m, scope, plan, copy);
    assert(fresh.comparing());
    assert(accounting::accounted(m.core.owners[key].ledger));
    fork::law_fork_stands_for(m.core.owners[key].ledger, scope.group, scope.sessions);
    lemma_children(fresh, children, count);
    let s = fresh.after_children(children, count)->0;
    retention::law_commit_has_its_bytes(s);
    let n = s.finished(Ok(()));
    let before = m.core.owners[key].ledger;
    let after = n.core.owners[key].ledger;
    assert(after == before.merged(s.part()));
    assert(after.accounts.dom() =~= before.accounts.dom());
    assert(n.selectors =~= m.selectors);
    assert(n.core.owners =~= m.core.with_owner(key, n.core.owners[key]).owners);
    assert(m.history_of(scope.epoch, scope.group) == fresh.staged.history_of(
        scope.epoch,
        scope.group,
    ));
}

} // verus!
