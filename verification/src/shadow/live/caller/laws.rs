//! Laws of affected-view transactions.
use vstd::prelude::*;

use super::{Budget, LiveModel, Plan, ScopeModel, StageModel};
use crate::shadow::accounting;
use crate::shadow::fork;
use crate::shadow::ledger;
use crate::shadow::ledger::{MirrorModel, Seat, Shift, Step};
use crate::shadow::live::native::{HISTORY_LIMIT, STAGE_OVERHEAD};
use crate::shadow::live::{Batch, LiveEvent};
use crate::shadow::native::Evaluation;
use crate::shadow::native_compute::Computation;
use crate::shadow::{Epoch, Event, InvalidReason, Limits, Observation, OwnerKey, Status};

verus! {

/// An admitted tuple is exactly the sum of its parts and stays within the limit.
pub proof fn law_budget_is_simultaneous(frame: nat, retained: nat, clones: nat)
    requires
        super::affordable(frame, retained, clones),
    ensures
        ({
            let budget = Budget::of(frame, retained, clones);
            &&& budget.decode == 32 * budget.frame
            &&& budget.fixed == STAGE_OVERHEAD
            &&& budget.peak == budget.decode + budget.retained + budget.clones + budget.fixed
            &&& budget.peak <= HISTORY_LIMIT
        }),
{
}

impl Budget {
    /// Whether the tuple is one that admission gives: an affordable frame, history
    /// and copies with their exact sum.
    pub open spec fn is_admitted(self) -> bool {
        &&& super::affordable(self.frame as nat, self.retained as nat, self.clones as nat)
        &&& self == Budget::of(self.frame as nat, self.retained as nat, self.clones as nat)
    }
}

impl LiveModel {
    /// The recorded caller tuple is an admitted one, within the native peak.
    pub open spec fn peaks_admitted(self) -> bool {
        self.caller_peak matches Some(budget) ==> budget.is_admitted() && budget.peak
            <= self.native_peak
    }
}

/// Whether the recorded peaks only rose: the caller tuple is kept unless a strictly
/// higher one took its place, and it stays an admitted one.
pub open spec fn peaks_rise(m: LiveModel, n: LiveModel) -> bool {
    &&& m.native_peak <= n.native_peak
    &&& m.caller_peak matches Some(old) ==> (n.caller_peak matches Some(new) && (new == old
        || new.peak > old.peak))
    &&& m.peaks_admitted() ==> n.peaks_admitted()
}

/// Recording an admitted tuple only raises the peaks. A tuple that is no higher
/// than the recorded one, an equal one among them, does not replace it.
pub proof fn law_recorded_peak_only_rises(m: LiveModel, frame: nat, retained: nat, clones: nat)
    requires
        super::affordable(frame, retained, clones),
    ensures
        ({
            let budget = Budget::of(frame, retained, clones);
            let n = m.recorded(budget);
            &&& peaks_rise(m, n)
            &&& m.caller_peak matches Some(old) ==> (budget.peak <= old.peak ==> n.caller_peak
                == Some(old))
            &&& n.caller_peak is Some && n.caller_peak->0.peak >= budget.peak
        }),
{
}

/// A recorded tuple is the sum of its parts at one boundary, within the history
/// limit and the native peak. Nothing is recorded at first.
pub proof fn law_recorded_peak_is_simultaneous(m: LiveModel, limits: Limits)
    requires
        m.peaks_admitted(),
    ensures
        LiveModel::empty(limits).peaks_admitted(),
        m.caller_peak matches Some(budget) ==> {
            &&& budget.decode == 32 * budget.frame
            &&& budget.fixed == STAGE_OVERHEAD
            &&& budget.peak == budget.decode + budget.retained + budget.clones + budget.fixed
            &&& budget.peak <= HISTORY_LIMIT
            &&& budget.peak <= m.native_peak
        },
{
}

/// Beginning a stage records the tuple that it was admitted with, and no child nor
/// the end of a stage lowers the recorded peaks.
pub proof fn law_stage_only_raises_peaks(
    m: LiveModel,
    scope: ScopeModel,
    copy: Result<usize, InvalidReason>,
    s: StageModel,
    batch: Batch,
    e: Evaluation,
    c: Computation,
    result: Result<(), InvalidReason>,
)
    ensures
        m.plan(scope, copy) matches Ok(plan) ==> {
            let original = m.staged(scope, plan).original;
            &&& plan.budget.is_admitted()
            &&& peaks_rise(m, original)
            &&& original.caller_peak is Some
            &&& original.caller_peak->0.peak >= plan.budget.peak
        },
        peaks_rise(s.original, s.batch(batch).0.original),
        peaks_rise(s.original, s.evaluation(e, c).0.original),
        peaks_rise(s.original, s.finished(result)),
{
}

/// What one captured event does to a ledger.
pub open spec fn ledger_step(ledger: MirrorModel, event: LiveEvent) -> Step {
    match event {
        LiveEvent::Lifecycle { event, .. } => ledger.apply(event),
        LiveEvent::SelectionDone(id) => ledger.selection_done(id),
        LiveEvent::Reconnect { session, operation, account, .. } => ledger.reconnect(
            session,
            operation,
            account,
        ),
        _ => ledger.apply(Event::Watermark),
    }
}

/// A ledger after the first captured events, if it accepts them all.
pub open spec fn ledger_after(ledger: MirrorModel, events: Seq<LiveEvent>, count: int) -> Option<
    MirrorModel,
>
    decreases count,
{
    if count <= 0 {
        Some(ledger)
    } else {
        match ledger_after(ledger, events, count - 1) {
            Some(before) => match ledger_step(before, events[count - 1]) {
                Ok((after, _)) => Some(after),
                Err(_) => None,
            },
            None => None,
        }
    }
}

/// Why the first events leave a scope is why more of them do.
pub proof fn lemma_escape_stays(events: Seq<LiveEvent>, group: u64, sessions: Seq<u64>, from: int, to: int)
    requires
        from <= to,
        super::escapes(events, group, sessions, from) is Some,
    ensures
        super::escapes(events, group, sessions, to) == super::escapes(events, group, sessions, from),
    decreases to - from,
{
    if from < to {
        lemma_escape_stays(events, group, sessions, from, to - 1);
    }
}

/// No event of a mutation inside a scope leaves it.
pub proof fn lemma_inside(events: Seq<LiveEvent>, group: u64, sessions: Seq<u64>, index: int)
    requires
        0 <= index < events.len(),
        super::escapes(events, group, sessions, events.len() as int) is None,
    ensures
        super::escape(events[index], group, sessions) is None,
{
    if super::escapes(events, group, sessions, index + 1) is Some {
        lemma_escape_stays(events, group, sessions, index + 1, events.len() as int);
    }
}

/// A part goes through one captured event as its whole does.
proof fn lemma_step_mirrors(whole: MirrorModel, part: MirrorModel, scope: Seq<u64>, event: LiveEvent, group: u64)
    requires
        fork::stands_for(whole, part, scope),
        super::escape(event, group, scope) is None,
    ensures
        fork::mirrors(
            whole,
            ledger_step(part, event),
            ledger_step(whole.merged(part), event),
            scope,
        ),
{
    match event {
        LiveEvent::Lifecycle { event, .. } => {
            fork::law_part_mirrors_whole(whole, part, scope, event);
        },
        LiveEvent::SelectionDone(id) => {
            fork::law_part_mirrors_selection_done(whole, part, scope, id);
        },
        LiveEvent::Reconnect { session, operation, account, .. } => {
            fork::law_part_mirrors_reconnect(whole, part, scope, session, operation, account);
        },
        _ => {
            fork::law_part_mirrors_whole(whole, part, scope, Event::Watermark);
        },
    }
}

/// What one captured event does to the staged owner: its ledger takes the step
/// or stays.
pub proof fn lemma_event_ledger(m: LiveModel, batch: Batch, sequence: u64, event: LiveEvent)
    requires
        m.core.owners.contains_key(batch.epoch.key()),
    ensures
        ({
            let key = batch.epoch.key();
            let before = m.core.owners[key].ledger;
            let (next, result) = m.apply_event(batch.epoch, sequence, event);
            let after = next.core.owners[key].ledger;
            &&& next.core.owners.contains_key(key)
            &&& next.native == m.native
            &&& after == before || (ledger_step(before, event) matches Ok((stepped, _)) && after
                == stepped)
            &&& (result matches Ok(progress) ==> (progress.status is Comparing ==> (ledger_step(
                before,
                event,
            ) matches Ok((stepped, _)) && after == stepped)))
        }),
{
    let key = batch.epoch.key();
    let record = match event {
        LiveEvent::Lifecycle { event, .. } => event,
        _ => Event::Watermark,
    };
    let observation = Observation { epoch: batch.epoch, sequence, event: record };
    let (core, progress) = m.core.observe(observation);
    assert(core.owners.contains_key(key));
    assert(m.core.owners[key].ledger.apply(Event::Watermark) is Ok);
}

/// A staged mutation inside its scope keeps the part standing for the whole;
/// where it is accepted, the whole accepts the same events and merging the part
/// afterwards gives the same ledger.
proof fn lemma_run_stands(
    whole: MirrorModel,
    m: LiveModel,
    batch: Batch,
    scope: Seq<u64>,
    group: u64,
    count: int,
)
    requires
        0 <= count <= batch.events@.len(),
        m.core.enabled,
        m.core.owners.contains_key(batch.epoch.key()),
        fork::stands_for(whole, m.core.owners[batch.epoch.key()].ledger, scope),
        super::escapes(batch.events@, group, scope, batch.events@.len() as int) is None,
    ensures
        ({
            let key = batch.epoch.key();
            let before = m.core.owners[key].ledger;
            let (next, result) = m.run(batch, count);
            &&& next.core.enabled
            &&& next.core.owners.contains_key(key)
            &&& next.native == m.native
            &&& fork::stands_for(whole, next.core.owners[key].ledger, scope)
            &&& result is Ok && (count == 0 || next.core.owners[key].status is Comparing)
                ==> ledger_after(whole.merged(before), batch.events@, count) == Some(
                whole.merged(next.core.owners[key].ledger),
            )
        }),
    decreases count,
{
    let key = batch.epoch.key();
    if count > 0 {
        lemma_run_stands(whole, m, batch, scope, group, count - 1);
        lemma_inside(batch.events@, group, scope, count - 1);
        let (state, result) = m.run(batch, count - 1);
        if let Ok(required) = result {
            let event = batch.events@[count - 1];
            let sequence = (batch.sequence + count - 1) as u64;
            let part = state.core.owners[key].ledger;
            lemma_step_mirrors(whole, part, scope, event, group);
            lemma_event_ledger(state, batch, sequence, event);
            lemma_comparing_before(state, batch, sequence, event);
        }
    }
}

/// An owner that is still compared after an event was compared before it.
proof fn lemma_comparing_before(m: LiveModel, batch: Batch, sequence: u64, event: LiveEvent)
    requires
        m.core.enabled,
        m.core.owners.contains_key(batch.epoch.key()),
    ensures
        ({
            let key = batch.epoch.key();
            let (next, result) = m.apply_event(batch.epoch, sequence, event);
            result is Ok && next.core.owners[key].status is Comparing && !(
            result->Ok_0.status is Invalid) ==> m.core.owners[key].status is Comparing
                && result->Ok_0.status is Comparing
        }),
{
    let key = batch.epoch.key();
    let record = match event {
        LiveEvent::Lifecycle { event, .. } => event,
        _ => Event::Watermark,
    };
    let observation = Observation { epoch: batch.epoch, sequence, event: record };
    let (core, progress) = m.core.observe(observation);
    assert(core.owners.contains_key(key));
}

/// Moving counters and physical seats adds and removes no account.
proof fn lemma_change_keeps_accounts(
    m: MirrorModel,
    first: Option<Shift>,
    second: Option<Shift>,
    remove: Option<Seat>,
    append: Option<Seat>,
)
    ensures
        m.change(first, second, remove, append) matches Ok(accounts) ==> accounts.dom()
            == m.accounts.dom(),
{
    reveal(MirrorModel::change);
    if let Ok(accounts) = m.change(first, second, remove, append) {
        assert(accounts.dom() =~= m.accounts.dom());
    }
}

/// An event inside a scope adds and removes no account.
proof fn lemma_step_keeps_accounts(m: MirrorModel, event: LiveEvent, group: u64, sessions: Seq<u64>)
    requires
        super::escape(event, group, sessions) is None,
    ensures
        ledger_step(m, event) matches Ok((next, _)) ==> next.accounts.dom() == m.accounts.dom(),
{
    assert forall|
        first: Option<Shift>,
        second: Option<Shift>,
        remove: Option<Seat>,
        append: Option<Seat>,
    | (#[trigger] m.change(first, second, remove, append)) is Ok implies m.change(
        first,
        second,
        remove,
        append,
    )->Ok_0.dom() == m.accounts.dom() by {
        lemma_change_keeps_accounts(m, first, second, remove, append);
    }
}

/// Events inside a scope add and remove no account.
pub proof fn lemma_run_keeps_accounts(
    m: LiveModel,
    batch: Batch,
    group: u64,
    sessions: Seq<u64>,
    count: int,
)
    requires
        0 <= count <= batch.events@.len(),
        m.core.owners.contains_key(batch.epoch.key()),
        super::escapes(batch.events@, group, sessions, batch.events@.len() as int) is None,
    ensures
        ({
            let key = batch.epoch.key();
            let next = m.run(batch, count).0;
            &&& next.core.owners.contains_key(key)
            &&& next.core.owners[key].ledger.accounts.dom() == m.core.owners[key].ledger.accounts.dom()
        }),
    decreases count,
{
    if count > 0 {
        lemma_run_keeps_accounts(m, batch, group, sessions, count - 1);
        lemma_inside(batch.events@, group, sessions, count - 1);
        let (state, result) = m.run(batch, count - 1);
        if result is Ok {
            let event = batch.events@[count - 1];
            let sequence = (batch.sequence + count - 1) as u64;
            lemma_step_keeps_accounts(
                state.core.owners[batch.epoch.key()].ledger,
                event,
                group,
                sessions,
            );
            lemma_event_ledger(state, batch, sequence, event);
        }
    }
}

/// A child mutation keeps a stage sound.
pub proof fn lemma_batch_sound(s: StageModel, batch: Batch)
    requires
        s.sound(),
    ensures
        s.batch(batch).0.sound(),
{
    let (next, result) = s.applied(batch);
    if batch.epoch == s.epoch && super::escapes(
        batch.events@,
        s.group,
        s.sessions,
        batch.events@.len() as int,
    ) is None {
        let count = batch.events@.len() as int;
        lemma_run_stands(s.whole(), s.staged, batch, s.sessions, s.group, count);
        lemma_run_keeps_accounts(s.staged, batch, s.group, s.sessions, count);
        let compared = s.staged.compared(batch);
        assert(compared.0.core.owners.contains_key(s.key()));
        let observed = s.staged.observe(batch);
        assert(observed.core.owners.contains_key(s.key()));
        assert(observed.core.owners[s.key()].ledger == compared.0.core.owners[s.key()].ledger);
        assert(observed.native.contains_key(s.epoch));
        assert(observed.native[s.epoch].coverage == s.staged.native[s.epoch].coverage);
    }
}

/// A child evaluation keeps a stage sound.
pub proof fn lemma_evaluation_sound(s: StageModel, e: Evaluation, c: Computation)
    requires
        s.sound(),
    ensures
        s.evaluation(e, c).0.sound(),
{
    let (next, result) = s.evaluated(e, c);
    let key = s.key();
    if e.epoch == s.epoch {
        let decode = next.staged;
        assert(next.staged.core.owners.contains_key(key));
        assert(next.staged.core.owners[key].ledger == s.staged.core.owners[key].ledger);
        assert(next.staged.native[s.epoch].coverage == s.staged.native[s.epoch].coverage);
    }
}

/// A child mutation that a stage accepts is one that the original ledger
/// accepts, and committing the part afterwards is the same as having applied
/// the events to the original ledger.
pub proof fn law_batch_commits_as_applied(s: StageModel, batch: Batch)
    requires
        s.sound(),
        s.batch(batch).1 is Ok,
        s.staged.core.owners[s.key()].status is Comparing,
    ensures
        ledger_after(s.whole().merged(s.part()), batch.events@, batch.events@.len() as int) == Some(
            s.whole().merged(s.batch(batch).0.part()),
        ),
{
    let count = batch.events@.len() as int;
    lemma_run_stands(s.whole(), s.staged, batch, s.sessions, s.group, count);
    let (state, result) = s.staged.compared(batch);
    let observed = s.staged.observe(batch);
    assert(observed.core.owners[s.key()].ledger == state.core.owners[s.key()].ledger);
    if result is Err {
        assert(observed.core.owners[s.key()].status is Invalid || observed.core.owners[s.key()].epoch != s.epoch);
    }
}

/// Whether two states retain the same history; only their diagnostic peaks may
/// differ.
pub open spec fn same_history(a: LiveModel, b: LiveModel) -> bool {
    a == (LiveModel { native_peak: a.native_peak, caller_peak: a.caller_peak, ..b })
}

/// No child of a stage touches the history that it was taken from.
pub proof fn law_children_are_private(s: StageModel, batch: Batch, e: Evaluation, c: Computation)
    ensures
        same_history(s.batch(batch).0.original, s.original),
        same_history(s.evaluation(e, c).0.original, s.original),
{
}

/// A stage that is discarded leaves every history, the retained bytes and the
/// compared sequence as they were, and disqualifies its owner.
pub proof fn law_discarded_stage_keeps_history(s: StageModel, result: Result<(), InvalidReason>)
    requires
        s.sound(),
        s.verdict(result) is Some,
    ensures
        ({
            let n = s.finished(result);
            &&& n.native == s.original.native
            &&& n.native_bytes == s.original.native_bytes
            &&& n.groups == s.original.groups
            &&& n.selectors == s.original.selectors
            &&& n.metadata == s.original.metadata
            &&& n.core.owners[s.key()].ledger == s.whole()
            &&& n.core.owners[s.key()].sequence == s.original.core.owners[s.key()].sequence
            &&& n.core.owners[s.key()].status == Status::Invalid(s.verdict(result)->0)
            &&& forall|key: OwnerKey|
                key != s.key() && s.original.core.owners.contains_key(key) ==> #[trigger] n.core.owners[key]
                    == s.original.core.owners[key]
        }),
{
}

/// A stage whose child failed is discarded whatever the final comparison says.
pub proof fn law_child_failure_poisons(
    s: StageModel,
    batch: Batch,
    e: Evaluation,
    c: Computation,
    result: Result<(), InvalidReason>,
)
    ensures
        s.batch(batch).1 matches Err(reason) ==> (s.failed is None ==> s.batch(batch).0.verdict(
            result,
        ) == Some(reason)),
        s.evaluation(e, c).1 matches Err(reason) ==> (s.failed is None ==> s.evaluation(
            e,
            c,
        ).0.verdict(result) == Some(reason)),
        s.failed is Some ==> s.batch(batch).0 == s && s.evaluation(e, c).0 == s,
{
}

/// A finished stage keeps every retained ledger accounted for.
pub proof fn law_finish_keeps_accounting(s: StageModel, result: Result<(), InvalidReason>)
    requires
        s.sound(),
    ensures
        s.finished(result).accounted(),
{
    let n = s.finished(result);
    assert forall|key: OwnerKey| #[trigger] n.core.owners.contains_key(
        key,
    ) implies accounting::accounted(n.core.owners[key].ledger) by {
        assert(s.original.core.owners.contains_key(key));
        if key == s.key() {
            assert(accounting::accounted(s.whole().merged(s.part())));
        }
    }
}

/// A fresh stage is sound.
pub proof fn lemma_fresh_sound(m: LiveModel, scope: ScopeModel, s: StageModel)
    requires
        m.accounted(),
        m.scope_refusal(scope) is None,
        s.original.core == m.core,
        s.original.native == m.native,
        s.original.native_bytes == m.native_bytes,
        s.retained == m.native_bytes,
        s.epoch == scope.epoch,
        s.group == scope.group,
        s.sessions == scope.sessions,
        exists|plan: super::Plan| s.staged == #[trigger] m.affected(scope, plan),
    ensures
        s.sound(),
{
    let key = scope.epoch.key();
    assert(accounting::accounted(m.core.owners[key].ledger));
    fork::law_fork_stands_for(m.core.owners[key].ledger, scope.group, scope.sessions);
}

/// Whether everything outside a stage's scope is what it was: the accounts of other
/// groups, undeclared sessions, the rest of the ledger, the groups, every other
/// owner, and the histories of other groups and owners.
pub open spec fn outside_kept(s: StageModel, n: LiveModel) -> bool {
    let before = s.whole();
    let after = n.core.owners[s.key()].ledger;
    &&& n.core == s.original.core.with_owner(s.key(), n.core.owners[s.key()])
    &&& n.core.owners[s.key()].epoch == s.epoch
    &&& n.core.owners[s.key()].local_identity
        == s.original.core.owners[s.key()].local_identity
    &&& after == (MirrorModel { accounts: after.accounts, sessions: after.sessions, ..before })
    &&& after.accounts.dom() == before.accounts.dom()
    &&& forall|id: u64|
        before.accounts.contains_key(id) && !before.in_group(s.group, id)
            ==> #[trigger] after.accounts[id] == before.accounts[id]
    &&& forall|id: u64|
        !s.sessions.contains(id) ==> (#[trigger] after.sessions.contains_key(id)
            <==> before.sessions.contains_key(id)) && (before.sessions.contains_key(id)
            ==> after.sessions[id] == before.sessions[id])
    &&& n.groups == s.original.groups
    &&& n.limits == s.original.limits
    &&& n.native.dom() == s.original.native.dom()
    &&& forall|epoch: Epoch|
        epoch != s.epoch && s.original.native.contains_key(epoch) ==> #[trigger] n.native[epoch]
            == s.original.native[epoch]
    &&& forall|group: u64|
        group != s.group && s.original.native[s.epoch].groups.contains_key(group)
            ==> #[trigger] n.native[s.epoch].groups[group]
            == s.original.native[s.epoch].groups[group]
}

/// The end of a stage, committed or discarded, touches nothing outside its scope: no
/// account of another group, no undeclared session, no group and no other owner.
pub proof fn law_finish_keeps_the_outside(s: StageModel, result: Result<(), InvalidReason>)
    requires
        s.sound(),
    ensures
        outside_kept(s, s.finished(result)),
{
    let n = s.finished(result);
    assert(n.core.owners =~= s.original.core.with_owner(s.key(), n.core.owners[s.key()]).owners);
    assert(n.core.owners[s.key()].ledger.accounts.dom() =~= s.whole().accounts.dom());
    assert(n.native.dom() =~= s.original.native.dom());
    if s.verdict(result) is None {
        assert(n.core.owners[s.key()].ledger == s.whole().merged(s.part()));
    }
}

proof fn lemma_no_escape(events: Seq<LiveEvent>, group: u64, sessions: Seq<u64>, count: int, at: int)
    requires
        0 <= at < count <= events.len(),
        super::escapes(events, group, sessions, count) is None,
    ensures
        super::escape(events[at], group, sessions) is None,
    decreases count - at,
{
    if at + 1 < count {
        lemma_no_escape(events, group, sessions, count - 1, at);
    }
}

/// A child mutation that is compared belongs to the stage's owner. Every event of
/// it that is about a session is about a declared one; none of them begins, ends or
/// retires the owner, or changes its policy, accounts or groups; and a rejected
/// route is of the stage's own group and of a declared session.
#[verifier::rlimit(40)]
pub proof fn law_children_stay_in_their_scope(stage: StageModel, batch: Batch, at: int)
    requires
        stage.batch(batch).1 is Ok,
        0 <= at < batch.events@.len(),
    ensures
        stage.failed is None,
        stage.batches < 64,
        stage.batch(batch).0.batches == stage.batches + 1,
        batch.epoch == stage.epoch,
        match batch.events@[at] {
            LiveEvent::Lifecycle { event, .. } => match event {
                Event::Begin => false,
                Event::End => false,
                Event::Retire => false,
                Event::Policy(_) => false,
                Event::Account { .. } => false,
                Event::RemoveAccount(_) => false,
                Event::Watermark => true,
                Event::Open(session) => stage.sessions.contains(session),
                Event::Closed(session) => stage.sessions.contains(session),
                Event::Reserve { session, .. } => stage.sessions.contains(session),
                Event::Created { session, .. } => stage.sessions.contains(session),
                Event::Redirect { session, .. } => stage.sessions.contains(session),
                Event::Redirected { session, .. } => stage.sessions.contains(session),
                Event::Closing { session, .. } => stage.sessions.contains(session),
                Event::Rehydrate { session, .. } => stage.sessions.contains(session),
                Event::Rejected { session } => stage.sessions.contains(session),
            },
            LiveEvent::GroupCreated(_) => false,
            LiveEvent::GroupRemoved(_) => false,
            LiveEvent::SelectionDone(session) => stage.sessions.contains(session),
            LiveEvent::RouteRejected { session, group } => stage.sessions.contains(session) && group
                == stage.group,
            LiveEvent::Reconnect { session, .. } => stage.sessions.contains(session),
        },
{
    lemma_no_escape(
        batch.events@,
        stage.group,
        stage.sessions,
        batch.events@.len() as int,
        at,
    );
}

/// A child evaluation that is compared belongs to the stage's owner and group, which
/// there must be, and is one of at most four.
pub proof fn law_evaluations_stay_in_their_scope(stage: StageModel, e: Evaluation, c: Computation)
    requires
        stage.evaluation(e, c).1 is Ok,
    ensures
        stage.failed is None,
        e.epoch == stage.epoch,
        e.group == stage.group,
        stage.group != 0,
        stage.evaluations < 4,
        stage.evaluation(e, c).0.evaluations == stage.evaluations + 1,
        stage.evaluation(e, c).0.batches == stage.batches,
{
}

/// A scope is entered only at its owner's next sequence, under the identity that
/// the owner began with, while it is compared, for a live group or for none, and
/// after its prelude. It ends with as many sequences as it spans.
pub proof fn law_scopes_continue_their_owner(
    m: LiveModel,
    scope: ScopeModel,
    copy: Result<usize, InvalidReason>,
)
    requires
        m.plan(scope, copy) is Ok,
    ensures
        ({
            let key = scope.epoch.key();
            let owner = m.core.owners[key];
            let plan = m.plan(scope, copy)->Ok_0;
            &&& m.core.owners.contains_key(key)
            &&& m.core.fatal is None
            &&& owner.epoch == scope.epoch
            &&& owner.status is Comparing
            &&& scope.sequence == owner.sequence + 1
            &&& 1 <= scope.span <= 261
            &&& plan.last == owner.sequence + scope.span
            &&& scope.group == 0 || m.group_lives(key, scope.group)
            &&& m.native.contains_key(scope.epoch)
            &&& copy is Ok
        }),
{
}

/// A stage sees of its owner the accounts of its group and the declared sessions,
/// each as it is, and nothing else; and no other owner.
#[verifier::rlimit(40)]
pub proof fn law_stages_see_their_scope(m: LiveModel, scope: ScopeModel, plan: Plan, id: u64, other: OwnerKey)
    requires
        m.core.owners.contains_key(scope.epoch.key()),
    ensures
        ({
            let stage = m.staged(scope, plan);
            let whole = m.core.owners[scope.epoch.key()].ledger;
            let part = stage.part();
            &&& part.accounts.contains_key(id) <==> ledger::live(whole.accounts, id)
                && whole.accounts[id].group == scope.group
            &&& part.accounts.contains_key(id) ==> part.accounts[id] == whole.accounts[id]
            &&& part.sessions.contains_key(id) <==> whole.sessions.contains_key(id)
                && scope.sessions.contains(id)
            &&& part.sessions.contains_key(id) ==> part.sessions[id] == whole.sessions[id]
            &&& stage.staged.core.owners.contains_key(other) <==> other == scope.epoch.key()
            &&& stage.last_sequence == plan.last
            &&& stage.evaluations == 0 && stage.batches == 0
            &&& stage.failed is None
        }),
{
}

/// A stage is committed exactly where none of its children failed, its own
/// comparison passed, every sequence before its last was taken by a child, and the
/// bytes fit. Its owner then stands at that last sequence, with every account and
/// session of the stage as the stage left it and every other as it was.
#[verifier::rlimit(40)]
pub proof fn law_commits_take_the_last_sequence(
    stage: StageModel,
    result: Result<(), InvalidReason>,
    id: u64,
)
    requires
        stage.original.core.owners.contains_key(stage.key()),
    ensures
        stage.verdict(result) is None <==> {
            &&& stage.failed is None
            &&& result is Ok
            &&& stage.staged.core.owners[stage.key()].sequence + 1 == stage.last_sequence
            &&& stage.commit_bytes() is Some
        },
        stage.verdict(result) is None ==> {
            let was = stage.original.core.owners[stage.key()];
            let now = stage.finished(result).core.owners[stage.key()];
            let part = stage.part();
            &&& now.sequence == stage.last_sequence
            &&& now.status == was.status
            &&& now.epoch == was.epoch
            &&& part.accounts.contains_key(id) ==> now.ledger.accounts.contains_key(id)
                && now.ledger.accounts[id] == part.accounts[id]
            &&& !part.accounts.contains_key(id) && was.ledger.accounts.contains_key(id)
                ==> now.ledger.accounts.contains_key(id) && now.ledger.accounts[id]
                == was.ledger.accounts[id]
            &&& part.sessions.contains_key(id) ==> now.ledger.sessions.contains_key(id)
                && now.ledger.sessions[id] == part.sessions[id]
            &&& !part.sessions.contains_key(id) && was.ledger.sessions.contains_key(id)
                ==> now.ledger.sessions.contains_key(id) && now.ledger.sessions[id]
                == was.ledger.sessions[id]
        },
        stage.verdict(result) matches Some(reason) ==> {
            let was = stage.original.core.owners[stage.key()];
            let now = stage.finished(result).core.owners[stage.key()];
            &&& now.status == Status::Invalid(reason)
            &&& now.sequence == was.sequence
            &&& now.ledger == was.ledger
            &&& stage.finished(result).native == stage.original.native
            &&& stage.finished(result).selectors == stage.original.selectors
            &&& stage.finished(result).metadata == stage.original.metadata
        },
{
}

/// What a comparison derived is handed out only where it passed and its stage was
/// committed; and always there, while the owner is compared.
pub proof fn law_results_are_exposed_with_their_commit(
    stage: StageModel,
    result: Result<u64, InvalidReason>,
)
    requires
        stage.original.core.owners.contains_key(stage.key()),
        stage.original.core.owners[stage.key()].epoch == stage.epoch,
        stage.original.core.owners[stage.key()].status is Comparing,
    ensures
        ({
            let (_, progress, value) = stage.resolved(result);
            &&& value is Some <==> result is Ok && stage.verdict(Ok(())) is None
            &&& value is Some ==> value->0 == result->Ok_0 && progress.compared_sequence
                == stage.last_sequence
            &&& value is None ==> progress.status is Invalid
        }),
{
}

} // verus!
