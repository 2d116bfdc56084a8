//! Laws of live observation.
use vstd::prelude::*;

use super::native::HISTORY_LIMIT;
use super::{Batch, LiveEvent, LiveModel, LiveState};
use crate::shadow::native::Evaluation;
use crate::shadow::native_compute::{Computation, DecisionModel};
use crate::shadow::ledger::{MirrorModel, Transition};
use crate::shadow::{accounting, laws};
use crate::shadow::{Epoch, Event, InvalidReason, Observation, OwnerKey, OwnerModel, Progress};

verus! {

proof fn lemma_apply_event_accounted(m: LiveModel, epoch: Epoch, sequence: u64, event: LiveEvent)
    requires
        m.accounted(),
    ensures
        m.apply_event(epoch, sequence, event).0.accounted(),
{
    let key = epoch.key();
    let record = match event {
        LiveEvent::Lifecycle { event, .. } => event,
        _ => Event::Watermark,
    };
    let observation = Observation { epoch, sequence, event: record };
    laws::law_observe_keeps_accounting(m.core, observation);
    let next = m.apply_event(epoch, sequence, event).0;
    let seen = m.core.observe(observation).0;
    assert forall|k: OwnerKey| #[trigger] next.core.owners.contains_key(
        k,
    ) implies accounting::accounted(next.core.owners[k].ledger) by {
        if seen.owners.contains_key(k) {
            assert(accounting::accounted(seen.owners[k].ledger));
            match event {
                LiveEvent::SelectionDone(id) => {
                    accounting::lemma_selection_done(seen.owners[k].ledger, id);
                },
                LiveEvent::Reconnect { session, operation, account, .. } => {
                    accounting::lemma_reconnect(seen.owners[k].ledger, session, operation, account);
                },
                _ => {},
            }
        } else {
            assert(m.core.owners.contains_key(k));
        }
    }
}

proof fn lemma_run_accounted(m: LiveModel, batch: Batch, count: int)
    requires
        m.accounted(),
    ensures
        m.run(batch, count).0.accounted(),
    decreases count,
{
    if count > 0 {
        lemma_run_accounted(m, batch, count - 1);
        let state = m.run(batch, count - 1).0;
        lemma_apply_event_accounted(
            state,
            batch.epoch,
            (batch.sequence + count - 1) as u64,
            batch.events@[count - 1],
        );
    }
}

/// An invalid notice keeps every retained ledger accounted for.
pub proof fn law_invalidated_keeps_accounting(m: LiveModel, epoch: Epoch, reason: InvalidReason)
    requires
        m.accounted(),
    ensures
        m.invalidated(epoch, reason).accounted(),
{
    let observation = Observation { epoch, sequence: 0, event: Event::Watermark };
    laws::law_observe_keeps_accounting(m.core, observation);
    let next = m.invalidated(epoch, reason);
    let core = if m.core.owners.contains_key(epoch.key()) {
        m.core
    } else {
        m.core.observe(observation).0
    };
    assert forall|k: OwnerKey| #[trigger] next.core.owners.contains_key(
        k,
    ) implies accounting::accounted(next.core.owners[k].ledger) by {
        assert(core.owners.contains_key(k));
    }
}

/// A captured mutation keeps every retained ledger accounted for, whether it
/// compares or not.
pub proof fn law_observe_keeps_accounting(m: LiveModel, batch: Batch)
    requires
        m.accounted(),
    ensures
        m.observe(batch).accounted(),
{
    lemma_run_accounted(m, batch, batch.events@.len() as int);
    let (state, result) = m.compared(batch);
    assert(state.accounted());
    if let Err(reason) = result {
        law_invalidated_keeps_accounting(state, batch.epoch, reason);
        let noticed = state.invalidated(batch.epoch, reason);
        let next = m.observe(batch);
        assert forall|k: OwnerKey| #[trigger] next.core.owners.contains_key(
            k,
        ) implies accounting::accounted(next.core.owners[k].ledger) by {
            assert(noticed.core.owners.contains_key(k));
        }
    }
}

/// A disqualified interval stays disqualified: no captured mutation advances
/// its compared sequence or moves its ledger, and one of its own interval
/// changes nothing at all.
pub proof fn law_invalid_is_sticky(m: LiveModel, batch: Batch)
    requires
        m.settled_invalid(batch.epoch.key()),
    ensures
        ({
            let key = batch.epoch.key();
            let n = m.observe(batch);
            &&& n.settled_invalid(key)
            &&& n.core.owners[key].sequence == m.core.owners[key].sequence
            &&& n.core.owners[key].ledger == m.core.owners[key].ledger
            &&& m.core.owners[key].epoch == batch.epoch ==> n == m
        }),
{
    let key = batch.epoch.key();
    let n = m.observe(batch);
    if m.core.owners[key].epoch == batch.epoch {
        assert(n.core.owners =~= m.core.owners);
        assert(n =~= m);
    }
}

/// A mutation that leaves its interval invalid has not advanced the compared
/// sequence, even where some of its events had been applied.
pub proof fn law_bad_batch_never_advances(m: LiveModel, batch: Batch)
    ensures
        ({
            let n = m.observe(batch);
            n.progress(batch.epoch).status is Invalid ==> n.progress(
                batch.epoch,
            ).compared_sequence == m.progress(batch.epoch).compared_sequence
        }),
{
    let key = batch.epoch.key();
    let count = batch.events@.len() as int;
    if m.compared(batch).1 == Ok::<bool, InvalidReason>(true) {
        lemma_run_qualified(m, batch, count);
        let state = m.run(batch, count).0;
        assert(m.observe(batch).core == state.core);
    }
    lemma_run_keeps_owner(m, batch, count, key);
    let (state, result) = m.compared(batch);
    if let Err(reason) = result {
        let noticed = state.invalidated(batch.epoch, reason);
        assert(m.core.owners.contains_key(key) ==> noticed.core.owners.contains_key(key));
    }
}

proof fn lemma_run_keeps_owner(m: LiveModel, batch: Batch, count: int, key: OwnerKey)
    ensures
        m.core.owners.contains_key(key) ==> m.run(batch, count).0.core.owners.contains_key(key),
    decreases count,
{
    if count > 0 {
        lemma_run_keeps_owner(m, batch, count - 1, key);
    }
}

/// After a mutation whose events were all accepted, its owner is not invalid
/// and is the one that the mutation names.
proof fn lemma_run_qualified(m: LiveModel, batch: Batch, count: int)
    requires
        0 < count <= batch.events@.len(),
        m.run(batch, count).1 is Ok,
        m.batch_refusal(batch) is None,
        !m.settled_invalid(batch.epoch.key()),
    ensures
        ({
            let state = m.run(batch, count).0;
            let key = batch.epoch.key();
            state.core.owners.contains_key(key) ==> !(state.core.owners[key].status is Invalid)
                && state.core.owners[key].epoch == batch.epoch
        }),
    decreases count,
{
    let key = batch.epoch.key();
    if count > 1 {
        lemma_run_qualified(m, batch, count - 1);
    }
    let state = m.run(batch, count - 1).0;
    let event = batch.events@[count - 1];
    let next = state.apply_event(batch.epoch, (batch.sequence + count - 1) as u64, event);
    assert(next.1 is Ok);
}

/// A mutation touches no interval but its own, unless it exhausts the registry.
pub proof fn law_observe_is_local(m: LiveModel, batch: Batch, key: OwnerKey)
    requires
        m.core.owners.contains_key(key),
        key != batch.epoch.key(),
        m.observe(batch).core.fatal == m.core.fatal,
    ensures
        m.observe(batch).core.owners.contains_key(key),
        m.observe(batch).core.owners[key] == m.core.owners[key],
{
    lemma_run_local(m, batch, batch.events@.len() as int, key);
    lemma_run_fatal(m, batch, batch.events@.len() as int);
    let (state, result) = m.compared(batch);
    if let Err(reason) = result {
        let noticed = state.invalidated(batch.epoch, reason);
        assert(m.observe(batch).core.fatal == noticed.core.fatal);
    }
}

proof fn lemma_run_fatal(m: LiveModel, batch: Batch, count: int)
    ensures
        m.core.fatal is Some ==> m.run(batch, count).0.core.fatal == m.core.fatal,
        m.run(batch, count).0.core.fatal is None ==> m.core.fatal is None,
    decreases count,
{
    if count > 0 {
        lemma_run_fatal(m, batch, count - 1);
    }
}

proof fn lemma_run_local(m: LiveModel, batch: Batch, count: int, key: OwnerKey)
    requires
        m.core.owners.contains_key(key),
        key != batch.epoch.key(),
    ensures
        m.run(batch, count).0.core.fatal == m.core.fatal ==> m.run(
            batch,
            count,
        ).0.core.owners.contains_key(key) && m.run(batch, count).0.core.owners[key]
            == m.core.owners[key],
    decreases count,
{
    if count > 0 {
        lemma_run_local(m, batch, count - 1, key);
        lemma_run_fatal(m, batch, count - 1);
    }
}

/// A refused native evaluation commits nothing: histories, retained bytes,
/// ledgers and the compared sequence are as before.
pub proof fn law_native_refusal_commits_nothing(
    m: LiveModel,
    e: Evaluation,
    c: Computation,
    staging: usize,
)
    requires
        m.core.owners.contains_key(e.epoch.key()),
        m.observe_native(e, c, staging).1 is None,
    ensures
        ({
            let key = e.epoch.key();
            let n = m.observe_native(e, c, staging).0;
            &&& n.native == m.native
            &&& n.native_bytes == m.native_bytes
            &&& n.groups == m.groups
            &&& n.selectors == m.selectors
            &&& n.metadata == m.metadata
            &&& n.core.owners[key].ledger == m.core.owners[key].ledger
            &&& n.core.owners[key].sequence == m.core.owners[key].sequence
            &&& n.settled_invalid(key)
        }),
{
}

/// An accepted native evaluation advances its owner by exactly its own
/// sequence and leaves the ledger alone.
pub proof fn law_native_advances_once(m: LiveModel, e: Evaluation, c: Computation, staging: usize)
    requires
        m.observe_native(e, c, staging).1 is Some,
    ensures
        ({
            let key = e.epoch.key();
            let n = m.observe_native(e, c, staging).0;
            &&& m.core.owners[key].sequence + 1 == e.sequence
            &&& n.core.owners[key] == (OwnerModel {
                sequence: e.sequence,
                ..m.core.owners[key]
            })
            &&& n.native_bytes <= HISTORY_LIMIT
        }),
{
}

/// Once an interval is invalid, no native evaluation repairs it.
pub proof fn law_native_never_repairs(m: LiveModel, e: Evaluation, c: Computation, staging: usize)
    requires
        m.settled_invalid(e.epoch.key()),
        m.core.owners[e.epoch.key()].epoch == e.epoch,
    ensures
        m.observe_native(e, c, staging) == (m, None::<DecisionModel>),
{
}

/// What one accepted event does to its owner's sequence.
proof fn lemma_event_advances(m: LiveModel, epoch: Epoch, sequence: u64, event: LiveEvent)
    requires
        m.core.enabled,
        !m.settled_invalid(epoch.key()),
        m.core.owners.contains_key(epoch.key()) ==> m.core.owners[epoch.key()].epoch == epoch,
    ensures
        ({
            let key = epoch.key();
            let (next, result) = m.apply_event(epoch, sequence, event);
            &&& next.core.enabled
            &&& (result matches Ok(progress) ==> !(progress.status is Invalid) ==> {
                &&& m.progress(epoch).compared_sequence + 1 == sequence
                &&& next.core.owners.contains_key(key)
                &&& next.core.owners[key].sequence == sequence
                &&& next.core.owners[key].epoch == epoch
                &&& !(next.core.owners[key].status is Invalid)
            })
        }),
{
    let record = match event {
        LiveEvent::Lifecycle { event, .. } => event,
        _ => Event::Watermark,
    };
    let (core, progress) = m.core.observe(Observation { epoch, sequence, event: record });
    assert(core.enabled);
}

/// What accepted events do to their owner's sequence.
proof fn lemma_run_advances(m: LiveModel, batch: Batch, count: int)
    requires
        0 <= count <= batch.events@.len(),
        m.core.enabled,
        !m.settled_invalid(batch.epoch.key()),
        m.core.owners.contains_key(batch.epoch.key()) ==> m.core.owners[batch.epoch.key()].epoch
            == batch.epoch,
    ensures
        ({
            let key = batch.epoch.key();
            let (next, result) = m.run(batch, count);
            &&& next.core.enabled
            &&& result is Ok && count > 0 ==> {
                &&& m.progress(batch.epoch).compared_sequence + 1 == batch.sequence
                &&& next.core.owners.contains_key(key)
                &&& next.core.owners[key].sequence == batch.sequence + count - 1
                &&& next.core.owners[key].epoch == batch.epoch
                &&& !(next.core.owners[key].status is Invalid)
            }
        }),
    decreases count,
{
    if count > 0 {
        lemma_run_advances(m, batch, count - 1);
        let (state, result) = m.run(batch, count - 1);
        if result is Ok && batch.sequence + count - 1 <= u64::MAX {
            let event = batch.events@[count - 1];
            lemma_event_advances(state, batch.epoch, (batch.sequence + count - 1) as u64, event);
        }
    }
}

/// A compared mutation continued its owner's sequence and advances it by exactly
/// its number of events.
pub proof fn law_compared_batch_advances_by_its_events(m: LiveModel, batch: Batch)
    requires
        m.core.enabled,
        m.compared(batch).1 == Ok::<bool, InvalidReason>(true),
    ensures
        ({
            let key = batch.epoch.key();
            let n = m.observe(batch);
            &&& m.progress(batch.epoch).compared_sequence == batch.sequence - 1
            &&& m.core.owners.contains_key(key) ==> m.core.owners[key].sequence == batch.sequence
                - 1
            &&& n.core.owners.contains_key(key)
            &&& n.core.owners[key].sequence == batch.sequence + batch.events@.len() - 1
            &&& n.core.owners[key].epoch == batch.epoch
            &&& !(n.core.owners[key].status is Invalid)
        }),
{
    lemma_run_advances(m, batch, batch.events@.len() as int);
}

impl LiveModel {
    /// Whether an interval can never qualify again: it is invalid, or the
    /// registry was exhausted before it began.
    pub open spec fn disqualified(self, epoch: Epoch) -> bool {
        ||| self.settled_invalid(epoch.key())
        ||| self.core.fatal is Some && !self.core.owners.contains_key(epoch.key())
    }
}

/// An exhausted registry takes no event.
proof fn lemma_run_exhausted(m: LiveModel, batch: Batch, count: int)
    requires
        m.core.enabled,
        m.core.fatal is Some,
    ensures
        m.run(batch, count).0 == m,
        count > 0 ==> m.run(batch, count).1 is Err,
    decreases count,
{
    if count > 0 {
        lemma_run_exhausted(m, batch, count - 1);
    }
}

/// A mutation either qualifies and advances its owner by exactly its number of
/// events, or disqualifies its owner and leaves the compared sequence alone, even
/// where some of its events had been applied.
pub proof fn law_observe_advances_or_disqualifies(m: LiveModel, batch: Batch)
    requires
        m.core.enabled,
    ensures
        ({
            let before = m.progress(batch.epoch).compared_sequence;
            let n = m.observe(batch);
            let after = n.progress(batch.epoch);
            &&& n.core.enabled
            &&& !(after.status is Invalid) ==> batch.sequence == before + 1
                && after.compared_sequence == before + batch.events@.len()
            &&& after.status is Invalid ==> after.compared_sequence == before && n.disqualified(
                batch.epoch,
            )
        }),
{
    let key = batch.epoch.key();
    let count = batch.events@.len() as int;
    let n = m.observe(batch);
    law_bad_batch_never_advances(m, batch);
    lemma_run_enabled(m, batch, count);
    match m.compared(batch) {
        (state, Ok(true)) => {
            law_compared_batch_advances_by_its_events(m, batch);
            lemma_run_advances(m, batch, count);
        },
        (state, Ok(false)) => {},
        (state, Err(reason)) => {
            let noticed = state.invalidated(batch.epoch, reason);
            if !noticed.core.owners.contains_key(key) {
                assert(noticed.core.fatal is Some);
            }
        },
    }
}

/// Running events never disables a registry.
proof fn lemma_run_enabled(m: LiveModel, batch: Batch, count: int)
    requires
        m.core.enabled,
    ensures
        m.run(batch, count).0.core.enabled,
    decreases count,
{
    if count > 0 {
        lemma_run_enabled(m, batch, count - 1);
    }
}

/// Once an interval is disqualified, every later mutation of it gives the same
/// result again.
pub proof fn law_disqualified_is_final(m: LiveModel, batch: Batch)
    requires
        m.core.enabled,
        m.disqualified(batch.epoch),
    ensures
        m.observe(batch).disqualified(batch.epoch),
        m.observe(batch).progress(batch.epoch) == m.progress(batch.epoch),
        m.progress(batch.epoch).status is Invalid,
{
    if m.settled_invalid(batch.epoch.key()) {
        law_invalid_is_sticky(m, batch);
    } else {
        lemma_run_exhausted(m, batch, batch.events@.len() as int);
    }
}

/// Whether every group that an owner ever had is still known, and no removed one
/// lives again.
pub open spec fn groups_retained(m: LiveModel, n: LiveModel, key: OwnerKey) -> bool {
    forall|group: u64| #[trigger]
        m.groups_of(key).contains_key(group) ==> n.groups_of(key).contains_key(group) && (
        n.groups_of(key)[group] ==> m.groups_of(key)[group])
}

proof fn lemma_run_groups(m: LiveModel, batch: Batch, count: int, key: OwnerKey)
    ensures
        groups_retained(m, m.run(batch, count).0, key),
    decreases count,
{
    if count > 0 {
        lemma_run_groups(m, batch, count - 1, key);
        let (state, result) = m.run(batch, count - 1);
        if result is Ok {
            let event = batch.events@[count - 1];
            let next = state.apply_event(
                batch.epoch,
                (batch.sequence + count - 1) as u64,
                event,
            ).0;
            assert(groups_retained(state, next, key));
        }
    }
}

/// A group identity that an owner once had stays known through every mutation,
/// and one that was removed never lives again.
pub proof fn law_group_identities_are_never_reused(m: LiveModel, batch: Batch, key: OwnerKey)
    ensures
        groups_retained(m, m.observe(batch), key),
{
    lemma_run_groups(m, batch, batch.events@.len() as int, key);
}

/// A group is created only under a fresh nonzero identity within the limit, is
/// removed only while it lives and holds no account, and takes accounts only
/// while it lives.
pub proof fn law_group_events_are_exact(
    m: LiveModel,
    epoch: Epoch,
    sequence: u64,
    group: u64,
    event: Event,
    source: u64,
    target: u64,
)
    requires
        m.core.enabled,
        m.core.fatal is None,
        m.core.owners.contains_key(epoch.key()),
        m.core.owners[epoch.key()].epoch == epoch,
        m.core.owners[epoch.key()].status is Comparing,
        m.core.owners[epoch.key()].sequence + 1 == sequence,
    ensures
        m.apply_event(epoch, sequence, LiveEvent::GroupCreated(group)).1 is Ok <==> group != 0
            && !m.groups_of(epoch.key()).contains_key(group) && m.groups_of(epoch.key()).len()
            < m.limits.accounts,
        m.apply_event(epoch, sequence, LiveEvent::GroupRemoved(group)).1 is Ok
            <==> m.group_lives(epoch.key(), group) && m.core.owners[epoch.key()].ledger.group_empty(
            group,
        ),
        event is Account && !m.group_lives(epoch.key(), event->Account_group) ==> m.apply_event(
            epoch,
            sequence,
            LiveEvent::Lifecycle { event, source, target },
        ) == (m, Err::<Progress, InvalidReason>(InvalidReason::Identity)),
{
    let ledger = m.core.owners[epoch.key()].ledger;
    assert(ledger.apply(Event::Watermark) == Ok::<_, InvalidReason>((ledger, Transition::Ignored)));
}

/// A success that the ledger applies leaves its session at the end of its
/// account's physical order; one that it ignores changes nothing.
pub proof fn law_applied_success_appends(ledger: MirrorModel, event: Event, source: u64, target: u64)
    requires
        (LiveEvent::Lifecycle { event, source, target }).may_append(),
    ensures
        ledger.apply(event) matches Ok((next, transition)) ==> {
            let session = (LiveEvent::Lifecycle { event, source, target }).session_of()->0;
            if transition is Applied {
                next.order_of(session).len() > 0 && next.order_of(session).last() == session
            } else {
                next == ledger
            }
        },
{
    reveal(MirrorModel::change);
}

proof fn lemma_common_session(events: Seq<LiveEvent>, count: int)
    requires
        0 <= count <= events.len(),
    ensures
        super::common_session(events, count) matches Some(session) ==> {
            &&& forall|i: int|
                0 <= i < count ==> ((#[trigger] events[i]).session_of() matches Some(id) ==> id
                    == session && id != 0)
            &&& session != 0 ==> exists|i: int|
                0 <= i < count && (#[trigger] events[i]).session_of() == Some(session)
        },
    decreases count,
{
    if count > 0 {
        lemma_common_session(events, count - 1);
        let last = events[count - 1].session_of();
        if let Some(session) = super::common_session(events, count - 1) {
            if last is None && session != 0 {
                let i = choose|i: int|
                    0 <= i < count - 1 && (#[trigger] events[i]).session_of() == Some(session);
                assert(events[i].session_of() == Some(session));
            }
            if let Some(id) = last {
                assert(events[count - 1].session_of() == Some(id));
                if session != 0 {
                    let i = choose|i: int|
                        0 <= i < count - 1 && (#[trigger] events[i]).session_of() == Some(session);
                    assert(events[i].session_of() == Some(session));
                } else {
                    assert forall|i: int| 0 <= i < count - 1 implies (
                    #[trigger] events[i]).session_of() is None by {
                        let other = events[i].session_of();
                    }
                }
            }
        }
    }
}

/// A compared mutation is about one session at most, and its witness is what the
/// ledger shows: the connection of that session before and after, and of each
/// account that it names, once, the score, the number of connections and the two
/// ends of the physical order. The accounts that held the session or owned its
/// score, before or after, are among them.
#[verifier::rlimit(40)]
pub proof fn law_witnesses_show_the_ledger(m: LiveModel, batch: Batch, id: u64)
    requires
        m.compared(batch).1 == Ok::<bool, InvalidReason>(true),
    ensures
        ({
            let key = batch.epoch.key();
            let n = m.compared(batch).0;
            let w = batch.witness;
            let after = n.core.owners[key].ledger;
            &&& n.core.owners.contains_key(key)
            &&& forall|i: int|
                0 <= i < batch.events@.len() ==> ((
                #[trigger] batch.events@[i]).session_of() matches Some(id) ==> id == w.session
                    && id != 0)
            &&& w.before == m.connection(key, w.session)
            &&& w.after == after.connection(w.session)
            &&& forall|i: int, j: int|
                0 <= i < j < w.accounts@.len() ==> (#[trigger] w.accounts@[i]).id != (
                #[trigger] w.accounts@[j]).id
            &&& forall|i: int|
                0 <= i < w.accounts@.len() ==> {
                    let seen = #[trigger] w.accounts@[i];
                    let account = after.accounts[seen.id];
                    &&& after.accounts.contains_key(seen.id)
                    &&& account.counts.score() <= i64::MAX
                    &&& seen.score == account.counts.score() as i64
                    &&& seen.physical == account.counts.active as u64
                    &&& account.order.len() == 0 ==> seen.head == 0 && seen.tail == 0
                    &&& account.order.len() != 0 ==> seen.head == account.order.first()
                        && seen.tail == account.order.last()
                }
            &&& id != 0 && (id == w.before.physical || id == w.before.score_owner || id
                == w.after.physical || id == w.after.score_owner) ==> exists|i: int|
                0 <= i < w.accounts@.len() && (#[trigger] w.accounts@[i]).id == id
        }),
{
    let key = batch.epoch.key();
    let count = batch.events@.len() as int;
    let n = m.compared(batch).0;
    let w = batch.witness;
    lemma_common_session(batch.events@, count);
    let ids = super::witnessed(w.accounts@);
    let required = m.run(batch, count).1->Ok_0.0;
    let before = m.connection(key, w.session);
    let after = n.core.owners[key].ledger;
    let all = required.union(super::nonzero(before.physical, before.score_owner)).union(
        super::nonzero(after.connection(w.session).physical, after.connection(w.session).score_owner),
    );
    assert(ids.to_set() =~= all);
    assert forall|i: int, j: int| 0 <= i < j < w.accounts@.len() implies (
    #[trigger] w.accounts@[i]).id != (#[trigger] w.accounts@[j]).id by {
        assert(ids[i] != ids[j]);
    }
    if id != 0 && (id == w.before.physical || id == w.before.score_owner || id == w.after.physical
        || id == w.after.score_owner) {
        assert(all.contains(id));
        assert(ids.to_set().contains(id));
        let i = ids.index_of(id);
        assert(w.accounts@[i].id == id);
    }
}

proof fn lemma_run_requires(m: LiveModel, batch: Batch, count: int, at: int)
    requires
        0 <= at < count <= batch.events@.len(),
        m.run(batch, count).1 is Ok,
    ensures
        m.run(batch, at).1 is Ok,
        m.run(batch, at).0.event_accounts(batch.epoch.key(), batch.events@[at]) is Ok,
        m.run(batch, at).0.event_accounts(batch.epoch.key(), batch.events@[at])->Ok_0.subset_of(
            m.run(batch, count).1->Ok_0.0,
        ),
    decreases count - at,
{
    if at + 1 < count {
        lemma_run_requires(m, batch, count - 1, at);
    }
}

/// A compared mutation's witness names every account that one of its events is
/// about: those that the capture says it went between, the one that is created,
/// removed, reserved, adopted at, redirected to or reconnected on, and the one
/// whose reservation a create result settles. No policy event is among them.
#[verifier::rlimit(40)]
pub proof fn law_witnesses_name_every_account(m: LiveModel, batch: Batch, at: int, id: u64)
    requires
        m.compared(batch).1 == Ok::<bool, InvalidReason>(true),
        0 <= at < batch.events@.len(),
        id != 0,
        match batch.events@[at] {
            LiveEvent::Lifecycle { event, source, target } => id == source || id == target
                || match event {
                Event::Account { id: named, .. } => id == named,
                Event::RemoveAccount(named) => id == named,
                Event::Reserve { account, .. } => id == account,
                Event::Rehydrate { account, .. } => id == account,
                Event::Redirect { target, .. } => id == target,
                Event::Created { session, .. } => {
                    let state = m.run(batch, at).0.core;
                    let key = batch.epoch.key();
                    let sessions = state.owners[key].ledger.sessions;
                    state.owners.contains_key(key) && sessions.contains_key(session)
                        && sessions[session].reservation is Some
                        && sessions[session].reservation->0.account == id
                },
                _ => false,
            },
            LiveEvent::Reconnect { account, .. } => id == account,
            _ => false,
        },
    ensures
        exists|i: int|
            0 <= i < batch.witness.accounts@.len() && (
            #[trigger] batch.witness.accounts@[i]).id == id,
        !(batch.events@[at] matches LiveEvent::Lifecycle { event, .. } && event is Policy),
{
    let key = batch.epoch.key();
    let count = batch.events@.len() as int;
    lemma_run_requires(m, batch, count, at);
    let more = m.run(batch, at).0.event_accounts(key, batch.events@[at])->Ok_0;
    assert(more.contains(id));
    let required = m.run(batch, count).1->Ok_0.0;
    assert(required.contains(id));
    let w = batch.witness;
    let ids = super::witnessed(w.accounts@);
    let before = m.connection(key, w.session);
    let after = m.compared(batch).0.core.owners[key].ledger.connection(w.session);
    let all = required.union(super::nonzero(before.physical, before.score_owner)).union(
        super::nonzero(after.physical, after.score_owner),
    );
    assert(ids.to_set() =~= all);
    assert(all.contains(id));
    assert(ids.to_set().contains(id));
    let i = ids.index_of(id);
    assert(w.accounts@[i].id == id);
}

/// The predecessor of a session is the one just before it in the physical order
/// that holds it, and zero where it is the first or held nowhere.
pub proof fn law_predecessors_arrived_just_before(ledger: MirrorModel, session: u64, account: u64, at: int)
    requires
        ledger.sessions.contains_key(session),
        ledger.sessions[session].active == Some(account),
        ledger.accounts.contains_key(account),
        ledger.accounts[account].order.no_duplicates(),
        0 <= at < ledger.accounts[account].order.len(),
        ledger.accounts[account].order[at] == session,
    ensures
        at == 0 ==> ledger.predecessor(session) == 0,
        at > 0 ==> ledger.predecessor(session) == ledger.accounts[account].order[at - 1],
{
    let order = ledger.accounts[account].order;
    assert(order.contains(session));
    let first = order.index_of(session);
    assert(order[first] == session);
}

/// A ledger after the first events of a mutation, where all of them are accepted.
pub open spec fn ledger_after(ledger: MirrorModel, events: Seq<LiveEvent>, count: int) -> Option<
    MirrorModel,
>
    decreases count,
{
    if count <= 0 {
        Some(ledger)
    } else {
        match ledger_after(ledger, events, count - 1) {
            None => None,
            Some(before) => match match events[count - 1] {
                LiveEvent::Lifecycle { event, .. } => before.apply(event),
                LiveEvent::SelectionDone(session) => before.selection_done(session),
                LiveEvent::Reconnect { session, operation, account, .. } => before.reconnect(
                    session,
                    operation,
                    account,
                ),
                _ => Ok((before, Transition::Ignored)),
            } {
                Ok((after, _)) => Some(after),
                Err(_) => None,
            },
        }
    }
}

#[verifier::rlimit(40)]
proof fn lemma_run_applies(m: LiveModel, batch: Batch, count: int)
    requires
        0 <= count <= batch.events@.len(),
        m.core.enabled,
        m.core.owners.contains_key(batch.epoch.key()),
        m.core.owners[batch.epoch.key()].status is Comparing,
        m.run(batch, count).1 is Ok,
    ensures
        ({
            let key = batch.epoch.key();
            let n = m.run(batch, count).0;
            &&& n.core.enabled
            &&& n.core.owners.contains_key(key)
            &&& n.core.owners[key].status is Comparing || n.core.owners[key].status is CleanEnded
            &&& ledger_after(m.core.owners[key].ledger, batch.events@, count) == Some(
                n.core.owners[key].ledger,
            )
        }),
    decreases count,
{
    if count > 0 {
        lemma_run_applies(m, batch, count - 1);
        let key = batch.epoch.key();
        let state = m.run(batch, count - 1).0;
        let event = batch.events@[count - 1];
        let sequence = (batch.sequence + count - 1) as u64;
        let (next, result) = state.apply_event(batch.epoch, sequence, event);
        assert(result is Ok);
        assert(m.run(batch, count).0 == next);
        let owner = state.core.owners[key];
        assert(!(result->Ok_0.status is Invalid));
        match event {
            LiveEvent::Lifecycle { event: record, .. } => {
                let observation = Observation { epoch: batch.epoch, sequence, event: record };
                assert(result->Ok_0 == state.core.observe(observation).1);
                assert(state.core.fatal is None);
                assert(next.core.owners[key] == owner.advanced(observation).0);
                assert(owner.ledger.apply(record) is Ok);
            },
            _ => {
                let observation = Observation {
                    epoch: batch.epoch,
                    sequence,
                    event: Event::Watermark,
                };
                let (seen, progress) = state.core.observe(observation);
                assert(state.core.fatal is None);
                assert(owner.ledger.apply(Event::Watermark) == Ok::<_, InvalidReason>(
                    (owner.ledger, Transition::Ignored),
                ));
                assert(seen.owners[key] == owner.advanced(observation).0);
                assert(seen.owners[key].ledger == owner.ledger);
                assert(result->Ok_0 == progress);
                assert(progress.status is Comparing);
            },
        }
    }
}

/// A compared mutation of an owner that is being compared applied all of its events to the ledger,
/// each once and in order.
pub proof fn law_mutations_apply_their_events_in_order(m: LiveModel, batch: Batch)
    requires
        m.core.enabled,
        m.core.owners.contains_key(batch.epoch.key()),
        m.core.owners[batch.epoch.key()].status is Comparing,
        m.compared(batch).1 == Ok::<bool, InvalidReason>(true),
    ensures
        ({
            let key = batch.epoch.key();
            let n = m.compared(batch).0;
            ledger_after(
                m.core.owners[key].ledger,
                batch.events@,
                batch.events@.len() as int,
            ) == Some(n.core.owners[key].ledger)
        }),
{
    lemma_run_applies(m, batch, batch.events@.len() as int);
}

/// The witness of a single event names the predecessor of its session exactly
/// where the event was a success that the ledger applied, and none otherwise.
#[verifier::rlimit(40)]
pub proof fn law_predecessors_are_witnessed(m: LiveModel, batch: Batch)
    requires
        m.compared(batch).1 == Ok::<bool, InvalidReason>(true),
        batch.events@.len() == 1,
    ensures
        ({
            let key = batch.epoch.key();
            let after = m.compared(batch).0.core.owners[key].ledger;
            let w = batch.witness;
            match batch.events@[0] {
                LiveEvent::Lifecycle { event, .. } => {
                    let progress = m.core.observe(
                        Observation { epoch: batch.epoch, sequence: batch.sequence, event },
                    ).1;
                    let success = match event {
                        Event::Rehydrate { .. } => true,
                        Event::Created { success, .. } => success,
                        Event::Redirected { success, .. } => success,
                        _ => false,
                    };
                    if success && progress.transition == Some(Transition::Applied) {
                        w.predecessor == after.predecessor(w.session)
                    } else {
                        w.predecessor == 0
                    }
                },
                _ => w.predecessor == 0,
            }
        }),
{
    reveal_with_fuel(LiveModel::run, 2);
    let event = batch.events@[0];
    assert(m.run(batch, 0) == (m, Ok::<(Set<u64>, bool), InvalidReason>((Set::empty(), false))));
}

/// A live domain that is called with a mutation or an evaluation has its effect, and
/// reports where its owner stands afterwards.
pub proof fn law_calls_compare(
    observing: &mut LiveState,
    batch: &Batch,
    observed: Progress,
    evaluating: &mut LiveState,
    e: &Evaluation,
    c: &Computation,
    staging: usize,
    evaluated: Progress,
)
    requires
        call_ensures(LiveState::observe, (observing, batch), observed),
        call_ensures(LiveState::observe_native, (evaluating, e, c, staging), evaluated),
    ensures
        final(observing).model() == old(observing).model().observe(*batch),
        observed == final(observing).model().progress(batch.epoch),
        final(evaluating).model() == old(evaluating).model().observe_native(*e, *c, staging).0,
        evaluated == final(evaluating).model().progress(e.epoch),
{
}

} // verus!
