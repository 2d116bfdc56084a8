//! Laws of the registry of owner intervals.
use vstd::prelude::*;

use super::accounting;
use super::ledger;
use super::{
    Epoch, InvalidReason, Observation, OwnerKey, OwnerModel, Progress, ShadowModel, ShadowState,
};

verus! {

/// A record keeps every retained ledger accounted for.
pub proof fn law_observe_keeps_accounting(m: ShadowModel, observation: Observation)
    requires
        m.accounted(),
    ensures
        m.observe(observation).0.accounted(),
{
    let n = m.observe(observation).0;
    assert forall|key: OwnerKey| #[trigger] n.owners.contains_key(
        key,
    ) implies accounting::accounted(n.owners[key].ledger) by {
        if m.owners.contains_key(key) {
            assert(accounting::accounted(m.owners[key].ledger));
            accounting::law_apply_keeps_accounting(m.owners[key].ledger, observation.event);
        } else {
            accounting::lemma_empty_accounted(m.limits);
        }
    }
}

/// A loss report keeps every retained ledger accounted for.
pub proof fn law_invalidate_keeps_accounting(m: ShadowModel, epoch: Epoch, reason: InvalidReason)
    requires
        m.accounted(),
    ensures
        m.invalidate(epoch, reason).0.accounted(),
{
    let n = m.invalidate(epoch, reason).0;
    assert forall|key: OwnerKey| #[trigger] n.owners.contains_key(
        key,
    ) implies accounting::accounted(n.owners[key].ledger) by {
        assert(m.owners.contains_key(key));
    }
}

/// An interval after a record: its identity is the one it began with, an
/// invalid interval is frozen, and a record that leaves it invalid did not
/// advance its compared sequence.
pub open spec fn interval_kept(before: OwnerModel, after: OwnerModel) -> bool {
    &&& after.epoch == before.epoch
    &&& after.local_identity == before.local_identity
    &&& before.status is Invalid ==> after == before
    &&& after.status is Invalid ==> after.sequence == before.sequence && after.ledger
        == before.ledger
    &&& before.status is CleanEnded ==> after.sequence == before.sequence && after.ledger
        == before.ledger
    &&& after.sequence == before.sequence || after.sequence == before.sequence + 1
}

/// No interval is ever evicted, revived or moved, and invalid input never
/// advances a compared sequence.
pub proof fn law_observe_keeps_intervals(m: ShadowModel, observation: Observation)
    ensures
        ({
            let n = m.observe(observation).0;
            &&& n.limits == m.limits
            &&& n.enabled == m.enabled
            &&& m.fatal is Some ==> n == m
            &&& forall|key: OwnerKey| #[trigger]
                m.owners.contains_key(key) ==> n.owners.contains_key(key) && interval_kept(
                    m.owners[key],
                    n.owners[key],
                )
        }),
{
}

/// A record touches no interval but its own, unless it exhausts the registry.
pub proof fn law_observe_is_local(m: ShadowModel, observation: Observation, key: OwnerKey)
    requires
        m.owners.contains_key(key),
        key != observation.epoch.key(),
        m.observe(observation).0.fatal == m.fatal,
    ensures
        m.observe(observation).0.owners[key] == m.owners[key],
{
}

/// The registry never exceeds its owner limit.
pub proof fn law_owner_population(m: ShadowModel, observation: Observation)
    requires
        m.owners.dom().finite(),
        m.owners.len() <= m.limits.owners,
    ensures
        m.observe(observation).0.owners.dom().finite(),
        m.observe(observation).0.owners.len() <= m.limits.owners,
{
    let n = m.observe(observation).0;
    let key = observation.epoch.key();
    if m.owners.contains_key(key) {
        assert(n.owners.dom() =~= m.owners.dom());
    } else if n.fatal != m.fatal {
        assert(n.owners.dom() =~= m.owners.dom());
    }
}

/// Local identities are fresh: none is at or above the next one, and no two
/// intervals share one.
pub open spec fn identities_fresh(m: ShadowModel) -> bool {
    &&& forall|key: OwnerKey| #[trigger]
        m.owners.contains_key(key) ==> m.owners[key].local_identity < m.next_identity
    &&& forall|a: OwnerKey, b: OwnerKey|
        #![trigger m.owners.contains_key(a), m.owners.contains_key(b)]
        m.owners.contains_key(a) && m.owners.contains_key(b) && m.owners[a].local_identity
            == m.owners[b].local_identity ==> a == b
}

/// A record keeps local identities fresh.
pub proof fn law_identities_stay_fresh(m: ShadowModel, observation: Observation)
    requires
        identities_fresh(m),
    ensures
        identities_fresh(m.observe(observation).0),
{
    let n = m.observe(observation).0;
    assert forall|key: OwnerKey| #[trigger] n.owners.contains_key(key) implies n.owners[key].local_identity
        < n.next_identity by {
        if m.owners.contains_key(key) {
            assert(m.owners[key].local_identity < m.next_identity);
        }
    }
    assert forall|a: OwnerKey, b: OwnerKey|
        #![trigger n.owners.contains_key(a), n.owners.contains_key(b)]
        n.owners.contains_key(a) && n.owners.contains_key(b) && n.owners[a].local_identity
            == n.owners[b].local_identity implies a == b by {
        assert(m.owners.contains_key(a) || a == observation.epoch.key());
        assert(m.owners.contains_key(b) || b == observation.epoch.key());
    }
}

/// Only a complete end qualifies an interval: a record that leaves its owner
/// cleanly ended was an accepted End of an owner whose tails had all settled.
pub proof fn law_clean_end_is_explicit(m: ShadowModel, observation: Observation)
    requires
        m.owners.contains_key(observation.epoch.key()),
        !(m.owners[observation.epoch.key()].status is CleanEnded),
        m.observe(observation).0.owners[observation.epoch.key()].status is CleanEnded,
    ensures
        observation.event is End,
        m.owners[observation.epoch.key()].ledger.drained(),
{
}

/// An owner that was never seen is registered with its first record. It is being
/// compared exactly where that record is a Begin with sequence one and a complete
/// identity; any other first record disqualifies it for good.
pub proof fn law_intervals_begin_with_begin(m: ShadowModel, observation: Observation)
    requires
        m.enabled,
        m.fatal is None,
        !m.owners.contains_key(observation.epoch.key()),
        m.owners.len() < m.limits.owners,
        m.next_identity < u64::MAX,
    ensures
        ({
            let (n, progress) = m.observe(observation);
            let owner = n.owners[observation.epoch.key()];
            let epoch = observation.epoch;
            &&& n.owners.contains_key(epoch.key())
            &&& n.fatal is None
            &&& owner.epoch == epoch
            &&& owner.status is Comparing <==> observation.event is Begin && observation.sequence
                == 1 && epoch.process != 0 && epoch.owner != 0 && epoch.nonce != 0
            &&& owner.status is Comparing || owner.status is Invalid
            &&& owner.status is Comparing ==> owner.sequence == 1
            &&& owner.status is Invalid ==> owner.sequence == 0
            &&& owner.ledger == ledger::MirrorModel::empty(m.limits)
            &&& progress.status == owner.status
            &&& progress.compared_sequence == owner.sequence
            &&& progress.transition is None
        }),
{
}

/// A record advances a compared interval exactly where it repeats the identity
/// that the interval began with, has the next sequence, is no further Begin and
/// is accepted by the ledger; it then has the ledger's effect and result. Any
/// other record disqualifies the interval, with nothing else changed.
#[verifier::rlimit(40)]
pub proof fn law_records_are_contiguous(m: ShadowModel, observation: Observation)
    requires
        m.enabled,
        m.fatal is None,
        m.owners.contains_key(observation.epoch.key()),
        m.owners[observation.epoch.key()].status is Comparing,
    ensures
        ({
            let (n, progress) = m.observe(observation);
            let was = m.owners[observation.epoch.key()];
            let now = n.owners[observation.epoch.key()];
            let step = was.ledger.apply(observation.event);
            let accepted = was.epoch == observation.epoch && !(observation.event is Begin)
                && observation.sequence == was.sequence + 1 && step is Ok;
            &&& !(now.status is Invalid) <==> accepted
            &&& accepted ==> {
                &&& now.sequence == was.sequence + 1
                &&& now.ledger == step->Ok_0.0
                &&& now.status is CleanEnded <==> observation.event is End
                &&& now.status is Comparing <==> !(observation.event is End)
                &&& progress.transition == Some(step->Ok_0.1)
            }
            &&& !accepted ==> {
                &&& now.ledger == was.ledger
                &&& now.sequence == was.sequence
                &&& progress.transition is None
            }
            &&& !accepted && was.epoch == observation.epoch && !(observation.event is Begin)
                && observation.sequence == was.sequence + 1 ==> now.status
                == super::Status::Invalid(step->Err_0)
            &&& progress.status == now.status
            &&& progress.compared_sequence == now.sequence
        }),
{
}

/// A cleanly ended interval takes no further record: the next one disqualifies it.
pub proof fn law_ended_intervals_take_nothing(m: ShadowModel, observation: Observation)
    requires
        m.enabled,
        m.fatal is None,
        m.owners.contains_key(observation.epoch.key()),
        m.owners[observation.epoch.key()].status is CleanEnded,
    ensures
        m.observe(observation).0.owners[observation.epoch.key()].status is Invalid,
        m.observe(observation).1.status is Invalid,
        m.observe(observation).1.transition is None,
        !m.observe(observation).0.complete(),
{
    let n = m.observe(observation).0;
    assert(n.owners.contains_key(observation.epoch.key()));
}

/// A registry without room for another owner fails as a whole: every interval that
/// was being compared is disqualified, those that ended stay ended, and nothing is
/// observed after that.
pub proof fn law_exhaustion_disqualifies_all(m: ShadowModel, observation: Observation, key: OwnerKey)
    requires
        m.enabled,
        m.fatal is None,
        !m.owners.contains_key(observation.epoch.key()),
        m.owners.len() >= m.limits.owners,
        m.owners.contains_key(key),
    ensures
        ({
            let (n, progress) = m.observe(observation);
            &&& n.fatal == Some(InvalidReason::Capacity)
            &&& !n.owners.contains_key(observation.epoch.key())
            &&& n.owners.contains_key(key)
            &&& m.owners[key].status is Comparing ==> n.owners[key].status
                == super::Status::Invalid(InvalidReason::Capacity)
            &&& !(m.owners[key].status is Comparing) ==> n.owners[key] == m.owners[key]
            &&& n.owners[key].ledger == m.owners[key].ledger
            &&& n.owners[key].sequence == m.owners[key].sequence
            &&& progress.status is Invalid
            &&& !n.complete()
        }),
{
}

/// A loss report disqualifies the interval that it names while it is compared; an
/// interval that ended or failed before stays as it was, and so does every other.
pub proof fn law_losses_disqualify_their_interval(
    m: ShadowModel,
    epoch: Epoch,
    reason: InvalidReason,
    key: OwnerKey,
)
    requires
        m.owners.contains_key(key),
    ensures
        ({
            let (n, progress) = m.invalidate(epoch, reason);
            let named = key == epoch.key() && m.owners[key].epoch == epoch;
            &&& n.owners.contains_key(key)
            &&& named && m.owners[key].status is Comparing ==> n.owners[key].status
                == super::Status::Invalid(reason)
            &&& !named || !(m.owners[key].status is Comparing) ==> n.owners[key] == m.owners[key]
            &&& n.owners[key].sequence == m.owners[key].sequence
            &&& n.owners[key].ledger == m.owners[key].ledger
            &&& named ==> progress.status == n.owners[key].status
            &&& key == epoch.key() && !named ==> progress.status
                == super::Status::Invalid(InvalidReason::Identity)
        }),
{
}

/// A registry that is called with a record, a loss or the loss of its transport has
/// its effect and result. A lost transport disqualifies every interval that was being
/// compared and no other, and changes nothing else.
pub proof fn law_calls_observe(
    observing: &mut ShadowState,
    observation: &Observation,
    observed: Progress,
    losing: &mut ShadowState,
    epoch: Epoch,
    reason: InvalidReason,
    lost: Progress,
    failing: &mut ShadowState,
    r: (),
    key: OwnerKey,
)
    requires
        call_ensures(ShadowState::observe, (observing, observation), observed),
        call_ensures(ShadowState::invalidate, (losing, epoch, reason), lost),
        call_ensures(ShadowState::transport_lost, (failing,), r),
        old(failing).model().owners.contains_key(key),
    ensures
        (final(observing).model(), observed) == old(observing).model().observe(*observation),
        (final(losing).model(), lost) == old(losing).model().invalidate(epoch, reason),
        ({
            let was = old(failing).model().owners[key];
            let now = final(failing).model().owners[key];
            &&& final(failing).model().owners.contains_key(key)
            &&& was.status is Comparing ==> now.status
                == super::Status::Invalid(InvalidReason::Transport)
            &&& !(was.status is Comparing) ==> now == was
            &&& now.sequence == was.sequence && now.ledger == was.ledger && now.epoch == was.epoch
        }),
{
}

} // verus!
