//! What the domain retains, and that its charges add up.
use vstd::prelude::*;

use super::caller::metadata::stored;
use super::caller::metadata::tracker::TrackerModel;
use super::caller::selection;
use super::native::{NativeModel, NativeOwner, StoredModel, HISTORY_LIMIT};
use super::{Batch, LiveModel};
use crate::charge;
use crate::shadow::native::{Coverage, Evaluation};
use crate::shadow::native_compute::Computation;
use crate::shadow::{Epoch, InvalidReason, Limits};

verus! {

/// The sum of some charges.
pub open spec fn total<K>(charges: Map<K, nat>) -> nat
    decreases charges.dom().len(),
{
    if charges.dom().finite() && charges.dom().len() > 0 {
        let key = charges.dom().choose();
        proof {
            assert(charges.remove(key).dom() =~= charges.dom().remove(key));
        }
        charges[key] + total(charges.remove(key))
    } else {
        0
    }
}

/// A charge can be taken out of a sum.
pub proof fn lemma_total_remove<K>(charges: Map<K, nat>, key: K)
    requires
        charges.dom().finite(),
        charges.contains_key(key),
    ensures
        total(charges) == charges[key] + total(charges.remove(key)),
    decreases charges.dom().len(),
{
    let first = charges.dom().choose();
    assert(charges.remove(key).dom() =~= charges.dom().remove(key));
    assert(charges.remove(first).dom() =~= charges.dom().remove(first));
    if first != key {
        lemma_total_remove(charges.remove(first), key);
        lemma_total_remove(charges.remove(key), first);
        assert(charges.remove(first).remove(key) =~= charges.remove(key).remove(first));
    }
}

/// A charge that is set replaces the last one in a sum.
pub proof fn lemma_total_insert<K>(charges: Map<K, nat>, key: K, value: nat)
    requires
        charges.dom().finite(),
    ensures
        total(charges.insert(key, value)) + (if charges.contains_key(key) {
            charges[key]
        } else {
            0
        }) == total(charges) + value,
{
    let after = charges.insert(key, value);
    assert(after.dom() =~= charges.dom().insert(key));
    lemma_total_remove(after, key);
    assert(after.remove(key) =~= charges.remove(key));
    if charges.contains_key(key) {
        lemma_total_remove(charges, key);
    } else {
        assert(charges.remove(key) =~= charges);
    }
}

/// The charges of the groups of an interval.
pub open spec fn group_charges(groups: Map<u64, StoredModel>) -> Map<u64, nat> {
    groups.map_values(|stored: StoredModel| stored.charge as nat)
}

/// The charge of an interval's histories.
pub open spec fn owner_bytes(native: NativeModel) -> nat {
    charge::node_bytes::<(Epoch, NativeOwner)>() + total(group_charges(native.groups))
}

/// The charges of all native histories.
pub open spec fn native_charges(native: Map<Epoch, NativeModel>) -> Map<Epoch, nat> {
    native.map_values(|owner: NativeModel| owner_bytes(owner))
}

/// The charges of all router metadata.
pub open spec fn metadata_charges(metadata: Map<Epoch, TrackerModel>) -> Map<Epoch, nat> {
    metadata.map_values(|tracker: TrackerModel| stored::stored_bytes(tracker))
}

impl LiveModel {
    /// What all retained native, selector and router histories are charged.
    pub open spec fn charges(self) -> nat {
        total(native_charges(self.native)) + self.selectors.dom().len() * selection::stored_bytes()
            + total(metadata_charges(self.metadata))
    }

    /// Every history is one of finitely many.
    pub open spec fn bounded(self) -> bool {
        &&& self.native.dom().finite()
        &&& forall|epoch: Epoch| #[trigger]
            self.native.contains_key(epoch) ==> self.native[epoch].groups.dom().finite()
        &&& self.selectors.dom().finite()
        &&& self.metadata.dom().finite()
    }

    /// The retained bytes are exactly what the retained histories are charged,
    /// and stay within the history limit.
    pub open spec fn charged(self) -> bool {
        &&& self.bounded()
        &&& self.native_bytes == self.charges()
        &&& self.native_bytes <= HISTORY_LIMIT
    }
}

/// Whether two states retain the same native, selector and router histories for
/// the same bytes.
pub open spec fn same_retention(a: LiveModel, b: LiveModel) -> bool {
    &&& a.native == b.native
    &&& a.native_bytes == b.native_bytes
    &&& a.selectors == b.selectors
    &&& a.metadata == b.metadata
}

/// A group's charge is part of the retained bytes.
pub proof fn lemma_group_is_charged(m: LiveModel, epoch: Epoch, group: u64)
    requires
        m.charged(),
        m.native.contains_key(epoch),
    ensures
        m.native[epoch].charge_of(group) <= owner_bytes(m.native[epoch]) <= m.native_bytes,
{
    let groups = m.native[epoch].groups;
    let charges = group_charges(groups);
    assert(charges.dom() =~= groups.dom());
    if groups.contains_key(group) {
        lemma_total_remove(charges, group);
    }
    let owners = native_charges(m.native);
    assert(owners.dom() =~= m.native.dom());
    lemma_total_remove(owners, epoch);
}

/// Setting a group's history changes the charges by the difference of its own.
pub proof fn lemma_with_group(native: Map<Epoch, NativeModel>, epoch: Epoch, group: u64, stored: StoredModel)
    requires
        native.dom().finite(),
        native.contains_key(epoch),
        native[epoch].groups.dom().finite(),
    ensures
        ({
            let after = native.insert(epoch, native[epoch].with_group(group, stored));
            &&& after.dom().finite()
            &&& after[epoch].groups.dom().finite()
            &&& total(native_charges(after)) + native[epoch].charge_of(group) == total(
                native_charges(native),
            ) + stored.charge
        }),
{
    let before = native[epoch];
    let next = before.with_group(group, stored);
    let after = native.insert(epoch, next);
    assert(after.dom() =~= native.dom().insert(epoch));
    assert(next.groups.dom() =~= before.groups.dom().insert(group));
    assert(group_charges(before.groups).dom() =~= before.groups.dom());
    lemma_total_insert(group_charges(before.groups), group, stored.charge as nat);
    assert(group_charges(next.groups) =~= group_charges(before.groups).insert(
        group,
        stored.charge as nat,
    ));
    assert(native_charges(native).dom() =~= native.dom());
    lemma_total_insert(native_charges(native), epoch, owner_bytes(next));
    assert(native_charges(after) =~= native_charges(native).insert(epoch, owner_bytes(next)));
}

/// Nothing is retained at first.
pub proof fn law_empty_is_charged(limits: Limits)
    ensures
        LiveModel::empty(limits).charged(),
{
    let m = LiveModel::empty(limits);
    assert(native_charges(m.native).dom() =~= Set::empty());
    assert(metadata_charges(m.metadata).dom() =~= Set::empty());
    assert(m.selectors.dom() =~= Set::empty());
}

/// An out-of-band notice retains and releases nothing.
pub proof fn law_invalidate_keeps_charges(m: LiveModel, epoch: Epoch, reason: InvalidReason)
    ensures
        same_retention(m.invalidated(epoch, reason), m),
        m.charged() ==> m.invalidated(epoch, reason).charged(),
{
}

/// The events of a mutation retain and release nothing.
pub proof fn lemma_run_retention(m: LiveModel, batch: Batch, count: int)
    ensures
        same_retention(m.run(batch, count).0, m),
    decreases count,
{
    if count > 0 {
        lemma_run_retention(m, batch, count - 1);
    }
}

/// A captured mutation, good or bad, retains and releases nothing: it only
/// settles redirect attempts.
pub proof fn law_observe_keeps_charges(m: LiveModel, batch: Batch)
    requires
        m.charged(),
    ensures
        m.observe(batch).charged(),
        m.observe(batch).native_bytes == m.native_bytes,
        m.observe(batch).native.dom() == m.native.dom(),
        m.observe(batch).selectors == m.selectors,
        m.observe(batch).metadata == m.metadata,
{
    lemma_run_retention(m, batch, batch.events@.len() as int);
    let (state, result) = m.compared(batch);
    assert(same_retention(state, m));
    if result == Ok::<bool, InvalidReason>(true) && m.native.contains_key(batch.epoch) {
        lemma_settled(state, batch);
    }
}

/// Settling redirect attempts changes no charge.
pub proof fn lemma_settled(m: LiveModel, batch: Batch)
    requires
        m.charged(),
        m.native.contains_key(batch.epoch),
    ensures
        m.attempts_settled(batch).charged(),
        forall|group: u64| #[trigger]
            m.attempts_settled(batch).native[batch.epoch].charge_of(group)
                == m.native[batch.epoch].charge_of(group),
{
    let n = m.attempts_settled(batch);
    let before = m.native[batch.epoch];
    let after = before.settled(batch);
    assert(after.groups.dom() =~= before.groups.dom());
    assert(group_charges(after.groups) =~= group_charges(before.groups));
    assert(n.native.dom() =~= m.native.dom());
    assert(native_charges(n.native) =~= native_charges(m.native));
}

/// A captured mutation of a private copy changes no charge in it.
pub proof fn lemma_observe_staged(m: LiveModel, batch: Batch, epoch: Epoch, group: u64)
    ensures
        ({
            let n = m.observe(batch);
            &&& n.native_bytes == m.native_bytes
            &&& n.selectors == m.selectors
            &&& n.native.dom() == m.native.dom()
            &&& m.native.contains_key(epoch) ==> {
                &&& n.native[epoch].charge_of(group) == m.native[epoch].charge_of(group)
                &&& m.native[epoch].groups.contains_key(group)
                    ==> n.native[epoch].groups.contains_key(group)
            }
        }),
{
    lemma_run_retention(m, batch, batch.events@.len() as int);
    let (state, result) = m.compared(batch);
    assert(same_retention(state, m));
    let n = m.observe(batch);
    assert(n.native.dom() =~= m.native.dom());
}

/// An evaluation of a private copy changes its bytes by the difference of its
/// group's charge, within the history limit.
pub proof fn lemma_native_staged(m: LiveModel, e: Evaluation, c: Computation, staging: usize)
    requires
        m.native.contains_key(e.epoch),
        m.native[e.epoch].charge_of(e.group) <= m.native_bytes <= HISTORY_LIMIT,
    ensures
        ({
            let n = m.observe_native(e, c, staging).0;
            &&& n.selectors == m.selectors
            &&& n.native.contains_key(e.epoch)
            &&& n.native_bytes - n.native[e.epoch].charge_of(e.group) == m.native_bytes
                - m.native[e.epoch].charge_of(e.group)
            &&& n.native_bytes <= HISTORY_LIMIT
            &&& m.native[e.epoch].groups.contains_key(e.group)
                ==> n.native[e.epoch].groups.contains_key(e.group)
        }),
{
}

/// A prelude is charged as its own entry.
pub proof fn law_install_keeps_charges(m: LiveModel, coverage: Coverage)
    requires
        m.charged(),
        m.install_refusal(coverage) is None,
    ensures
        m.installed(coverage).charged(),
{
    let n = m.installed(coverage);
    let owner = NativeModel { coverage, groups: Map::empty() };
    assert(group_charges(owner.groups).dom() =~= Set::empty());
    assert(native_charges(m.native).dom() =~= m.native.dom());
    lemma_total_insert(native_charges(m.native), coverage.epoch, owner_bytes(owner));
    assert(native_charges(n.native) =~= native_charges(m.native).insert(
        coverage.epoch,
        owner_bytes(owner),
    ));
    assert(n.native.dom() =~= m.native.dom().insert(coverage.epoch));
}

/// An evaluation replaces its group's charge, and a refused one retains and
/// releases nothing.
pub proof fn law_native_keeps_charges(m: LiveModel, e: Evaluation, c: Computation, staging: usize)
    requires
        m.charged(),
    ensures
        m.observe_native(e, c, staging).0.charged(),
        m.observe_native(e, c, staging).0.native.dom() == m.native.dom(),
        m.observe_native(e, c, staging).0.selectors == m.selectors,
        m.observe_native(e, c, staging).0.metadata == m.metadata,
        m.observe_native(e, c, staging).1 is None ==> same_retention(
            m.observe_native(e, c, staging).0,
            m,
        ),
{
    let key = e.epoch.key();
    if m.core.owners.contains_key(key) && m.core.owners[key].epoch == e.epoch
        && m.core.owners[key].status is Comparing {
        let (state, result) = m.compare_native(e, c, staging);
        if result is Ok {
            let old = m.stored_of(e.epoch, e.group);
            lemma_group_is_charged(m, e.epoch, e.group);
            let stored = state.native[e.epoch].groups[e.group];
            lemma_with_group(m.native, e.epoch, e.group, stored);
            assert(state.native =~= m.native.insert(
                e.epoch,
                m.native[e.epoch].with_group(e.group, stored),
            ));
            assert(state.native.dom() =~= m.native.dom());
        }
    }
}

} // verus!
