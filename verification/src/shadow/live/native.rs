//! Native factor comparison shares the lifecycle owner's contiguous prefix.
use vstd::prelude::*;

use crate::charge;
use crate::ordered::OrderedMap;
use crate::shadow::live::caller::timing::{Timing, TimingModel};
use crate::shadow::ledger::{Mirror, MirrorModel};
use crate::shadow::live::{Batch, LiveModel, LiveState};
use crate::shadow::native::{Account, Coverage, Evaluation};
use crate::shadow::native_compute::{
    Computation, Decision, DecisionModel, FactorModel, FactorState,
};
use crate::shadow::{accounting, native_compute};
use crate::shadow::{Epoch, InvalidReason, OwnerKey, OwnerModel, Progress, Status};

verus! {

/// Total private factor history plus incoming decode, derivation and clone budget.
pub const HISTORY_LIMIT: usize = 67_108_864;

/// Covers new 64-account B-tree nodes, key storage and temporary score rows.
/// Query/frame copies are charged separately by the transport's decode bound.
pub const STAGE_OVERHEAD: usize = 1_048_576;

/// The retained factor and scheduling history of one group.
pub struct Stored {
    /// Factor history.
    pub state: FactorState,
    /// Retained bytes of both histories.
    pub charge: usize,
    /// Scheduling history.
    pub timing: Timing,
}

/// What [`Stored`] holds.
#[verifier::ext_equal]
pub struct StoredModel {
    /// Factor history.
    pub state: FactorModel,
    /// Retained bytes of both histories.
    pub charge: usize,
    /// Scheduling history.
    pub timing: TimingModel,
}

impl View for Stored {
    type V = StoredModel;

    open spec fn view(&self) -> StoredModel {
        StoredModel { state: self.state@, charge: self.charge, timing: self.timing@ }
    }
}

impl Stored {
    /// The scheduling history is well-formed.
    pub open spec fn wf(&self) -> bool {
        self.timing.wf()
    }

    /// An equal history.
    pub fn duplicate(&self) -> (r: Self)
        requires
            self.wf(),
        ensures
            r.wf(),
            r@ == self@,
    {
        Stored {
            state: self.state.duplicate(),
            charge: self.charge,
            timing: self.timing.duplicate(),
        }
    }
}

/// The native histories of one owner interval.
pub struct NativeOwner {
    /// The accepted prelude.
    pub coverage: Coverage,
    /// History of each group.
    pub groups: OrderedMap<u64, Stored>,
}

/// What [`NativeOwner`] holds.
#[verifier::ext_equal]
pub struct NativeModel {
    /// The accepted prelude.
    pub coverage: Coverage,
    /// History of each group.
    pub groups: Map<u64, StoredModel>,
}

impl View for NativeOwner {
    type V = NativeModel;

    open spec fn view(&self) -> NativeModel {
        NativeModel { coverage: self.coverage, groups: self.groups@ }
    }
}

impl NativeModel {
    /// The retained bytes of a group's history.
    pub open spec fn charge_of(self, group: u64) -> usize {
        if self.groups.contains_key(group) {
            self.groups[group].charge
        } else {
            0
        }
    }

    /// The histories after a group's history was set.
    pub open spec fn with_group(self, group: u64, stored: StoredModel) -> NativeModel {
        NativeModel { groups: self.groups.insert(group, stored), ..self }
    }
}

impl NativeOwner {
    /// Every history is well-formed.
    pub open spec fn wf(&self) -> bool {
        &&& self.groups.wf()
        &&& forall|group: u64| #[trigger]
            self.groups.raw().contains_key(group) ==> self.groups.raw()[group].wf()
    }

    /// An interval without any group history.
    pub fn new(coverage: Coverage) -> (r: Self)
        ensures
            r.wf(),
            r@ == (NativeModel { coverage, groups: Map::empty() }),
    {
        NativeOwner { coverage, groups: OrderedMap::new() }
    }

    /// The retained bytes of a group's history.
    pub fn charge_of(&self, group: u64) -> (r: usize)
        requires
            self.wf(),
        ensures
            r == self@.charge_of(group),
    {
        match self.groups.get(group) {
            Some(stored) => stored.charge,
            None => 0,
        }
    }

    /// A copy of the interval with at most one group's history.
    pub fn fork(&self, group: u64) -> (r: Self)
        requires
            self.wf(),
        ensures
            r.wf(),
            r@.coverage == self@.coverage,
            r@.groups == (if self@.groups.contains_key(group) {
                Map::<u64, StoredModel>::empty().insert(group, self@.groups[group])
            } else {
                Map::empty()
            }),
    {
        let mut groups: OrderedMap<u64, Stored> = OrderedMap::new();
        if let Some(stored) = self.groups.get(group) {
            groups.insert(group, stored.duplicate());
        }
        NativeOwner { coverage: self.coverage, groups }
    }
}

impl NativeModel {
    /// The histories after a compared mutation settled redirect attempts.
    pub open spec fn settled(self, batch: Batch) -> NativeModel {
        NativeModel {
            groups: self.groups.map_values(
                |stored: StoredModel| StoredModel { timing: stored.timing.after(batch), ..stored },
            ),
            ..self
        }
    }
}

impl NativeOwner {
    /// Settle the redirect attempts of every group by a compared mutation.
    pub fn settle(&mut self, batch: &Batch)
        requires
            old(self).wf(),
        ensures
            final(self).wf(),
            final(self)@ == old(self)@.settled(*batch),
    {
        let ghost before = self@;
        let ghost order = self.groups.order();
        proof {
            self.groups.lemma_order();
        }
        let mut index: usize = 0;
        while index < self.groups.len()
            invariant
                self.wf(),
                self.groups.order() == order,
                order.no_duplicates(),
                index <= order.len(),
                self@.coverage == before.coverage,
                forall|group: u64| #[trigger]
                    before.groups.contains_key(group) <==> order.contains(group),
                self@.groups.dom() == before.groups.dom(),
                forall|i: int|
                    0 <= i < index ==> self@.groups[#[trigger] order[i]]
                        == before.settled(*batch).groups[order[i]],
                forall|i: int|
                    index <= i < order.len() ==> self@.groups[#[trigger] order[i]]
                        == before.groups[order[i]],
            decreases order.len() - index,
        {
            let group = self.groups.key_at(index);
            let ghost was = self@.groups;
            if let Some(stored) = self.groups.get_mut(group) {
                stored.timing.settle(batch);
            }
            proof {
                assert(self@.groups =~= was.insert(group, before.settled(*batch).groups[group]));
                assert(self@.groups.dom() =~= before.groups.dom());
            }
            index = index + 1;
        }
        proof {
            assert forall|group: u64| #[trigger] before.groups.contains_key(
                group,
            ) implies self@.groups[group] == before.settled(*batch).groups[group] by {
                let at = order.index_of(group);
                assert(order[at] == group);
            }
            assert(self@.groups =~= before.settled(*batch).groups);
        }
    }
}

/// The retained bytes of one owner's prelude.
pub fn owner_charge() -> (r: usize)
    ensures
        r == charge::node_bytes::<(Epoch, NativeOwner)>(),
{
    charge::node_charge::<(Epoch, NativeOwner)>()
}

/// The retained bytes of one group's entry.
pub fn group_charge() -> (r: usize)
    ensures
        r == charge::node_bytes::<(u64, Stored)>(),
{
    charge::node_charge::<(u64, Stored)>()
}

impl LiveModel {
    /// Whether retained plus staged bytes stay within the history limit.
    pub open spec fn can_stage(self, charge: nat) -> bool {
        self.native_bytes + charge <= HISTORY_LIMIT || charge == 0
    }

    /// The state after staged bytes were admitted.
    pub open spec fn admitted(self, charge: nat) -> LiveModel {
        LiveModel {
            native_peak: if self.native_bytes + charge > self.native_peak {
                (self.native_bytes + charge) as usize
            } else {
                self.native_peak
            },
            ..self
        }
    }

    /// Whether a prelude's process already has another origin or architecture.
    pub open spec fn conflicts(self, coverage: Coverage) -> bool {
        exists|epoch: Epoch| #[trigger]
            self.native.contains_key(epoch) && {
                let other = self.native[epoch].coverage;
                &&& other.epoch.process == coverage.epoch.process
                &&& other.epoch.nonce == coverage.epoch.nonce
                &&& other.origin != coverage.origin || other.go_arch != coverage.go_arch
            }
    }

    /// Why a prelude cannot be installed, if it cannot.
    pub open spec fn install_refusal(self, coverage: Coverage) -> Option<InvalidReason> {
        let epoch = coverage.epoch;
        if self.native.contains_key(epoch) || self.core.owners.contains_key(epoch.key()) {
            Some(InvalidReason::Identity)
        } else if self.native.len() >= self.limits.owners || !self.can_stage(
            charge::node_bytes::<(Epoch, NativeOwner)>(),
        ) {
            Some(InvalidReason::Capacity)
        } else if self.conflicts(coverage) {
            Some(InvalidReason::Identity)
        } else {
            None
        }
    }

    /// The state after a prelude was installed.
    pub open spec fn installed(self, coverage: Coverage) -> LiveModel {
        LiveModel {
            native: self.native.insert(
                coverage.epoch,
                NativeModel { coverage, groups: Map::empty() },
            ),
            native_bytes: (self.native_bytes + charge::node_bytes::<(Epoch, NativeOwner)>()) as usize,
            ..self
        }
    }
}

/// Why one evaluated account disagrees with the ledger, if it does.
pub open spec fn account_refusal(ledger: MirrorModel, group: u64, account: Account) -> Option<
    InvalidReason,
> {
    let id = account.account;
    if !ledger.accounts.contains_key(id) || ledger.accounts[id].group != group {
        Some(InvalidReason::Identity)
    } else {
        match ledger.compact_account(id) {
            None => Some(InvalidReason::Identity),
            Some(counts) => if account.seen & 8 != 0 && account.score_count != counts.score
                || account.seen & 4 != 0 && account.physical != counts.physical {
                Some(InvalidReason::Witness)
            } else {
                None
            },
        }
    }
}

/// Why the first evaluated accounts disagree with the ledger, if they do.
pub open spec fn accounts_refusal(
    ledger: MirrorModel,
    group: u64,
    accounts: Seq<Account>,
    count: int,
) -> Option<InvalidReason>
    decreases count,
{
    if count <= 0 {
        None
    } else {
        match accounts_refusal(ledger, group, accounts, count - 1) {
            Some(reason) => Some(reason),
            None => account_refusal(ledger, group, accounts[count - 1]),
        }
    }
}

proof fn lemma_refusal_stays(ledger: MirrorModel, group: u64, accounts: Seq<Account>, from: int, to: int)
    requires
        from <= to,
        accounts_refusal(ledger, group, accounts, from) is Some,
    ensures
        accounts_refusal(ledger, group, accounts, to) == accounts_refusal(
            ledger,
            group,
            accounts,
            from,
        ),
    decreases to - from,
{
    if from < to {
        lemma_refusal_stays(ledger, group, accounts, from, to - 1);
    }
}

/// Decide [`accounts_refusal`] over all accounts.
fn refuse_accounts(ledger: &Mirror, group: u64, accounts: &Vec<Account>) -> (r: Option<InvalidReason>)
    requires
        ledger.wf(),
    ensures
        r == accounts_refusal(ledger@, group, accounts@, accounts@.len() as int),
{
    let mut index: usize = 0;
    while index < accounts.len()
        invariant
            ledger.wf(),
            index <= accounts@.len(),
            accounts_refusal(ledger@, group, accounts@, index as int) is None,
        decreases accounts@.len() - index,
    {
        let account = &accounts[index];
        let refusal = if ledger.account_group(account.account) != Some(group) {
            Some(InvalidReason::Identity)
        } else {
            match ledger.compact_account(account.account) {
                None => Some(InvalidReason::Identity),
                Some(counts) => if account.seen & 8 != 0 && account.score_count != counts.score
                    || account.seen & 4 != 0 && (account.physical < 0 || account.physical as u64
                    != counts.physical) {
                    Some(InvalidReason::Witness)
                } else {
                    None
                },
            }
        };
        proof {
            assert(refusal == account_refusal(ledger@, group, accounts@[index as int]));
            if refusal is Some {
                assert(accounts_refusal(ledger@, group, accounts@, index + 1) == refusal);
                lemma_refusal_stays(ledger@, group, accounts@, index + 1, accounts@.len() as int);
            }
        }
        if refusal.is_some() {
            return refusal;
        }
        index = index + 1;
    }
    None
}

impl LiveModel {
    /// Why an evaluation is refused before anything is staged, if it is.
    pub open spec fn native_refusal(self, e: Evaluation) -> Option<InvalidReason> {
        let key = e.epoch.key();
        if !self.core.owners.contains_key(key) {
            Some(InvalidReason::MissingBegin)
        } else {
            let owner = self.core.owners[key];
            if owner.epoch != e.epoch {
                Some(InvalidReason::Identity)
            } else if owner.sequence + 1 != e.sequence {
                Some(InvalidReason::Sequence)
            } else if !self.group_lives(key, e.group) {
                Some(InvalidReason::Identity)
            } else if e.accounts@.len() > 64 || e.reads@.len() > 128 {
                Some(InvalidReason::Capacity)
            } else if let Some(reason) = accounts_refusal(
                owner.ledger,
                e.group,
                e.accounts@,
                e.accounts@.len() as int,
            ) {
                Some(reason)
            } else if !self.native.contains_key(e.epoch) {
                Some(InvalidReason::MissingBegin)
            } else {
                None
            }
        }
    }

    /// The histories that an evaluation is applied to.
    pub open spec fn stored_of(self, epoch: Epoch, group: u64) -> StoredModel {
        if self.native[epoch].groups.contains_key(group) {
            self.native[epoch].groups[group]
        } else {
            StoredModel {
                state: FactorModel::fresh(self.native[epoch].coverage),
                charge: 0,
                timing: TimingModel::empty(),
            }
        }
    }

    /// The state after an evaluation's history and sequence were committed.
    pub open spec fn with_history(self, e: Evaluation, stored: StoredModel, bytes: usize) -> LiveModel {
        let key = e.epoch.key();
        LiveModel {
            native: self.native.insert(e.epoch, self.native[e.epoch].with_group(e.group, stored)),
            native_bytes: bytes,
            ..self.with_owner(
                key,
                OwnerModel { sequence: e.sequence, ..self.core.owners[key] },
            )
        }
    }

    /// The state after an evaluation was compared, and its decision. History,
    /// retained bytes and sequence change together or not at all.
    pub open spec fn compare_native(self, e: Evaluation, c: Computation, staging: usize) -> (
        LiveModel,
        Result<DecisionModel, InvalidReason>,
    ) {
        if let Some(reason) = self.native_refusal(e) {
            (self, Err(reason))
        } else {
            let old = self.stored_of(e.epoch, e.group);
            let peak = staging + old.charge + STAGE_OVERHEAD;
            if peak > usize::MAX || !self.can_stage(peak as nat) {
                (self, Err(InvalidReason::Capacity))
            } else {
                let state = self.admitted(peak as nat);
                match old.state.apply(e, c) {
                    Err(_) => (state, Err(InvalidReason::Witness)),
                    Ok(history) => {
                        let bytes = charge::clamp(
                            history.retained() + charge::node_bytes::<(u64, Stored)>()
                                + old.timing.entry_bytes(),
                        );
                        if bytes > peak || old.charge > self.native_bytes {
                            (state, Err(InvalidReason::Capacity))
                        } else {
                            (
                                state.with_history(
                                    e,
                                    StoredModel {
                                        state: history,
                                        charge: bytes as usize,
                                        timing: old.timing,
                                    },
                                    (self.native_bytes - old.charge + bytes) as usize,
                                ),
                                Ok(native_compute::decided(e, c)),
                            )
                        }
                    },
                }
            }
        }
    }

    /// The state after a native evaluation, and its decision where it compared.
    pub open spec fn observe_native(self, e: Evaluation, c: Computation, staging: usize) -> (
        LiveModel,
        Option<DecisionModel>,
    ) {
        let key = e.epoch.key();
        if !self.core.owners.contains_key(key) {
            (self.invalidated(e.epoch, InvalidReason::MissingBegin), None)
        } else if self.core.owners[key].epoch != e.epoch {
            (self.invalidated(e.epoch, InvalidReason::Identity), None)
        } else {
            match self.core.owners[key].status {
                Status::Comparing => match self.compare_native(e, c, staging) {
                    (state, Ok(decision)) => (state, Some(decision)),
                    (state, Err(reason)) => (state.invalidated(e.epoch, reason), None),
                },
                Status::Invalid(_) => (self, None),
                _ => (self.invalidated(e.epoch, InvalidReason::Lifecycle), None),
            }
        }
    }
}

impl LiveState {
    /// The producer capability must arrive before the owner's first Begin.
    ///
    /// # Errors
    /// Refuses duplicate/late preludes, conflicting process origins and bounds.
    pub fn install_native(&mut self, coverage: Coverage) -> (r: Result<(), InvalidReason>)
        requires
            old(self).wf(),
        ensures
            final(self).wf(),
            match old(self).model().install_refusal(coverage) {
                Some(reason) => r == Err::<(), InvalidReason>(reason) && final(self).model() == old(
                    self,
                ).model().invalidated(coverage.epoch, reason),
                None => r is Ok && final(self).model() == old(self).model().installed(coverage),
            },
            old(self).model().accounted() ==> final(self).model().accounted(),
    {
        let refusal = self.refuse_install(coverage);
        if let Some(reason) = refusal {
            self.invalidate(coverage.epoch, reason);
            return Err(reason);
        }
        let ghost before = self.model();
        self.native.insert(coverage.epoch, NativeOwner::new(coverage));
        self.native_bytes = self.native_bytes + owner_charge();
        assert(self.model() =~= before.installed(coverage));
        Ok(())
    }

    fn refuse_install(&self, coverage: Coverage) -> (r: Option<InvalidReason>)
        requires
            self.wf(),
        ensures
            r == self.model().install_refusal(coverage),
    {
        let epoch = coverage.epoch;
        if self.native.contains_key(epoch) || self.core.owner(epoch.owner_key()).is_some() {
            return Some(InvalidReason::Identity);
        }
        if self.native.len() >= self.limits.owners || !self.native_can_stage(owner_charge()) {
            return Some(InvalidReason::Capacity);
        }
        let mut index: usize = 0;
        proof {
            self.native.lemma_order();
        }
        while index < self.native.len()
            invariant
                self.wf(),
                index <= self.native.order().len(),
                epoch == coverage.epoch,
                !self.model().native.contains_key(epoch),
                !self.model().core.owners.contains_key(epoch.key()),
                self.model().native.len() < self.model().limits.owners,
                self.model().can_stage(charge::node_bytes::<(Epoch, NativeOwner)>()),
                forall|i: int|
                    0 <= i < index ==> {
                        let other = self.native@[#[trigger] self.native.order()[i]].coverage;
                        ||| other.epoch.process != epoch.process
                        ||| other.epoch.nonce != epoch.nonce
                        ||| other.origin == coverage.origin && other.go_arch == coverage.go_arch
                    },
            decreases self.native.order().len() - index,
        {
            let other = self.native.value_at(index).coverage;
            if other.epoch.process == epoch.process && other.epoch.nonce == epoch.nonce && (
            other.origin != coverage.origin || other.go_arch != coverage.go_arch) {
                assert(self.model().native.contains_key(self.native.order()[index as int]));
                return Some(InvalidReason::Identity);
            }
            index = index + 1;
        }
        proof {
            if self.model().conflicts(coverage) {
                let other = choose|other: Epoch| #[trigger]
                    self.model().native.contains_key(other) && {
                        let known = self.model().native[other].coverage;
                        &&& known.epoch.process == coverage.epoch.process
                        &&& known.epoch.nonce == coverage.epoch.nonce
                        &&& known.origin != coverage.origin || known.go_arch != coverage.go_arch
                    };
                let at = self.native.order().index_of(other);
                assert(self.native.order()[at] == other);
            }
        }
        None
    }

    /// Accepted origin for strict transport decoding, without creating authority.
    pub fn native_coverage(&self, epoch: Epoch) -> (r: Option<Coverage>)
        requires
            self.wf(),
        ensures
            r == (if self.model().native.contains_key(epoch) {
                Some(self.model().native[epoch].coverage)
            } else {
                None
            }),
    {
        match self.native.get(epoch) {
            Some(owner) => Some(owner.coverage),
            None => None,
        }
    }

    /// Check before allocating any incoming body or staging a group clone.
    pub fn native_can_stage(&self, charge: usize) -> (r: bool)
        ensures
            r == self.model().can_stage(charge as nat),
    {
        charge <= HISTORY_LIMIT.saturating_sub(self.native_bytes)
    }

    /// Highest admitted private retained plus staged charge.
    pub fn native_peak_bytes(&self) -> (r: usize)
        ensures
            r == self.model().native_peak,
    {
        self.native_peak
    }

    /// Admit incoming decode storage and record its diagnostic high water.
    pub fn native_admit_stage(&mut self, charge: usize) -> (r: bool)
        requires
            old(self).wf(),
        ensures
            final(self).wf(),
            r == old(self).model().can_stage(charge as nat),
            final(self).model() == (if r {
                old(self).model().admitted(charge as nat)
            } else {
                old(self).model()
            }),
    {
        if !self.native_can_stage(charge) {
            return false;
        }
        let total = self.native_bytes + charge;
        if total > self.native_peak {
            self.native_peak = total;
        }
        true
    }

    /// Retained private history charge; includes invalid and retired owners.
    pub fn native_retained_bytes(&self) -> (r: usize)
        ensures
            r == self.model().native_bytes,
    {
        self.native_bytes
    }

    /// Borrow the committed history of one group.
    pub fn native_group(&self, epoch: Epoch, group: u64) -> (r: Option<&Stored>)
        requires
            self.wf(),
        ensures
            r is Some <==> self.model().native.contains_key(epoch)
                && self.model().native[epoch].groups.contains_key(group),
            r matches Some(stored) ==> stored.wf() && stored@
                == self.model().native[epoch].groups[group],
    {
        match self.native.get(epoch) {
            Some(owner) => owner.groups.get(group),
            None => None,
        }
    }

    /// Compare one complete evaluation and atomically advance history and prefix.
    /// `staging` includes the transport-owned frame and its decoder/derivation peak.
    pub fn observe_native(&mut self, e: &Evaluation, c: &Computation, staging: usize) -> (r: Progress)
        requires
            old(self).wf(),
        ensures
            final(self).wf(),
            final(self).model() == old(self).model().observe_native(*e, *c, staging).0,
            r == final(self).model().progress(e.epoch),
            old(self).model().accounted() ==> final(self).model().accounted(),
    {
        self.observe_native_decision(e, c, staging).0
    }

    /// The same comparison, with the independently computed decision where it
    /// succeeded.
    pub fn observe_native_decision(&mut self, e: &Evaluation, c: &Computation, staging: usize) -> (r: (
        Progress,
        Option<Decision>,
    ))
        requires
            old(self).wf(),
        ensures
            final(self).wf(),
            final(self).model() == old(self).model().observe_native(*e, *c, staging).0,
            r.0 == final(self).model().progress(e.epoch),
            match old(self).model().observe_native(*e, *c, staging).1 {
                Some(decision) => r.1 is Some && r.1->0@ == decision,
                None => r.1 is None,
            },
            old(self).model().accounted() ==> final(self).model().accounted(),
    {
        let owner = match self.core.owner(e.epoch.owner_key()) {
            Some(owner) => Some((owner.epoch, owner.status)),
            None => None,
        };
        match owner {
            None => (self.invalidate(e.epoch, InvalidReason::MissingBegin), None),
            Some((epoch, status)) => {
                if epoch != e.epoch {
                    return (self.invalidate(e.epoch, InvalidReason::Identity), None);
                }
                match status {
                    Status::Comparing => match self.compare_native(e, c, staging) {
                        Ok(decision) => (self.progress(e.epoch), Some(decision)),
                        Err(reason) => (self.invalidate(e.epoch, reason), None),
                    },
                    Status::Invalid(_) => (self.progress(e.epoch), None),
                    _ => (self.invalidate(e.epoch, InvalidReason::Lifecycle), None),
                }
            },
        }
    }

    fn refuse_native(&self, e: &Evaluation) -> (r: Option<InvalidReason>)
        requires
            self.wf(),
        ensures
            r == self.model().native_refusal(*e),
    {
        let key = e.epoch.owner_key();
        let owner = match self.core.owner(key) {
            Some(owner) => owner,
            None => return Some(InvalidReason::MissingBegin),
        };
        if owner.epoch != e.epoch {
            return Some(InvalidReason::Identity);
        }
        if owner.sequence.checked_add(1) != Some(e.sequence) {
            return Some(InvalidReason::Sequence);
        }
        if !self.group_lives(key, e.group) {
            return Some(InvalidReason::Identity);
        }
        if e.accounts.len() > 64 || e.reads.len() > 128 {
            return Some(InvalidReason::Capacity);
        }
        let refusal = refuse_accounts(&owner.ledger, e.group, &e.accounts);
        if refusal.is_some() {
            return refusal;
        }
        if !self.native.contains_key(e.epoch) {
            return Some(InvalidReason::MissingBegin);
        }
        None
    }

    fn compare_native(&mut self, e: &Evaluation, c: &Computation, staging: usize) -> (r: Result<
        Decision,
        InvalidReason,
    >)
        requires
            old(self).wf(),
        ensures
            final(self).wf(),
            final(self).model() == old(self).model().compare_native(*e, *c, staging).0,
            match old(self).model().compare_native(*e, *c, staging).1 {
                Ok(decision) => r is Ok && r->Ok_0@ == decision,
                Err(reason) => r is Err && r->Err_0 == reason,
            },
            old(self).model().accounted() ==> final(self).model().accounted(),
    {
        let ghost before = self.model();
        if let Some(reason) = self.refuse_native(e) {
            return Err(reason);
        }
        let key = e.epoch.owner_key();
        let (mut state, timing, old_charge) = match self.native.get(e.epoch) {
            Some(owner) => match owner.groups.get(e.group) {
                Some(stored) => (stored.state.duplicate(), stored.timing.duplicate(), stored.charge),
                None => (FactorState::new(owner.coverage), Timing::empty(), 0),
            },
            None => return Err(InvalidReason::MissingBegin),
        };
        let ghost old_stored = before.stored_of(e.epoch, e.group);
        let peak = match staging.checked_add(old_charge) {
            Some(sum) => match sum.checked_add(STAGE_OVERHEAD) {
                Some(peak) => peak,
                None => return Err(InvalidReason::Capacity),
            },
            None => return Err(InvalidReason::Capacity),
        };
        if !self.native_admit_stage(peak) {
            return Err(InvalidReason::Capacity);
        }
        let ghost admitted = self.model();
        let decision = match state.apply(e, c) {
            Ok(decision) => decision,
            Err(_) => return Err(InvalidReason::Witness),
        };
        let charge = state.retained_bytes().saturating_add(group_charge()).saturating_add(
            timing.entry_charge(),
        );
        if charge > peak || old_charge > self.native_bytes {
            return Err(InvalidReason::Capacity);
        }
        self.native_bytes = self.native_bytes - old_charge + charge;
        let ghost stored = StoredModel { state: state@, charge, timing: timing@ };
        if let Some(owner) = self.native.get_mut(e.epoch) {
            owner.groups.insert(e.group, Stored { state, charge, timing });
        }
        // The only sequence write is after the entire independent comparison.
        if let Some(owner) = self.core.owner_mut(key) {
            owner.sequence = e.sequence;
        }
        proof {
            let expected = admitted.with_history(*e, stored, self.native_bytes);
            assert(self.model().native =~= expected.native);
            assert(self.model().core.owners =~= expected.core.owners);
            assert(self.model() =~= expected);
            if before.accounted() {
                assert forall|k: OwnerKey| #[trigger] self.model().core.owners.contains_key(
                    k,
                ) implies accounting::accounted(self.model().core.owners[k].ledger) by {
                    assert(before.core.owners.contains_key(k));
                }
            }
        }
        Ok(decision)
    }
}

/// Evaluated accounts agree with the ledger exactly where each is retained in the
/// evaluated group and, where they were read, its score and its number of
/// connections are the ledger's.
pub proof fn law_evaluated_accounts_agree(ledger: MirrorModel, group: u64, accounts: Seq<Account>, count: int)
    requires
        0 <= count <= accounts.len(),
    ensures
        accounts_refusal(ledger, group, accounts, count) is None <==> forall|i: int|
            0 <= i < count ==> {
                let seen = #[trigger] accounts[i];
                let known = ledger.accounts[seen.account];
                &&& ledger.accounts.contains_key(seen.account)
                &&& known.group == group
                &&& known.counts.score() <= i64::MAX
                &&& seen.seen & 8 != 0 ==> seen.score_count == known.counts.score() as i64
                &&& seen.seen & 4 != 0 ==> seen.physical == known.counts.active as u64
            },
    decreases count,
{
    if count > 0 {
        law_evaluated_accounts_agree(ledger, group, accounts, count - 1);
        let last = accounts[count - 1];
        assert(account_refusal(ledger, group, last) is None <==> {
            let known = ledger.accounts[last.account];
            &&& ledger.accounts.contains_key(last.account)
            &&& known.group == group
            &&& known.counts.score() <= i64::MAX
            &&& last.seen & 8 != 0 ==> last.score_count == known.counts.score() as i64
            &&& last.seen & 4 != 0 ==> last.physical == known.counts.active as u64
        });
    }
}

/// An evaluation is compared only at its owner's next sequence, under the identity
/// that the owner began with, of a live group and after the owner's prelude. It
/// advances the sequence by one, changes no lifecycle, and keeps the group's
/// attempts and every other group's history.
#[verifier::rlimit(40)]
pub proof fn law_evaluations_advance_their_owner(
    m: LiveModel,
    e: Evaluation,
    c: Computation,
    staging: usize,
    other: u64,
)
    requires
        m.compare_native(e, c, staging).1 is Ok,
    ensures
        ({
            let key = e.epoch.key();
            let n = m.compare_native(e, c, staging).0;
            let was = m.core.owners[key];
            let now = n.core.owners[key];
            &&& m.core.owners.contains_key(key)
            &&& was.epoch == e.epoch
            &&& e.sequence == was.sequence + 1
            &&& m.group_lives(key, e.group)
            &&& m.native.contains_key(e.epoch)
            &&& now.sequence == e.sequence
            &&& now.ledger == was.ledger
            &&& now.status == was.status
            &&& n.groups == m.groups
            &&& n.selectors == m.selectors
            &&& n.metadata == m.metadata
            &&& n.native[e.epoch].groups.contains_key(e.group)
            &&& n.native[e.epoch].coverage == m.native[e.epoch].coverage
            &&& m.native[e.epoch].groups.contains_key(e.group)
                ==> n.native[e.epoch].groups[e.group].timing
                == m.native[e.epoch].groups[e.group].timing
            &&& !m.native[e.epoch].groups.contains_key(e.group)
                ==> n.native[e.epoch].groups[e.group].timing == TimingModel::empty()
            &&& other != e.group ==> {
                &&& n.native[e.epoch].groups.contains_key(other)
                    == m.native[e.epoch].groups.contains_key(other)
                &&& m.native[e.epoch].groups.contains_key(other)
                    ==> n.native[e.epoch].groups[other] == m.native[e.epoch].groups[other]
            }
        }),
{
}

/// A prelude is installed once, before its owner's first record, and only where no
/// other prelude of the same process incarnation has another origin or
/// architecture; it holds no history.
pub proof fn law_preludes_come_first(m: LiveModel, coverage: Coverage, other: Epoch)
    requires
        m.install_refusal(coverage) is None,
    ensures
        !m.native.contains_key(coverage.epoch),
        !m.core.owners.contains_key(coverage.epoch.key()),
        m.native.len() < m.limits.owners,
        m.native.contains_key(other) && m.native[other].coverage.epoch.process
            == coverage.epoch.process && m.native[other].coverage.epoch.nonce
            == coverage.epoch.nonce ==> m.native[other].coverage.origin == coverage.origin
            && m.native[other].coverage.go_arch == coverage.go_arch,
        m.installed(coverage).native.contains_key(coverage.epoch),
        m.installed(coverage).native[coverage.epoch].coverage == coverage,
        m.installed(coverage).native[coverage.epoch].groups.dom() =~= Set::<u64>::empty(),
        other != coverage.epoch && m.native.contains_key(other) ==> m.installed(
            coverage,
        ).native[other] == m.native[other],
        m.installed(coverage).core == m.core,
        m.installed(coverage).install_refusal(coverage) is Some,
{
}

} // verus!
