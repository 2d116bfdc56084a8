//! Bounded observation-only routing state. This module has no production handles.
use vstd::prelude::*;

use crate::ordered::{Key, OrderedMap};

pub mod accounting;
pub mod fork;
pub mod laws;
pub mod ledger;
pub mod lifecycle;
pub mod live;
pub mod native;
pub mod native_compute;
pub mod native_values;

use ledger::{Mirror, MirrorModel};
pub use ledger::{AccountView, Counts, Event, LedgerView, Policy, Transition};

verus! {

/// Immutable identity supplied on every observation frame; never an authority handle.
#[derive(Clone, Copy, Debug, PartialEq, Eq, PartialOrd, Ord, Structural)]
pub struct Epoch {
    /// Authoritative Go process incarnation.
    pub process: u64,
    /// Namespace/router owner incarnation inside that process.
    pub owner: u64,
    /// Observation start nonce, bound to the first Begin record.
    pub nonce: u64,
}

/// Why an observation interval cannot qualify as comparison evidence.
#[derive(Clone, Copy, Debug, PartialEq, Eq, Structural)]
pub enum InvalidReason {
    /// Capture did not begin before the owner was initialized.
    MissingBegin,
    /// A known owner/nonce was replayed or replaced without owner recreation.
    ReplayedBegin,
    /// A sequence was duplicated, skipped, reordered or exhausted.
    Sequence,
    /// A zero or otherwise malformed identity was supplied.
    Identity,
    /// Bounded retained state was exhausted.
    Capacity,
    /// The observed transition cannot follow the independently maintained state.
    Lifecycle,
    /// An observation transport was lost or malformed.
    Transport,
    /// No recent observation watermark is available.
    Stale,
    /// Go output differs from the independently applied lifecycle transition.
    Witness,
}

/// Qualification state of one owner interval.
#[derive(Clone, Copy, Debug, PartialEq, Eq, Structural)]
pub enum Status {
    /// Observation was not enabled.
    Disabled,
    /// Valid contiguous observations are being compared.
    Comparing,
    /// The owner retired and its complete retained tail was observed closed.
    CleanEnded,
    /// This interval is permanently disqualified.
    Invalid(InvalidReason),
}

/// Explicit memory/population limits; exhaustion invalidates instead of evicting history.
#[derive(Clone, Copy, Debug)]
pub struct Limits {
    /// Total owner intervals retained, including invalid and ended intervals.
    pub owners: usize,
    /// Total account identities retained per owner, including removed accounts.
    pub accounts: usize,
    /// Total session incarnations retained per owner, including closed sessions.
    pub sessions: usize,
}

impl Default for Limits {
    fn default() -> (r: Self)
        ensures
            r.owners == 128,
            r.accounts == 4096,
            r.sessions == 65_536,
    {
        Limits { owners: 128, accounts: 4096, sessions: 65_536 }
    }
}

/// One contiguous owner observation, already decoded by the legacy adapter.
#[derive(Clone, Copy, Debug)]
pub struct Observation {
    /// Owner identity; every record repeats the complete identity.
    pub epoch: Epoch,
    /// One-based owner-local sequence.
    pub sequence: u64,
    /// Observed authoritative event.
    pub event: Event,
}

/// A bounded result contains no session, reservation or command authority.
#[derive(Clone, Copy, Debug, PartialEq, Eq, Structural)]
pub struct Progress {
    /// Whether the interval remains qualified.
    pub status: Status,
    /// Last successfully compared sequence; invalid input never advances it.
    pub compared_sequence: u64,
    /// Whether the authoritative lifecycle event changed accounting.
    pub transition: Option<Transition>,
}

/// An owner inside a process.
#[derive(Clone, Copy, Debug, PartialEq, Eq, Structural)]
pub struct OwnerKey {
    /// Process incarnation.
    pub process: u64,
    /// Owner incarnation inside that process.
    pub owner: u64,
}

impl Key for OwnerKey {
    open spec fn before(self, other: Self) -> bool {
        self.process < other.process || self.process == other.process && self.owner < other.owner
    }

    proof fn order_laws(a: Self, b: Self, c: Self) {
    }

    fn precedes(&self, other: &Self) -> (r: bool) {
        self.process < other.process || self.process == other.process && self.owner < other.owner
    }
}

impl Key for Epoch {
    open spec fn before(self, other: Self) -> bool {
        self.process < other.process || self.process == other.process && (self.owner < other.owner
            || self.owner == other.owner && self.nonce < other.nonce)
    }

    proof fn order_laws(a: Self, b: Self, c: Self) {
    }

    fn precedes(&self, other: &Self) -> (r: bool) {
        self.process < other.process || self.process == other.process && (self.owner < other.owner
            || self.owner == other.owner && self.nonce < other.nonce)
    }
}

impl Epoch {
    /// The owner that an interval belongs to.
    pub open spec fn key(self) -> OwnerKey {
        OwnerKey { process: self.process, owner: self.owner }
    }

    /// The owner that an interval belongs to.
    pub fn owner_key(self) -> (r: OwnerKey)
        ensures
            r == self.key(),
    {
        OwnerKey { process: self.process, owner: self.owner }
    }
}

/// One owner interval.
pub struct Owner {
    /// The identity that the interval began with.
    pub epoch: Epoch,
    /// Fresh local identity.
    pub local_identity: u64,
    /// Last compared sequence.
    pub sequence: u64,
    /// Qualification.
    pub status: Status,
    /// The mirrored lifecycle.
    pub ledger: Mirror,
}

/// What [`Owner`] holds.
#[verifier::ext_equal]
pub struct OwnerModel {
    /// The identity that the interval began with.
    pub epoch: Epoch,
    /// Fresh local identity.
    pub local_identity: u64,
    /// Last compared sequence.
    pub sequence: u64,
    /// Qualification.
    pub status: Status,
    /// The mirrored lifecycle.
    pub ledger: MirrorModel,
}

impl View for Owner {
    type V = OwnerModel;

    open spec fn view(&self) -> OwnerModel {
        OwnerModel {
            epoch: self.epoch,
            local_identity: self.local_identity,
            sequence: self.sequence,
            status: self.status,
            ledger: self.ledger@,
        }
    }
}

impl OwnerModel {
    /// The same interval, disqualified if it was still being compared.
    pub open spec fn disqualified(self, reason: InvalidReason) -> OwnerModel {
        if self.status is Comparing {
            OwnerModel { status: Status::Invalid(reason), ..self }
        } else {
            self
        }
    }

    /// Why a record cannot continue this interval, if it cannot.
    pub open spec fn break_in(self, observation: Observation) -> Option<InvalidReason> {
        if self.epoch != observation.epoch || observation.event is Begin {
            Some(InvalidReason::ReplayedBegin)
        } else if self.status is CleanEnded || self.sequence + 1 != observation.sequence {
            Some(InvalidReason::Sequence)
        } else {
            None
        }
    }

    /// The interval after a record, and what the record did.
    pub open spec fn advanced(self, observation: Observation) -> (OwnerModel, Option<Transition>) {
        if self.status is Invalid {
            (self, None)
        } else {
            match self.break_in(observation) {
                Some(reason) => (OwnerModel { status: Status::Invalid(reason), ..self }, None),
                None => match self.ledger.apply(observation.event) {
                    Ok((ledger, transition)) => (
                        OwnerModel {
                            ledger,
                            sequence: observation.sequence,
                            status: if observation.event is End {
                                Status::CleanEnded
                            } else {
                                self.status
                            },
                            ..self
                        },
                        Some(transition),
                    ),
                    Err(reason) => (OwnerModel { status: Status::Invalid(reason), ..self }, None),
                },
            }
        }
    }
}

/// What [`ShadowState`] holds.
#[verifier::ext_equal]
pub struct ShadowModel {
    /// Observation is enabled.
    pub enabled: bool,
    /// Why every interval is disqualified, if all are.
    pub fatal: Option<InvalidReason>,
    /// Population limits.
    pub limits: Limits,
    /// The next local owner identity.
    pub next_identity: u64,
    /// Retained intervals, invalid and ended ones among them.
    pub owners: Map<OwnerKey, OwnerModel>,
}

/// A disqualifying result that names no compared record.
pub open spec fn refused(reason: InvalidReason) -> Progress {
    Progress { status: Status::Invalid(reason), compared_sequence: 0, transition: None }
}

/// Why a record cannot begin an interval, if it cannot.
pub open spec fn begin_refusal(observation: Observation) -> Option<InvalidReason> {
    let epoch = observation.epoch;
    if epoch.process == 0 || epoch.owner == 0 || epoch.nonce == 0 {
        Some(InvalidReason::Identity)
    } else if observation.sequence != 1 || !(observation.event is Begin) {
        Some(InvalidReason::MissingBegin)
    } else {
        None
    }
}

impl ShadowModel {
    /// No retained interval.
    pub open spec fn empty(limits: Limits) -> ShadowModel {
        ShadowModel {
            enabled: true,
            fatal: None,
            limits,
            next_identity: 1,
            owners: Map::empty(),
        }
    }

    /// The result that an owner's current qualification gives.
    pub open spec fn progress_of(self, epoch: Epoch, transition: Option<Transition>) -> Progress {
        if self.owners.contains_key(epoch.key()) {
            let owner = self.owners[epoch.key()];
            Progress { status: owner.status, compared_sequence: owner.sequence, transition }
        } else {
            refused(InvalidReason::MissingBegin)
        }
    }

    /// Every interval that was still being compared, disqualified.
    pub open spec fn all_disqualified(self, reason: InvalidReason) -> Map<OwnerKey, OwnerModel> {
        self.owners.map_values(|owner: OwnerModel| owner.disqualified(reason))
    }

    /// The registry after one interval was replaced.
    pub open spec fn with_owner(self, key: OwnerKey, owner: OwnerModel) -> ShadowModel {
        ShadowModel { owners: self.owners.insert(key, owner), ..self }
    }

    /// The registry after a record, and its result.
    pub open spec fn observe(self, observation: Observation) -> (ShadowModel, Progress) {
        let key = observation.epoch.key();
        if !self.enabled {
            (
                self,
                Progress { status: Status::Disabled, compared_sequence: 0, transition: None },
            )
        } else if let Some(reason) = self.fatal {
            let sequence = if self.owners.contains_key(key) && self.owners[key].epoch
                == observation.epoch {
                self.owners[key].sequence
            } else {
                0
            };
            (
                self,
                Progress {
                    status: Status::Invalid(reason),
                    compared_sequence: sequence,
                    transition: None,
                },
            )
        } else if self.owners.contains_key(key) {
            let (owner, transition) = self.owners[key].advanced(observation);
            let next = self.with_owner(key, owner);
            (next, next.progress_of(observation.epoch, transition))
        } else if self.owners.len() >= self.limits.owners || self.next_identity == u64::MAX {
            let reason = InvalidReason::Capacity;
            (
                ShadowModel { fatal: Some(reason), owners: self.all_disqualified(reason), ..self },
                refused(reason),
            )
        } else {
            let refusal = begin_refusal(observation);
            let owner = OwnerModel {
                epoch: observation.epoch,
                local_identity: self.next_identity,
                sequence: if refusal is None {
                    1
                } else {
                    0
                },
                status: match refusal {
                    Some(reason) => Status::Invalid(reason),
                    None => Status::Comparing,
                },
                ledger: MirrorModel::empty(self.limits),
            };
            let next = ShadowModel {
                next_identity: (self.next_identity + 1) as u64,
                ..self.with_owner(key, owner)
            };
            (next, next.progress_of(observation.epoch, None))
        }
    }

    /// Whether every retained interval ended cleanly.
    pub open spec fn complete(self) -> bool {
        &&& self.enabled
        &&& self.fatal is None
        &&& self.owners.len() > 0
        &&& forall|key: OwnerKey| #[trigger]
            self.owners.contains_key(key) ==> self.owners[key].status is CleanEnded
    }

    /// The registry after an owner was reported lost, and the result.
    pub open spec fn invalidate(self, epoch: Epoch, reason: InvalidReason) -> (
        ShadowModel,
        Progress,
    ) {
        let key = epoch.key();
        if !self.owners.contains_key(key) {
            (self, refused(InvalidReason::MissingBegin))
        } else if self.owners[key].epoch != epoch {
            (self, refused(InvalidReason::Identity))
        } else {
            let next = self.with_owner(key, self.owners[key].disqualified(reason));
            (next, next.progress_of(epoch, None))
        }
    }

    /// Every retained ledger is complete and accounted for.
    pub open spec fn accounted(self) -> bool {
        forall|key: OwnerKey| #[trigger]
            self.owners.contains_key(key) ==> accounting::accounted(self.owners[key].ledger)
    }
}

/// Isolated diagnostic registry and value ledger. No production store is consulted.
///
/// Removed/ended owners remain registered so a serialized Begin cannot resurrect
/// them. Reaching a limit disqualifies the stream rather than discarding tombstones.
pub struct ShadowState {
    enabled: bool,
    fatal: Option<InvalidReason>,
    limits: Limits,
    next_identity: u64,
    owners: OrderedMap<OwnerKey, Owner>,
}

impl ShadowState {
    /// What the registry holds.
    pub closed spec fn model(&self) -> ShadowModel {
        ShadowModel {
            enabled: self.enabled,
            fatal: self.fatal,
            limits: self.limits,
            next_identity: self.next_identity,
            owners: self.owners@,
        }
    }

    /// Every retained ledger is well-formed.
    pub closed spec fn wf(&self) -> bool {
        &&& self.owners.wf()
        &&& forall|key: OwnerKey| #[trigger]
            self.owners.raw().contains_key(key) ==> self.owners.raw()[key].ledger.wf()
    }

    /// Create a disabled observer with no captured state.
    pub fn disabled() -> (r: Self)
        ensures
            r.wf(),
            r.model().accounted(),
            !r.model().enabled,
            r.model().fatal is None,
            r.model().owners == Map::<OwnerKey, OwnerModel>::empty(),
    {
        let mut state = Self::new(Limits::default());
        state.enabled = false;
        state
    }

    /// Create a bounded empty registry; only Begin can establish an owner.
    pub fn new(limits: Limits) -> (r: Self)
        ensures
            r.wf(),
            r.model().accounted(),
            r.model() == ShadowModel::empty(limits),
    {
        ShadowState {
            enabled: true,
            fatal: None,
            limits,
            next_identity: 1,
            owners: OrderedMap::new(),
        }
    }

    /// Consume a value record, independently maintaining accepted lifecycle state.
    pub fn observe(&mut self, observation: &Observation) -> (r: Progress)
        requires
            old(self).wf(),
        ensures
            final(self).wf(),
            (final(self).model(), r) == old(self).model().observe(*observation),
            old(self).model().accounted() ==> final(self).model().accounted(),
    {
        proof {
            if self.model().accounted() {
                laws::law_observe_keeps_accounting(self.model(), *observation);
            }
        }
        let key = observation.epoch.owner_key();
        if !self.enabled {
            return Progress { status: Status::Disabled, compared_sequence: 0, transition: None };
        }
        if let Some(reason) = self.fatal {
            let compared_sequence: u64 = match self.owners.get(key) {
                Some(owner) => if owner.epoch == observation.epoch {
                    owner.sequence
                } else {
                    0
                },
                None => 0,
            };
            return Progress { status: Status::Invalid(reason), compared_sequence, transition: None };
        }
        if !self.owners.contains_key(key) {
            if self.owners.len() >= self.limits.owners {
                return self.fail_all(InvalidReason::Capacity);
            }
            let Some(next) = self.next_identity.checked_add(1) else {
                return self.fail_all(InvalidReason::Capacity);
            };
            let epoch = observation.epoch;
            let refusal = if epoch.process == 0 || epoch.owner == 0 || epoch.nonce == 0 {
                Some(InvalidReason::Identity)
            } else if observation.sequence != 1 || observation.event != Event::Begin {
                Some(InvalidReason::MissingBegin)
            } else {
                None
            };
            let owner = Owner {
                epoch,
                local_identity: self.next_identity,
                sequence: if refusal.is_none() {
                    1
                } else {
                    0
                },
                status: match refusal {
                    Some(reason) => Status::Invalid(reason),
                    None => Status::Comparing,
                },
                ledger: Mirror::new(self.limits),
            };
            self.owners.insert(key, owner);
            self.next_identity = next;
            return self.progress(epoch, None);
        }
        let ghost before = self.model();
        let transition = match self.owners.get_mut(key) {
            Some(owner) => owner.advance(observation),
            None => None,
        };
        assert(self.model() == before.with_owner(key, before.owners[key].advanced(*observation).0));
        self.progress(observation.epoch, transition)
    }

    /// The result that an owner's current qualification gives.
    pub fn progress(&self, epoch: Epoch, transition: Option<Transition>) -> (r: Progress)
        requires
            self.wf(),
        ensures
            r == self.model().progress_of(epoch, transition),
    {
        match self.owners.get(epoch.owner_key()) {
            Some(owner) => Progress {
                status: owner.status,
                compared_sequence: owner.sequence,
                transition,
            },
            None => Progress {
                status: Status::Invalid(InvalidReason::MissingBegin),
                compared_sequence: 0,
                transition: None,
            },
        }
    }
}

impl ShadowState {
    /// The interval of an owner.
    pub fn owner(&self, key: OwnerKey) -> (r: Option<&Owner>)
        requires
            self.wf(),
        ensures
            r is Some <==> self.model().owners.contains_key(key),
            r matches Some(owner) ==> owner@ == self.model().owners[key] && owner.ledger.wf(),
    {
        self.owners.get(key)
    }

    /// A handle to the interval of an owner.
    pub(crate) fn owner_mut(&mut self, key: OwnerKey) -> (r: Option<&mut Owner>)
        requires
            old(self).wf(),
        ensures
            r is Some <==> old(self).model().owners.contains_key(key),
            r matches Some(owner) ==> {
                &&& owner@ == old(self).model().owners[key]
                &&& owner.ledger.wf()
                &&& final(self).model() == old(self).model().with_owner(key, (*final(owner))@)
                &&& final(owner).ledger.wf() ==> final(self).wf()
            },
            r is None ==> *final(self) == *old(self),
    {
        self.owners.get_mut(key)
    }

    /// Why every interval is disqualified, if all are.
    pub fn fatal(&self) -> (r: Option<InvalidReason>)
        ensures
            r == self.model().fatal,
    {
        self.fatal
    }

    /// Register an interval without a record of its own.
    pub(crate) fn adopt(&mut self, key: OwnerKey, owner: Owner)
        requires
            old(self).wf(),
            owner.ledger.wf(),
        ensures
            final(self).wf(),
            final(self).model() == old(self).model().with_owner(key, owner@),
    {
        self.owners.insert(key, owner);
    }

    /// Take an interval out of the registry.
    pub(crate) fn release(&mut self, key: OwnerKey) -> (r: Option<Owner>)
        requires
            old(self).wf(),
        ensures
            final(self).wf(),
            r is Some <==> old(self).model().owners.contains_key(key),
            r matches Some(owner) ==> owner@ == old(self).model().owners[key] && owner.ledger.wf(),
            final(self).model() == (ShadowModel {
                owners: old(self).model().owners.remove(key),
                ..old(self).model()
            }),
    {
        self.owners.remove(key)
    }

    fn disqualify_all(&mut self, reason: InvalidReason)
        requires
            old(self).wf(),
        ensures
            final(self).wf(),
            final(self).model().owners == old(self).model().all_disqualified(reason),
            final(self).model() == (ShadowModel {
                owners: old(self).model().all_disqualified(reason),
                ..old(self).model()
            }),
    {
        let ghost before = self.model();
        let ghost order = self.owners.order();
        proof {
            self.owners.lemma_order();
        }
        let mut index: usize = 0;
        while index < self.owners.len()
            invariant
                self.wf(),
                self.owners.order() == order,
                order.no_duplicates(),
                index <= order.len(),
                forall|key: OwnerKey| #[trigger]
                    before.owners.contains_key(key) <==> order.contains(key),
                self.model() == (ShadowModel { owners: self.owners@, ..before }),
                self.owners@.dom() == before.owners.dom(),
                forall|i: int|
                    0 <= i < index ==> self.owners@[#[trigger] order[i]]
                        == before.owners[order[i]].disqualified(reason),
                forall|i: int|
                    index <= i < order.len() ==> self.owners@[#[trigger] order[i]]
                        == before.owners[order[i]],
            decreases order.len() - index,
        {
            let key = self.owners.key_at(index);
            let ghost was = self.owners@;
            if let Some(owner) = self.owners.get_mut(key) {
                if owner.status == Status::Comparing {
                    owner.status = Status::Invalid(reason);
                }
            }
            proof {
                assert(self.owners@ =~= was.insert(key, was[key].disqualified(reason)));
                assert(self.owners@.dom() =~= before.owners.dom());
            }
            index = index + 1;
        }
        proof {
            assert forall|key: OwnerKey| #[trigger] before.owners.contains_key(
                key,
            ) implies self.owners@[key] == before.owners[key].disqualified(reason) by {
                let at = order.index_of(key);
                assert(order[at] == key);
            }
            assert(self.owners@ =~= before.all_disqualified(reason));
        }
    }

    fn fail_all(&mut self, reason: InvalidReason) -> (r: Progress)
        requires
            old(self).wf(),
        ensures
            final(self).wf(),
            final(self).model() == (ShadowModel {
                fatal: Some(reason),
                owners: old(self).model().all_disqualified(reason),
                ..old(self).model()
            }),
            r == refused(reason),
    {
        self.disqualify_all(reason);
        self.fatal = Some(reason);
        Progress { status: Status::Invalid(reason), compared_sequence: 0, transition: None }
    }

    /// Whether every retained lifecycle interval has an explicit complete end.
    /// This is a lifecycle-corpus diagnostic, never full routing qualification.
    pub fn lifecycle_trace_complete(&self) -> (r: bool)
        requires
            self.wf(),
        ensures
            r == self.model().complete(),
    {
        proof {
            self.owners.lemma_order();
        }
        if !self.enabled || self.fatal.is_some() || self.owners.len() == 0 {
            return false;
        }
        let mut index: usize = 0;
        while index < self.owners.len()
            invariant
                self.wf(),
                index <= self.owners.order().len(),
                forall|i: int|
                    0 <= i < index ==> self.owners@[#[trigger] self.owners.order()[i]].status
                        is CleanEnded,
            decreases self.owners.order().len() - index,
        {
            if self.owners.value_at(index).status != Status::CleanEnded {
                return false;
            }
            index = index + 1;
        }
        assert forall|key: OwnerKey| #[trigger] self.model().owners.contains_key(
            key,
        ) implies self.model().owners[key].status is CleanEnded by {
            let at = self.owners.order().index_of(key);
            assert(self.owners.order()[at] == key);
        }
        true
    }

    /// Disqualify all incomplete intervals after transport loss, without a synthetic end.
    pub fn transport_lost(&mut self)
        requires
            old(self).wf(),
        ensures
            final(self).wf(),
            final(self).model() == (ShadowModel {
                owners: old(self).model().all_disqualified(InvalidReason::Transport),
                ..old(self).model()
            }),
            old(self).model().accounted() ==> final(self).model().accounted(),
    {
        self.disqualify_all(InvalidReason::Transport);
    }

    /// Disqualify one owner after an absent watermark or observed disappearance.
    pub fn invalidate(&mut self, epoch: Epoch, reason: InvalidReason) -> (r: Progress)
        requires
            old(self).wf(),
        ensures
            final(self).wf(),
            (final(self).model(), r) == old(self).model().invalidate(epoch, reason),
            old(self).model().accounted() ==> final(self).model().accounted(),
    {
        proof {
            if self.model().accounted() {
                laws::law_invalidate_keeps_accounting(self.model(), epoch, reason);
            }
        }
        let key = epoch.owner_key();
        match self.owners.get_mut(key) {
            None => return self.progress(epoch, None),
            Some(owner) => {
                if owner.epoch != epoch {
                    return Progress {
                        status: Status::Invalid(InvalidReason::Identity),
                        compared_sequence: 0,
                        transition: None,
                    };
                }
                if owner.status == Status::Comparing {
                    owner.status = Status::Invalid(reason);
                }
            },
        }
        self.progress(epoch, None)
    }

    /// Read a bounded diagnostic snapshot, never a production authority or effect.
    pub fn view(&self, epoch: Epoch) -> (r: Option<LedgerView>)
        requires
            self.wf(),
        ensures
            r is Some <==> self.model().owners.contains_key(epoch.key())
                && self.model().owners[epoch.key()].epoch == epoch,
            r matches Some(view) ==> {
                let owner = self.model().owners[epoch.key()];
                &&& view.lifecycle_only
                &&& view.local_owner == owner.local_identity
                &&& view.status == owner.status
                &&& view.compared_sequence == owner.sequence
                &&& view.describes(owner.ledger)
            },
    {
        match self.owners.get(epoch.owner_key()) {
            Some(owner) => if owner.epoch == epoch {
                Some(owner.ledger.snapshot(owner.local_identity, owner.status, owner.sequence))
            } else {
                None
            },
            None => None,
        }
    }
}

impl Owner {
    fn advance(&mut self, observation: &Observation) -> (r: Option<Transition>)
        requires
            old(self).ledger.wf(),
        ensures
            final(self).ledger.wf(),
            (final(self)@, r) == old(self)@.advanced(*observation),
    {
        if let Status::Invalid(_) = self.status {
            return None;
        }
        let refusal = if self.epoch != observation.epoch || observation.event == Event::Begin {
            Some(InvalidReason::ReplayedBegin)
        } else if self.status == Status::CleanEnded || self.sequence.checked_add(1) != Some(
            observation.sequence,
        ) {
            Some(InvalidReason::Sequence)
        } else {
            None
        };
        if let Some(reason) = refusal {
            self.status = Status::Invalid(reason);
            return None;
        }
        match self.ledger.apply(observation.event) {
            Ok(transition) => {
                self.sequence = observation.sequence;
                if observation.event == Event::End {
                    self.status = Status::CleanEnded;
                }
                Some(transition)
            },
            Err(reason) => {
                self.status = Status::Invalid(reason);
                None
            },
        }
    }
}

} // verus!
