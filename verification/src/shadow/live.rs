//! Independent comparison of bounded batches captured at actual Go mutations.
//! Witnesses are outputs only; they never initialize or repair the mirror.
use vstd::prelude::*;

pub mod caller;
pub mod laws;
pub mod native;
pub mod retention;

use super::accounting;
use super::ledger::{Mirror, MirrorModel, Transition};
use super::{
    Epoch, Event, InvalidReason, LedgerView, Limits, Observation, OwnerKey, OwnerModel, Progress,
    ShadowModel, ShadowState, Status,
};
use crate::ordered::{Key, OrderedMap};
use crate::slices;
use caller::metadata;
use caller::metadata::StoredMetadata;
use caller::selection::{SelectionModel, StoredSelection};
use caller::Budget;
use native::{NativeModel, NativeOwner};

verus! {

/// Hard maximum of transitions in one atomic Go mutation.
pub const MAX_EVENTS: usize = 4;

/// Hard maximum of affected account witnesses in one mutation.
pub const MAX_ACCOUNTS: usize = 2;

/// A fixed projection of independently represented connection state.
#[derive(Clone, Copy, Debug, PartialEq, Eq, Structural)]
pub struct ConnectionState {
    /// A physical Go connection wrapper has existed for this session.
    pub present: bool,
    /// Actual retained physical account, or zero after close.
    pub physical: u64,
    /// Independent score owner, or zero after close.
    pub score_owner: u64,
    /// Accepted migration or administrative reconnect awaits a terminal.
    pub redirect_pending: bool,
    /// Force-close was accepted, but physical close has not completed.
    pub closing: bool,
    /// Actual terminal close has occurred.
    pub closed: bool,
}

impl ConnectionState {
    /// A session that never became a connection.
    pub open spec fn absent() -> ConnectionState {
        ConnectionState {
            present: false,
            physical: 0,
            score_owner: 0,
            redirect_pending: false,
            closing: false,
            closed: false,
        }
    }
}

impl Default for ConnectionState {
    fn default() -> (r: Self)
        ensures
            r == ConnectionState::absent(),
    {
        ConnectionState {
            present: false,
            physical: 0,
            score_owner: 0,
            redirect_pending: false,
            closing: false,
            closed: false,
        }
    }
}

/// Constant-size account output; physical order itself stays in the mirror.
#[derive(Clone, Copy, Debug, PartialEq, Eq, Structural)]
pub struct AccountWitness {
    /// Diagnostic account incarnation.
    pub id: u64,
    /// Independently derived score count.
    pub score: i64,
    /// Independently derived physical count.
    pub physical: u64,
    /// First physical arrival, or zero if empty.
    pub head: u64,
    /// Last physical arrival, or zero if empty.
    pub tail: u64,
}

impl Default for AccountWitness {
    fn default() -> (r: Self)
        ensures
            r == (AccountWitness { id: 0, score: 0, physical: 0, head: 0, tail: 0 }),
    {
        AccountWitness { id: 0, score: 0, physical: 0, head: 0, tail: 0 }
    }
}

/// Fixed-size Go output witness, compared after applying the whole batch.
#[derive(Clone, Debug, PartialEq, Eq)]
pub struct Witness {
    /// At most two changed or explicitly examined retained accounts.
    pub accounts: Vec<AccountWitness>,
    /// Affected session, including an unbound selection incarnation.
    pub session: u64,
    /// Actual predecessor only when this batch physically appends the session.
    pub predecessor: u64,
    /// State before the actual atomic Go mutation.
    pub before: ConnectionState,
    /// State after the actual atomic Go mutation.
    pub after: ConnectionState,
}

impl Default for Witness {
    fn default() -> (r: Self)
        ensures
            r.accounts@ == Seq::<AccountWitness>::empty(),
            r.session == 0,
            r.predecessor == 0,
            r.before == ConnectionState::absent(),
            r.after == ConnectionState::absent(),
    {
        Witness {
            accounts: Vec::new(),
            session: 0,
            predecessor: 0,
            before: ConnectionState::default(),
            after: ConnectionState::default(),
        }
    }
}

/// Actual captured event. Metadata is group scoped and cannot imply factor parity.
#[derive(Clone, Copy, Debug, PartialEq, Eq, Structural)]
pub enum LiveEvent {
    /// Existing lifecycle transition with explicit observed endpoint identities.
    Lifecycle {
        /// Pure lifecycle input; Policy is forbidden in this live slice.
        event: Event,
        /// Actual source endpoint, when the operation has an explicit source.
        source: u64,
        /// Actual target endpoint, when it was examined by the Go operation.
        target: u64,
    },
    /// Group created before its actual policy Init.
    GroupCreated(u64),
    /// Actual removal of an empty group, retaining the diagnostic tombstone.
    GroupRemoved(u64),
    /// Selection ended after its actual failed creation settled its reservation.
    SelectionDone(u64),
    /// A route attempt returned no backend and acquired no reservation.
    RouteRejected {
        /// Selector diagnostic identity, not a guessed connection identity.
        session: u64,
        /// Examined group, or zero when router matching failed first.
        group: u64,
    },
    /// Administrative same-backend reconnect marks pending even on refusal.
    Reconnect {
        /// Existing physical session.
        session: u64,
        /// Captured operation incarnation.
        operation: u64,
        /// Existing physical account, unchanged as score owner.
        account: u64,
        /// Actual callback return; false does not undo Go's pending marker.
        accepted: bool,
    },
}

/// One atomic capture. The adapter rejects lengths before constructing this value.
#[derive(Clone, Debug)]
pub struct Batch {
    /// Complete immutable owner identity, repeated on every envelope.
    pub epoch: Epoch,
    /// First contiguous event sequence in this batch.
    pub sequence: u64,
    /// One to four lifecycle or explicit coverage events.
    pub events: Vec<LiveEvent>,
    /// Go output to compare, never a state seed.
    pub witness: Witness,
}

impl LiveEvent {
    /// The session that an event is about, if it is about one.
    pub open spec fn session_of(self) -> Option<u64> {
        match self {
            LiveEvent::Lifecycle { event, .. } => match event {
                Event::Open(session)
                | Event::Closed(session)
                | Event::Reserve { session, .. }
                | Event::Created { session, .. }
                | Event::Redirect { session, .. }
                | Event::Redirected { session, .. }
                | Event::Closing { session, .. }
                | Event::Rehydrate { session, .. }
                | Event::Rejected { session } => Some(session),
                _ => None,
            },
            LiveEvent::SelectionDone(session) => Some(session),
            LiveEvent::Reconnect { session, .. } => Some(session),
            _ => None,
        }
    }

    /// The session that an event is about, if it is about one.
    pub fn session(self) -> (r: Option<u64>)
        ensures
            r == self.session_of(),
    {
        match self {
            LiveEvent::Lifecycle { event, .. } => match event {
                Event::Open(session)
                | Event::Closed(session)
                | Event::Reserve { session, .. }
                | Event::Created { session, .. }
                | Event::Redirect { session, .. }
                | Event::Redirected { session, .. }
                | Event::Closing { session, .. }
                | Event::Rehydrate { session, .. }
                | Event::Rejected { session } => Some(session),
                _ => None,
            },
            LiveEvent::SelectionDone(session) => Some(session),
            LiveEvent::Reconnect { session, .. } => Some(session),
            _ => None,
        }
    }

    /// Whether an event is a success that may append its session to a physical
    /// order. It does so only where the ledger applies it: a stale terminal is
    /// ignored.
    pub open spec fn may_append(self) -> bool {
        self matches LiveEvent::Lifecycle { event, .. } && match event {
            Event::Rehydrate { .. } => true,
            Event::Created { success, .. } => success,
            Event::Redirected { success, .. } => success,
            _ => false,
        }
    }

    fn can_append(self) -> (r: bool)
        ensures
            r == self.may_append(),
    {
        match self {
            LiveEvent::Lifecycle { event, .. } => match event {
                Event::Rehydrate { .. } => true,
                Event::Created { success, .. } => success,
                Event::Redirected { success, .. } => success,
                _ => false,
            },
            _ => false,
        }
    }
}

/// The session that the first events of a mutation are about: zero if none is,
/// and none if they disagree or name no session.
pub open spec fn common_session(events: Seq<LiveEvent>, count: int) -> Option<u64>
    decreases count,
{
    if count <= 0 {
        Some(0)
    } else {
        match (common_session(events, count - 1), events[count - 1].session_of()) {
            (Some(session), Some(id)) => if id == 0 || session != 0 && session != id {
                None
            } else {
                Some(id)
            },
            (session, _) => session,
        }
    }
}

/// A session of an owner interval.
#[derive(Clone, Copy, Debug, PartialEq, Eq, Structural)]
pub struct SelectorKey {
    /// Owner interval.
    pub epoch: Epoch,
    /// Session incarnation.
    pub session: u64,
}

impl Key for SelectorKey {
    open spec fn before(self, other: Self) -> bool {
        self.epoch.before(other.epoch) || self.epoch == other.epoch && self.session < other.session
    }

    proof fn order_laws(a: Self, b: Self, c: Self) {
    }

    fn precedes(&self, other: &Self) -> (r: bool) {
        self.epoch.precedes(&other.epoch) || self.epoch == other.epoch && self.session
            < other.session
    }
}

/// Whether an event with this result physically appended its session.
pub open spec fn appends(event: LiveEvent, progress: Progress) -> bool {
    event.may_append() && progress.transition == Some(Transition::Applied)
}

/// What [`LiveState`] holds.
#[verifier::ext_equal]
pub struct LiveModel {
    /// The lifecycle mirror.
    pub core: ShadowModel,
    /// Group history of each owner: whether each group still exists.
    pub groups: Map<OwnerKey, Map<u64, bool>>,
    /// Population limits.
    pub limits: Limits,
    /// Native histories.
    pub native: Map<Epoch, NativeModel>,
    /// Retained bytes.
    pub native_bytes: usize,
    /// Highest admitted retained plus staged bytes.
    pub native_peak: usize,
    /// Highest admitted caller tuple.
    pub caller_peak: Option<Budget>,
    /// Selectors.
    pub selectors: Map<SelectorKey, SelectionModel>,
    /// Router metadata.
    pub metadata: Map<Epoch, metadata::tracker::TrackerModel>,
}

/// A set of accounts without zero.
pub open spec fn nonzero(a: u64, b: u64) -> Set<u64> {
    Set::new(|id: u64| id != 0 && (id == a || id == b))
}

/// The account identities of a witness.
pub open spec fn witnessed(accounts: Seq<AccountWitness>) -> Seq<u64> {
    accounts.map_values(|account: AccountWitness| account.id)
}

impl LiveModel {
    /// No observation.
    pub open spec fn empty(limits: Limits) -> LiveModel {
        LiveModel {
            core: ShadowModel::empty(limits),
            groups: Map::empty(),
            limits,
            native: Map::empty(),
            native_bytes: 0,
            native_peak: 0,
            caller_peak: None,
            selectors: Map::empty(),
            metadata: Map::empty(),
        }
    }

    /// Every retained ledger is complete and accounted for.
    pub open spec fn accounted(self) -> bool {
        self.core.accounted()
    }

    /// The last qualified comparison. A query for another nonce qualifies
    /// nothing, and keeps the compared boundary.
    pub open spec fn progress(self, epoch: Epoch) -> Progress {
        let progress = self.core.progress_of(epoch, None);
        if self.core.owners.contains_key(epoch.key()) && self.core.owners[epoch.key()].epoch
            != epoch {
            Progress {
                status: Status::Invalid(InvalidReason::Identity),
                compared_sequence: progress.compared_sequence,
                transition: None,
            }
        } else {
            progress
        }
    }

    /// The state after one owner interval was replaced.
    pub open spec fn with_owner(self, key: OwnerKey, owner: OwnerModel) -> LiveModel {
        LiveModel { core: self.core.with_owner(key, owner), ..self }
    }

    /// The state after an out-of-band invalid notice.
    pub open spec fn invalidated(self, epoch: Epoch, reason: InvalidReason) -> LiveModel {
        let key = epoch.key();
        let core = if self.core.owners.contains_key(key) {
            self.core
        } else {
            self.core.observe(Observation { epoch, sequence: 0, event: Event::Watermark }).0
        };
        let noticed = LiveModel { core, ..self };
        if core.owners.contains_key(key) {
            let owner = core.owners[key];
            if owner.epoch != epoch {
                noticed.with_owner(
                    key,
                    OwnerModel { status: Status::Invalid(InvalidReason::Identity), ..owner },
                )
            } else if !(owner.status is Invalid) {
                noticed.with_owner(key, OwnerModel { status: Status::Invalid(reason), ..owner })
            } else {
                noticed
            }
        } else {
            noticed
        }
    }

    /// Whether an owner's group exists.
    pub open spec fn group_lives(self, key: OwnerKey, group: u64) -> bool {
        self.groups.contains_key(key) && self.groups[key].contains_key(group)
            && self.groups[key][group]
    }

    /// The group history of an owner.
    pub open spec fn groups_of(self, key: OwnerKey) -> Map<u64, bool> {
        if self.groups.contains_key(key) {
            self.groups[key]
        } else {
            Map::empty()
        }
    }

    /// The state after a group's existence was set.
    pub open spec fn with_group(self, key: OwnerKey, group: u64, lives: bool) -> LiveModel {
        LiveModel {
            groups: self.groups.insert(key, self.groups_of(key).insert(group, lives)),
            ..self
        }
    }

    /// What is known of a session's connection.
    pub open spec fn connection(self, key: OwnerKey, session: u64) -> ConnectionState {
        if self.core.owners.contains_key(key) {
            self.core.owners[key].ledger.connection(session)
        } else {
            ConnectionState::absent()
        }
    }

    /// The accounts that an event's witness must name. A policy event does not
    /// belong to live observation.
    pub open spec fn event_accounts(self, key: OwnerKey, event: LiveEvent) -> Result<
        Set<u64>,
        InvalidReason,
    > {
        match event {
            LiveEvent::Lifecycle { event, source, target } => {
                let ends = nonzero(source, target);
                match event {
                    Event::Account { id, .. }
                    | Event::RemoveAccount(id)
                    | Event::Reserve { account: id, .. }
                    | Event::Rehydrate { account: id, .. }
                    | Event::Redirect { target: id, .. } => Ok(ends.insert(id)),
                    Event::Created { session, .. } => if self.core.owners.contains_key(key) {
                        match self.core.owners[key].ledger.pending_account(session) {
                            Some(id) => Ok(ends.insert(id)),
                            None => Ok(ends),
                        }
                    } else {
                        Ok(ends)
                    },
                    Event::Policy(_) => Err(InvalidReason::Lifecycle),
                    _ => Ok(ends),
                }
            },
            LiveEvent::Reconnect { account, .. } => Ok(Set::empty().insert(account)),
            _ => Ok(Set::empty()),
        }
    }

    /// The state after an accepted ledger step of an owner, or the refusal.
    pub open spec fn stepped(self, key: OwnerKey, step: super::ledger::Step) -> (
        LiveModel,
        Result<(), InvalidReason>,
    ) {
        match step {
            Ok((ledger, _)) => (
                self.with_owner(key, OwnerModel { ledger, ..self.core.owners[key] }),
                Ok(()),
            ),
            Err(reason) => (self, Err(reason)),
        }
    }

    /// What an event other than a lifecycle record does once its sequence was
    /// accepted.
    pub open spec fn coverage_event(self, key: OwnerKey, event: LiveEvent) -> (
        LiveModel,
        Result<(), InvalidReason>,
    ) {
        let ledger = self.core.owners[key].ledger;
        match event {
            LiveEvent::GroupCreated(id) => if self.groups_of(key).len() >= self.limits.accounts {
                (self, Err(InvalidReason::Capacity))
            } else if id == 0 || self.groups_of(key).contains_key(id) {
                (self, Err(InvalidReason::Identity))
            } else {
                (self.with_group(key, id, true), Ok(()))
            },
            LiveEvent::GroupRemoved(id) => if !self.groups_of(key).contains_key(id) {
                (self, Err(InvalidReason::Identity))
            } else if !self.groups_of(key)[id] || !ledger.group_empty(id) {
                (self, Err(InvalidReason::Lifecycle))
            } else {
                (self.with_group(key, id, false), Ok(()))
            },
            LiveEvent::SelectionDone(id) => self.stepped(key, ledger.selection_done(id)),
            LiveEvent::RouteRejected { session, group } => if session == 0 || group != 0
                && !self.group_lives(key, group) {
                (self, Err(InvalidReason::Identity))
            } else {
                (self, Ok(()))
            },
            LiveEvent::Reconnect { session, operation, account, .. } => self.stepped(
                key,
                ledger.reconnect(session, operation, account),
            ),
            LiveEvent::Lifecycle { .. } => (self, Err(InvalidReason::Lifecycle)),
        }
    }

    /// The state after one captured event, and what its record gave.
    pub open spec fn apply_event(self, epoch: Epoch, sequence: u64, event: LiveEvent) -> (
        LiveModel,
        Result<Progress, InvalidReason>,
    ) {
        let key = epoch.key();
        if let LiveEvent::Lifecycle { event, .. } = event {
            if event is Account && !self.group_lives(key, event->Account_group) {
                (self, Err(InvalidReason::Identity))
            } else {
                let (core, progress) = self.core.observe(Observation { epoch, sequence, event });
                (LiveModel { core, ..self }, Ok(progress))
            }
        } else {
            let (core, progress) = self.core.observe(
                Observation { epoch, sequence, event: Event::Watermark },
            );
            let next = LiveModel { core, ..self };
            if !(progress.status is Comparing) {
                (next, Ok(progress))
            } else {
                let (after, result) = next.coverage_event(key, event);
                (
                    after,
                    match result {
                        Ok(_) => Ok(progress),
                        Err(reason) => Err(reason),
                    },
                )
            }
        }
    }

    /// The state after the first events of a mutation, the accounts that they
    /// require, and whether one of them physically appended its session.
    pub open spec fn run(self, batch: Batch, count: int) -> (
        LiveModel,
        Result<(Set<u64>, bool), InvalidReason>,
    )
        decreases count,
    {
        if count <= 0 {
            (self, Ok((Set::empty(), false)))
        } else {
            match self.run(batch, count - 1) {
                (state, Err(reason)) => (state, Err(reason)),
                (state, Ok((required, appended))) => {
                    let event = batch.events@[count - 1];
                    match state.event_accounts(batch.epoch.key(), event) {
                        Err(reason) => (state, Err(reason)),
                        Ok(more) => if batch.sequence + count - 1 > u64::MAX {
                            (state, Err(InvalidReason::Sequence))
                        } else {
                            match state.apply_event(
                                batch.epoch,
                                (batch.sequence + count - 1) as u64,
                                event,
                            ) {
                                (next, Err(reason)) => (next, Err(reason)),
                                (next, Ok(progress)) => match progress.status {
                                    Status::Invalid(reason) => (next, Err(reason)),
                                    _ => (
                                        next,
                                        Ok(
                                            (
                                                required.union(more),
                                                appended || appends(event, progress),
                                            ),
                                        ),
                                    ),
                                },
                            }
                        },
                    }
                },
            }
        }
    }

    /// Whether a witness agrees with the ledger after its mutation.
    pub open spec fn witness_agrees(
        ledger: MirrorModel,
        batch: Batch,
        session: u64,
        before: ConnectionState,
        required: Set<u64>,
        appended: bool,
    ) -> bool {
        let witness = batch.witness;
        let after = ledger.connection(session);
        &&& witnessed(witness.accounts@).no_duplicates()
        &&& witnessed(witness.accounts@).to_set() =~= required.union(
            nonzero(after.physical, after.score_owner),
        )
        &&& witness.session == session
        &&& witness.before == before
        &&& witness.after == after
        &&& witness.predecessor == if appended {
            ledger.predecessor(session)
        } else {
            0
        }
        &&& forall|i: int|
            0 <= i < witness.accounts@.len() ==> ledger.compact_account(
                (#[trigger] witness.accounts@[i]).id,
            ) == Some(witness.accounts@[i])
    }

    /// Why a mutation is not even applied, if it is not; an interval that is
    /// already invalid takes no part.
    pub open spec fn batch_refusal(self, batch: Batch) -> Option<InvalidReason> {
        let key = batch.epoch.key();
        let events = batch.events@;
        if events.len() == 0 || events.len() > MAX_EVENTS || batch.witness.accounts@.len()
            > MAX_ACCOUNTS {
            Some(InvalidReason::Capacity)
        } else if self.settled_invalid(key) {
            None
        } else if self.core.owners.contains_key(key) && self.core.owners[key].epoch
            != batch.epoch {
            Some(InvalidReason::Identity)
        } else if common_session(events, events.len() as int) is None {
            Some(InvalidReason::Identity)
        } else {
            None
        }
    }

    /// Whether an owner's interval is disqualified.
    pub open spec fn settled_invalid(self, key: OwnerKey) -> bool {
        self.core.owners.contains_key(key) && self.core.owners[key].status is Invalid
    }

    /// The state after a mutation was applied, and whether its witness was
    /// compared or why it was refused.
    pub open spec fn compared(self, batch: Batch) -> (LiveModel, Result<bool, InvalidReason>) {
        let key = batch.epoch.key();
        let events = batch.events@;
        if let Some(reason) = self.batch_refusal(batch) {
            (self, Err(reason))
        } else if self.settled_invalid(key) {
            (self, Ok(false))
        } else {
            let session = common_session(events, events.len() as int)->0;
            let before = self.connection(key, session);
            match self.run(batch, events.len() as int) {
                (state, Err(reason)) => (state, Err(reason)),
                (state, Ok((required, appended))) => if !state.core.owners.contains_key(key) {
                    (state, Err(InvalidReason::MissingBegin))
                } else if LiveModel::witness_agrees(
                    state.core.owners[key].ledger,
                    batch,
                    session,
                    before,
                    required.union(nonzero(before.physical, before.score_owner)),
                    appended,
                ) {
                    (state, Ok(true))
                } else {
                    (state, Err(InvalidReason::Witness))
                },
            }
        }
    }

    /// The state with an owner's compared sequence set.
    pub open spec fn with_sequence(self, key: OwnerKey, sequence: u64) -> LiveModel {
        if self.core.owners.contains_key(key) {
            self.with_owner(key, OwnerModel { sequence, ..self.core.owners[key] })
        } else {
            self
        }
    }

    /// The native histories after a compared mutation settled redirect attempts.
    pub open spec fn attempts_settled(self, batch: Batch) -> LiveModel {
        if self.native.contains_key(batch.epoch) {
            LiveModel {
                native: self.native.insert(batch.epoch, self.native[batch.epoch].settled(batch)),
                ..self
            }
        } else {
            self
        }
    }

    /// The state after a captured mutation. A bad one permanently invalidates
    /// its owner and does not advance the compared sequence.
    pub open spec fn observe(self, batch: Batch) -> LiveModel {
        match self.compared(batch) {
            (state, Ok(true)) => state.attempts_settled(batch),
            (state, Ok(false)) => state,
            (state, Err(reason)) => state.invalidated(batch.epoch, reason).with_sequence(
                batch.epoch.key(),
                self.progress(batch.epoch).compared_sequence,
            ),
        }
    }
}

/// Live observation domain. It reuses the isolated lifecycle mirror and adds
/// bounded group history, strict witness qualification, and the retained native,
/// selector and router histories that share its owners' prefixes.
pub struct LiveState {
    core: ShadowState,
    groups: OrderedMap<OwnerKey, OrderedMap<u64, bool>>,
    limits: Limits,
    native: OrderedMap<Epoch, NativeOwner>,
    native_bytes: usize,
    native_peak: usize,
    caller_peak: Option<Budget>,
    selectors: OrderedMap<SelectorKey, StoredSelection>,
    metadata: OrderedMap<Epoch, StoredMetadata>,
}

impl LiveState {
    /// What the domain holds.
    pub closed spec fn model(&self) -> LiveModel {
        LiveModel {
            core: self.core.model(),
            groups: self.groups@,
            limits: self.limits,
            native: self.native@,
            native_bytes: self.native_bytes,
            native_peak: self.native_peak,
            caller_peak: self.caller_peak,
            selectors: self.selectors@,
            metadata: self.metadata@,
        }
    }

    /// Every retained history is well-formed, and observation is enabled.
    pub closed spec fn wf(&self) -> bool {
        &&& self.core.wf()
        &&& self.core.model().enabled
        &&& self.groups.wf()
        &&& forall|key: OwnerKey| #[trigger]
            self.groups.raw().contains_key(key) ==> self.groups.raw()[key].wf()
        &&& self.native.wf()
        &&& forall|epoch: Epoch| #[trigger]
            self.native.raw().contains_key(epoch) ==> self.native.raw()[epoch].wf()
        &&& self.selectors.wf()
        &&& forall|key: SelectorKey| #[trigger]
            self.selectors.raw().contains_key(key) ==> self.selectors.raw()[key].wf()
        &&& self.metadata.wf()
        &&& forall|epoch: Epoch| #[trigger]
            self.metadata.raw().contains_key(epoch) ==> self.metadata.raw()[epoch].wf()
    }

    /// A live domain always observes.
    pub proof fn law_always_enabled(&self)
        requires
            self.wf(),
        ensures
            self.model().core.enabled,
    {
    }

    /// Empty observer; production state cannot be attached or reconstructed.
    pub fn new(limits: Limits) -> (r: Self)
        ensures
            r.wf(),
            r.model().accounted(),
            r.model() == LiveModel::empty(limits),
    {
        LiveState {
            core: ShadowState::new(limits),
            groups: OrderedMap::new(),
            limits,
            native: OrderedMap::new(),
            native_bytes: 0,
            native_peak: 0,
            caller_peak: None,
            selectors: OrderedMap::new(),
            metadata: OrderedMap::new(),
        }
    }

    /// Last qualified comparison sequence. Invalid summaries never advance it.
    pub fn progress(&self, epoch: Epoch) -> (r: Progress)
        requires
            self.wf(),
        ensures
            r == self.model().progress(epoch),
    {
        let progress = self.core.progress(epoch, None);
        if let Some(owner) = self.core.owner(epoch.owner_key()) {
            if owner.epoch != epoch {
                return Progress {
                    status: Status::Invalid(InvalidReason::Identity),
                    compared_sequence: progress.compared_sequence,
                    transition: None,
                };
            }
        }
        progress
    }

    /// Read an explicit diagnostic snapshot, outside capture or comparison loops.
    pub fn view(&self, epoch: Epoch) -> (r: Option<LedgerView>)
        requires
            self.wf(),
        ensures
            r is Some <==> self.model().core.owners.contains_key(epoch.key())
                && self.model().core.owners[epoch.key()].epoch == epoch,
            r matches Some(view) ==> {
                let owner = self.model().core.owners[epoch.key()];
                &&& view.lifecycle_only
                &&& view.local_owner == owner.local_identity
                &&& view.status == owner.status
                &&& view.compared_sequence == owner.sequence
                &&& view.describes(owner.ledger)
            },
    {
        self.core.view(epoch)
    }

    /// Borrow the ledger of an owner interval, whatever became of its comparison.
    pub fn ledger(&self, epoch: Epoch) -> (r: Option<&Mirror>)
        requires
            self.wf(),
        ensures
            r is Some <==> self.model().core.owners.contains_key(epoch.key())
                && self.model().core.owners[epoch.key()].epoch == epoch,
            r matches Some(ledger) ==> ledger.wf() && ledger@
                == self.model().core.owners[epoch.key()].ledger,
    {
        match self.core.owner(epoch.owner_key()) {
            Some(owner) => if owner.epoch == epoch {
                Some(&owner.ledger)
            } else {
                None
            },
            None => None,
        }
    }

    /// Read independently derived score/physical totals without copying lists.
    pub fn totals(&self, epoch: Epoch) -> (r: Option<(u64, u64)>)
        requires
            self.wf(),
            self.model().accounted(),
        ensures
            r is Some <==> self.model().core.owners.contains_key(epoch.key())
                && self.model().core.owners[epoch.key()].epoch == epoch,
            r matches Some(totals) ==> {
                let sessions = self.model().core.owners[epoch.key()].ledger.sessions;
                &&& totals.0 == accounting::tally(sessions, accounting::Role::Owned)
                &&& totals.1 == accounting::tally(sessions, accounting::Role::Held)
            },
    {
        match self.core.owner(epoch.owner_key()) {
            Some(owner) => if owner.epoch == epoch {
                assert(accounting::accounted(owner.ledger@));
                Some(owner.ledger.totals())
            } else {
                None
            },
            None => None,
        }
    }

    /// Keep invalid history after a transport interval is lost.
    pub fn transport_lost(&mut self)
        requires
            old(self).wf(),
        ensures
            final(self).wf(),
            final(self).model() == (LiveModel {
                core: ShadowModel {
                    owners: old(self).model().core.all_disqualified(InvalidReason::Transport),
                    ..old(self).model().core
                },
                ..old(self).model()
            }),
            old(self).model().accounted() ==> final(self).model().accounted(),
    {
        self.core.transport_lost();
    }

    /// Persist an out-of-band invalid notice, including for an unseen owner.
    /// The last admitted sequence is deliberately not a parameter: it is not
    /// comparison proof.
    pub fn invalidate(&mut self, epoch: Epoch, reason: InvalidReason) -> (r: Progress)
        requires
            old(self).wf(),
        ensures
            final(self).wf(),
            final(self).model() == old(self).model().invalidated(epoch, reason),
            r == final(self).model().progress(epoch),
            old(self).model().accounted() ==> final(self).model().accounted(),
    {
        let ghost before = self.model();
        let key = epoch.owner_key();
        if self.core.owner(key).is_none() {
            self.core.observe(&Observation { epoch, sequence: 0, event: Event::Watermark });
        }
        let ghost noticed = self.model();
        if let Some(owner) = self.core.owner_mut(key) {
            if owner.epoch != epoch {
                owner.status = Status::Invalid(InvalidReason::Identity);
            } else if !matches!(owner.status, Status::Invalid(_)) {
                owner.status = Status::Invalid(reason);
            }
        }
        proof {
            assert(self.model().core.owners =~= before.invalidated(epoch, reason).core.owners);
            assert(self.model() =~= before.invalidated(epoch, reason));
            if before.accounted() {
                assert forall|k: OwnerKey| #[trigger] self.model().core.owners.contains_key(
                    k,
                ) implies accounting::accounted(self.model().core.owners[k].ledger) by {
                    assert(noticed.core.owners.contains_key(k));
                }
            }
        }
        self.progress(epoch)
    }
}

fn add_account(list: &mut Vec<u64>, id: u64)
    requires
        old(list)@.no_duplicates(),
    ensures
        final(list)@.no_duplicates(),
        final(list)@.to_set() == old(list)@.to_set().insert(id),
{
    let ghost before = list@;
    if !slices::holds(list.as_slice(), id) {
        list.push(id);
        proof {
            assert(list@ =~= before.push(id));
            assert forall|k: u64| list@.contains(k) <==> before.contains(k) || k == id by {
                if before.contains(k) {
                    let at = before.index_of(k);
                    assert(list@[at] == k);
                }
                if k == id {
                    assert(list@[before.len() as int] == k);
                }
            }
        }
    }
    assert(list@.to_set() =~= before.to_set().insert(id));
}

fn add_nonzero(list: &mut Vec<u64>, a: u64, b: u64)
    requires
        old(list)@.no_duplicates(),
    ensures
        final(list)@.no_duplicates(),
        final(list)@.to_set() == old(list)@.to_set().union(nonzero(a, b)),
{
    let ghost before = list@.to_set();
    if a != 0 {
        add_account(list, a);
    }
    if b != 0 {
        add_account(list, b);
    }
    assert(list@.to_set() =~= before.union(nonzero(a, b)));
}

fn witness_names(accounts: &Vec<AccountWitness>, required: &Vec<u64>) -> (r: bool)
    requires
        required@.no_duplicates(),
    ensures
        r == (witnessed(accounts@).no_duplicates() && witnessed(accounts@).to_set()
            =~= required@.to_set()),
{
    let ghost ids = witnessed(accounts@);
    let mut listed: Vec<u64> = Vec::new();
    let mut index: usize = 0;
    while index < accounts.len()
        invariant
            ids == witnessed(accounts@),
            index <= accounts@.len(),
            listed@ == ids.take(index as int),
            listed@.no_duplicates(),
            forall|i: int| 0 <= i < index ==> required@.contains(#[trigger] ids[i]),
        decreases accounts@.len() - index,
    {
        let id = accounts[index].id;
        assert(ids[index as int] == id);
        if slices::holds(listed.as_slice(), id) {
            proof {
                let at = listed@.index_of(id);
                assert(ids[at] == id);
                assert(!ids.no_duplicates());
            }
            return false;
        }
        if !slices::holds(required.as_slice(), id) {
            proof {
                assert(ids.contains(id));
                assert(ids.to_set().contains(id));
                assert(!required@.to_set().contains(id));
            }
            return false;
        }
        listed.push(id);
        assert(listed@ =~= ids.take(index + 1));
        index = index + 1;
    }
    assert(listed@ =~= ids);
    let mut at: usize = 0;
    while at < required.len()
        invariant
            at <= required@.len(),
            ids == witnessed(accounts@),
            listed@ == ids,
            forall|i: int| 0 <= i < at ==> ids.contains(#[trigger] required@[i]),
        decreases required@.len() - at,
    {
        if !slices::holds(listed.as_slice(), required[at]) {
            proof {
                let id = required@[at as int];
                assert(required@.to_set().contains(id));
                assert(!ids.to_set().contains(id));
            }
            return false;
        }
        at = at + 1;
    }
    proof {
        assert forall|id: u64| ids.to_set().contains(id) <==> required@.to_set().contains(id) by {
            if ids.contains(id) {
                let i = ids.index_of(id);
                assert(required@.contains(ids[i]));
            }
            if required@.contains(id) {
                let i = required@.index_of(id);
                assert(ids.contains(required@[i]));
            }
        }
    }
    true
}

fn shared_session(events: &Vec<LiveEvent>) -> (r: Option<u64>)
    ensures
        r == common_session(events@, events@.len() as int),
{
    let mut session: u64 = 0;
    let mut index: usize = 0;
    while index < events.len()
        invariant
            index <= events@.len(),
            common_session(events@, index as int) == Some(session),
        decreases events@.len() - index,
    {
        if let Some(id) = events[index].session() {
            if id == 0 || session != 0 && session != id {
                proof {
                    assert(common_session(events@, index + 1) is None);
                    lemma_disagreement(events@, index + 1, events@.len() as int);
                }
                return None;
            }
            session = id;
        }
        index = index + 1;
    }
    Some(session)
}

proof fn lemma_disagreement(events: Seq<LiveEvent>, from: int, to: int)
    requires
        from <= to,
        common_session(events, from) is None,
    ensures
        common_session(events, to) is None,
    decreases to - from,
{
    if from < to {
        lemma_disagreement(events, from, to - 1);
    }
}

/// A refused prefix of a mutation refuses the whole of it.
proof fn lemma_run_stops(m: LiveModel, batch: Batch, from: int, to: int)
    requires
        from <= to,
        m.run(batch, from).1 is Err,
    ensures
        m.run(batch, to) == m.run(batch, from),
    decreases to - from,
{
    if from < to {
        lemma_run_stops(m, batch, from, to - 1);
    }
}

impl LiveState {
    fn group_lives(&self, key: OwnerKey, group: u64) -> (r: bool)
        requires
            self.wf(),
        ensures
            r == self.model().group_lives(key, group),
    {
        match self.groups.get(key) {
            Some(groups) => match groups.get(group) {
                Some(lives) => *lives,
                None => false,
            },
            None => false,
        }
    }

    fn set_group(&mut self, key: OwnerKey, group: u64, lives: bool)
        requires
            old(self).wf(),
        ensures
            final(self).wf(),
            final(self).model() == old(self).model().with_group(key, group, lives),
    {
        let ghost before = self.model();
        if !self.groups.contains_key(key) {
            self.groups.insert(key, OrderedMap::new());
        }
        if let Some(groups) = self.groups.get_mut(key) {
            groups.insert(group, lives);
        }
        assert(self.model().groups =~= before.with_group(key, group, lives).groups);
    }

    fn required_accounts(&self, key: OwnerKey, event: LiveEvent, required: &mut Vec<u64>) -> (r: Result<
        (),
        InvalidReason,
    >)
        requires
            self.wf(),
            old(required)@.no_duplicates(),
        ensures
            final(required)@.no_duplicates(),
            match self.model().event_accounts(key, event) {
                Ok(more) => r is Ok && final(required)@.to_set() == old(required)@.to_set().union(more),
                Err(reason) => r is Err && r->Err_0 == reason,
            },
    {
        let ghost before = required@.to_set();
        match event {
            LiveEvent::Lifecycle { event, source, target } => {
                add_nonzero(required, source, target);
                match event {
                    Event::Account { id, .. }
                    | Event::RemoveAccount(id)
                    | Event::Reserve { account: id, .. }
                    | Event::Rehydrate { account: id, .. }
                    | Event::Redirect { target: id, .. } => {
                        add_account(required, id);
                        assert(required@.to_set() =~= before.union(nonzero(source, target).insert(id)));
                    },
                    Event::Created { session, .. } => {
                        if let Some(owner) = self.core.owner(key) {
                            if let Some(id) = owner.ledger.pending_account(session) {
                                add_account(required, id);
                                assert(required@.to_set() =~= before.union(
                                    nonzero(source, target).insert(id),
                                ));
                            }
                        }
                    },
                    Event::Policy(_) => return Err(InvalidReason::Lifecycle),
                    _ => {},
                }
            },
            LiveEvent::Reconnect { account, .. } => {
                add_account(required, account);
                assert(required@.to_set() =~= before.union(Set::<u64>::empty().insert(account)));
            },
            _ => {
                assert(required@.to_set() =~= before.union(Set::<u64>::empty()));
            },
        }
        Ok(())
    }

    fn coverage_event(&mut self, key: OwnerKey, event: LiveEvent) -> (r: Result<(), InvalidReason>)
        requires
            old(self).wf(),
            old(self).model().core.owners.contains_key(key),
        ensures
            final(self).wf(),
            (final(self).model(), r) == old(self).model().coverage_event(key, event),
    {
        let ghost before = self.model();
        match event {
            LiveEvent::GroupCreated(id) => {
                let (count, known) = match self.groups.get(key) {
                    Some(groups) => (groups.len(), groups.contains_key(id)),
                    None => (0, false),
                };
                if count >= self.limits.accounts {
                    return Err(InvalidReason::Capacity);
                }
                if id == 0 || known {
                    return Err(InvalidReason::Identity);
                }
                self.set_group(key, id, true);
                Ok(())
            },
            LiveEvent::GroupRemoved(id) => {
                let lives = match self.groups.get(key) {
                    Some(groups) => match groups.get(id) {
                        Some(lives) => *lives,
                        None => return Err(InvalidReason::Identity),
                    },
                    None => return Err(InvalidReason::Identity),
                };
                let empty = match self.core.owner(key) {
                    Some(owner) => owner.ledger.group_empty(id),
                    None => false,
                };
                if !lives || !empty {
                    return Err(InvalidReason::Lifecycle);
                }
                self.set_group(key, id, false);
                Ok(())
            },
            LiveEvent::SelectionDone(id) => {
                let result = match self.core.owner_mut(key) {
                    Some(owner) => owner.ledger.selection_done(id),
                    None => Err(InvalidReason::MissingBegin),
                };
                proof {
                    assert(self.model().core.owners =~= before.coverage_event(key, event).0.core.owners);
                }
                match result {
                    Ok(_) => Ok(()),
                    Err(reason) => Err(reason),
                }
            },
            LiveEvent::RouteRejected { session, group } => {
                if session == 0 || group != 0 && !self.group_lives(key, group) {
                    return Err(InvalidReason::Identity);
                }
                Ok(())
            },
            LiveEvent::Reconnect { session, operation, account, .. } => {
                let result = match self.core.owner_mut(key) {
                    Some(owner) => owner.ledger.reconnect(session, operation, account),
                    None => Err(InvalidReason::MissingBegin),
                };
                proof {
                    assert(self.model().core.owners =~= before.coverage_event(key, event).0.core.owners);
                }
                match result {
                    Ok(_) => Ok(()),
                    Err(reason) => Err(reason),
                }
            },
            LiveEvent::Lifecycle { .. } => Err(InvalidReason::Lifecycle),
        }
    }

    fn apply_event(&mut self, epoch: Epoch, sequence: u64, event: LiveEvent) -> (r: Result<
        Progress,
        InvalidReason,
    >)
        requires
            old(self).wf(),
        ensures
            final(self).wf(),
            (final(self).model(), r) == old(self).model().apply_event(epoch, sequence, event),
    {
        let key = epoch.owner_key();
        if let LiveEvent::Lifecycle { event, .. } = event {
            if let Event::Account { group, .. } = event {
                if !self.group_lives(key, group) {
                    return Err(InvalidReason::Identity);
                }
            }
            return Ok(self.core.observe(&Observation { epoch, sequence, event }));
        }
        let progress = self.core.observe(
            &Observation { epoch, sequence, event: Event::Watermark },
        );
        if progress.status != Status::Comparing {
            return Ok(progress);
        }
        match self.coverage_event(key, event) {
            Ok(_) => Ok(progress),
            Err(reason) => Err(reason),
        }
    }

    fn run(&mut self, batch: &Batch, required: &mut Vec<u64>) -> (r: Result<bool, InvalidReason>)
        requires
            old(self).wf(),
            old(required)@.no_duplicates(),
            batch.events@.len() <= MAX_EVENTS,
        ensures
            final(self).wf(),
            final(required)@.no_duplicates(),
            final(self).model() == old(self).model().run(*batch, batch.events@.len() as int).0,
            match old(self).model().run(*batch, batch.events@.len() as int).1 {
                Ok((more, appended)) => {
                    &&& r == Ok::<bool, InvalidReason>(appended)
                    &&& final(required)@.to_set() == old(required)@.to_set().union(more)
                },
                Err(reason) => r is Err && r->Err_0 == reason,
            },
    {
        let ghost before = self.model();
        let ghost known = required@.to_set();
        let key = batch.epoch.owner_key();
        let mut appended = false;
        let mut index: usize = 0;
        assert(known.union(Set::<u64>::empty()) =~= known);
        while index < batch.events.len()
            invariant
                self.wf(),
                before == old(self).model(),
                known == old(required)@.to_set(),
                key == batch.epoch.key(),
                required@.no_duplicates(),
                index <= batch.events@.len() <= MAX_EVENTS,
                self.model() == before.run(*batch, index as int).0,
                before.run(*batch, index as int).1 is Ok,
                required@.to_set() == known.union(before.run(*batch, index as int).1->Ok_0.0),
                appended == before.run(*batch, index as int).1->Ok_0.1,
            decreases batch.events@.len() - index,
        {
            let ghost so_far = before.run(*batch, index as int).1->Ok_0.0;
            let ghost state = self.model();
            let event = batch.events[index];
            let ghost total = batch.events@.len() as int;
            if let Err(reason) = self.required_accounts(key, event, required) {
                proof {
                    assert(before.run(*batch, index + 1) == (state, Err::<(Set<u64>, bool), _>(reason)));
                    lemma_run_stops(before, *batch, index + 1, total);
                }
                return Err(reason);
            }
            let sequence = match batch.sequence.checked_add(index as u64) {
                Some(sequence) => sequence,
                None => {
                    proof {
                        assert(before.run(*batch, index + 1) == (
                            state,
                            Err::<(Set<u64>, bool), _>(InvalidReason::Sequence),
                        ));
                        lemma_run_stops(before, *batch, index + 1, total);
                    }
                    return Err(InvalidReason::Sequence);
                },
            };
            match self.apply_event(batch.epoch, sequence, event) {
                Err(reason) => {
                    proof {
                        assert(before.run(*batch, index + 1) == (
                            self.model(),
                            Err::<(Set<u64>, bool), _>(reason),
                        ));
                        lemma_run_stops(before, *batch, index + 1, total);
                    }
                    return Err(reason);
                },
                Ok(progress) => {
                    if let Status::Invalid(reason) = progress.status {
                        proof {
                            assert(before.run(*batch, index + 1) == (
                                self.model(),
                                Err::<(Set<u64>, bool), _>(reason),
                            ));
                            lemma_run_stops(before, *batch, index + 1, total);
                        }
                        return Err(reason);
                    }
                    // A terminal that the ledger ignores is no append.
                    if event.can_append() && progress.transition == Some(Transition::Applied) {
                        appended = true;
                    }
                },
            }
            proof {
                let more = state.event_accounts(key, event)->Ok_0;
                assert(known.union(so_far).union(more) =~= known.union(so_far.union(more)));
            }
            index = index + 1;
        }
        Ok(appended)
    }

    fn witness_agrees(
        &self,
        key: OwnerKey,
        batch: &Batch,
        session: u64,
        before: ConnectionState,
        required: &mut Vec<u64>,
        appended: bool,
    ) -> (r: bool)
        requires
            self.wf(),
            self.model().core.owners.contains_key(key),
            old(required)@.no_duplicates(),
        ensures
            r == LiveModel::witness_agrees(
                self.model().core.owners[key].ledger,
                *batch,
                session,
                before,
                old(required)@.to_set(),
                appended,
            ),
    {
        let owner = match self.core.owner(key) {
            Some(owner) => owner,
            None => return false,
        };
        let after = owner.ledger.connection(session);
        add_nonzero(required, after.physical, after.score_owner);
        let predecessor: u64 = if appended {
            owner.ledger.predecessor(session)
        } else {
            0
        };
        let witness = &batch.witness;
        if !witness_names(&witness.accounts, required) || witness.session != session
            || witness.before != before || witness.after != after || witness.predecessor
            != predecessor {
            return false;
        }
        let mut index: usize = 0;
        while index < witness.accounts.len()
            invariant
                index <= witness.accounts@.len(),
                *witness == batch.witness,
                owner.ledger.wf(),
                owner.ledger@ == self.model().core.owners[key].ledger,
                forall|i: int|
                    0 <= i < index ==> owner.ledger@.compact_account(
                        (#[trigger] witness.accounts@[i]).id,
                    ) == Some(witness.accounts@[i]),
            decreases witness.accounts@.len() - index,
        {
            let account = witness.accounts[index];
            match owner.ledger.compact_account(account.id) {
                Some(known) => if known != account {
                    assert(witness.accounts@[index as int] == account);
                    return false;
                },
                None => {
                    assert(witness.accounts@[index as int] == account);
                    return false;
                },
            }
            index = index + 1;
        }
        true
    }

    fn apply_and_compare(&mut self, batch: &Batch) -> (r: Result<bool, InvalidReason>)
        requires
            old(self).wf(),
        ensures
            final(self).wf(),
            (final(self).model(), r) == old(self).model().compared(*batch),
    {
        if batch.events.len() == 0 || batch.events.len() > MAX_EVENTS
            || batch.witness.accounts.len() > MAX_ACCOUNTS {
            return Err(InvalidReason::Capacity);
        }
        let key = batch.epoch.owner_key();
        if let Some(owner) = self.core.owner(key) {
            if matches!(owner.status, Status::Invalid(_)) {
                return Ok(false);
            }
            if owner.epoch != batch.epoch {
                return Err(InvalidReason::Identity);
            }
        }
        let session = match shared_session(&batch.events) {
            Some(session) => session,
            None => return Err(InvalidReason::Identity),
        };
        let before = match self.core.owner(key) {
            Some(owner) => owner.ledger.connection(session),
            None => ConnectionState::default(),
        };
        let mut required: Vec<u64> = Vec::new();
        add_nonzero(&mut required, before.physical, before.score_owner);
        let ghost first = nonzero(before.physical, before.score_owner);
        assert(required@.to_set() =~= first);
        let ghost start = self.model();
        let appended = self.run(batch, &mut required)?;
        if self.core.owner(key).is_none() {
            return Err(InvalidReason::MissingBegin);
        }
        proof {
            let more = start.run(*batch, batch.events@.len() as int).1->Ok_0.0;
            assert(first.union(more) =~= more.union(first));
        }
        if !self.witness_agrees(key, batch, session, before, &mut required, appended) {
            return Err(InvalidReason::Witness);
        }
        Ok(true)
    }

    /// A completion settles the redirect attempts of its owner. Run only after
    /// the entire lifecycle witness compares.
    fn update_balance_terminals(&mut self, batch: &Batch)
        requires
            old(self).wf(),
        ensures
            final(self).wf(),
            final(self).model() == old(self).model().attempts_settled(*batch),
    {
        let ghost before = self.model();
        if let Some(owner) = self.native.get_mut(batch.epoch) {
            owner.settle(batch);
        }
        proof {
            assert(self.model().native =~= before.attempts_settled(*batch).native);
            assert(self.model() =~= before.attempts_settled(*batch));
        }
    }

    /// Apply the entire independent transition before comparing Go outputs.
    /// A bad batch permanently invalidates and cannot advance the compared
    /// sequence, even if an earlier event in that same batch had been locally
    /// applied.
    pub fn observe(&mut self, batch: &Batch) -> (r: Progress)
        requires
            old(self).wf(),
        ensures
            final(self).wf(),
            final(self).model() == old(self).model().observe(*batch),
            r == final(self).model().progress(batch.epoch),
            old(self).model().accounted() ==> final(self).model().accounted(),
    {
        proof {
            if self.model().accounted() {
                laws::law_observe_keeps_accounting(self.model(), *batch);
            }
        }
        let previous = self.progress(batch.epoch).compared_sequence;
        match self.apply_and_compare(batch) {
            Ok(true) => {
                self.update_balance_terminals(batch);
            },
            Ok(false) => {},
            Err(reason) => {
                self.invalidate(batch.epoch, reason);
                let ghost after = self.model();
                if let Some(owner) = self.core.owner_mut(batch.epoch.owner_key()) {
                    owner.sequence = previous;
                }
                proof {
                    let key = batch.epoch.key();
                    assert(self.model().core.owners =~= after.with_sequence(key, previous).core.owners);
                    assert(self.model() =~= after.with_sequence(key, previous));
                }
            },
        }
        self.progress(batch.epoch)
    }
}

} // verus!
