//! Affected-view transactions; no caller transport or installed capability.
//! The typed caller comparators supply their independent final results.
//! Successfully comparing children alone does not verify a caller.
use vstd::prelude::*;

pub mod arithmetic;
pub mod balance;
pub mod children;
pub mod finish;
pub mod laws;
pub mod metadata;
pub mod metadata_state;
pub mod pass;
pub mod retention;
pub mod route;
pub mod router_route;
pub mod selection;
pub mod selector_state;
pub mod timing;

use super::native::{NativeModel, HISTORY_LIMIT, STAGE_OVERHEAD};
use super::{Batch, LiveEvent, LiveModel, LiveState, SelectorKey};
use crate::charge;
use crate::ordered::OrderedMap;
use crate::shadow::fork;
use crate::shadow::native::Evaluation;
use crate::shadow::native_compute::{Computation, Decision, DecisionModel};
use crate::shadow::{
    Epoch, Event, InvalidReason, Owner, OwnerKey, OwnerModel, Progress, ShadowModel, Status,
};
use crate::slices;
use metadata::stored::StoredMetadata;
use metadata::tracker::TrackerModel;
use selection::{SelectionModel, StoredSelection};

verus! {

/// Complete caller frame limit, including its four-byte prefix.
pub const MAX_CALLER_FRAME: usize = 1_048_576;

/// Admission covers simultaneous raw bytes, nested decoding and domain values.
pub const DECODE_MULTIPLIER: usize = 32;

/// One captured critical section, not a whole router traversal.
#[derive(Clone, Copy)]
pub struct Scope<'a> {
    /// Immutable native owner identity.
    pub epoch: Epoch,
    /// Existing Group, or zero for an attempt before entering any Group.
    pub group: u64,
    /// First child sequence, or final caller sequence for a childless scope.
    pub sequence: u64,
    /// All child events/evaluations plus exactly one final caller check.
    pub span: u64,
    /// Bounded session keys the caller will examine, including new identities.
    pub sessions: &'a [u64],
    /// Actual prefix plus body length, supplied by the bounded transport.
    pub frame_bytes: usize,
}

/// What [`Scope`] holds.
#[verifier::ext_equal]
pub struct ScopeModel {
    /// Immutable native owner identity.
    pub epoch: Epoch,
    /// Existing Group, or zero.
    pub group: u64,
    /// First sequence.
    pub sequence: u64,
    /// All sequences of the scope.
    pub span: u64,
    /// Declared sessions.
    pub sessions: Seq<u64>,
    /// Incoming frame.
    pub frame_bytes: usize,
}

impl<'a> View for Scope<'a> {
    type V = ScopeModel;

    open spec fn view(&self) -> ScopeModel {
        ScopeModel {
            epoch: self.epoch,
            group: self.group,
            sequence: self.sequence,
            span: self.span,
            sessions: self.sessions@,
            frame_bytes: self.frame_bytes,
        }
    }
}

/// A simultaneous admitted memory witness, not a sum of independent maxima.
#[derive(Clone, Copy, Debug, PartialEq, Eq, Structural)]
pub struct Budget {
    /// Complete incoming encoded frame, including prefix (F).
    pub frame: usize,
    /// Nested decoder reservation, 32F (D).
    pub decode: usize,
    /// Existing retained native/caller history (R).
    pub retained: usize,
    /// All concurrently retained affected-view copies (C).
    pub clones: usize,
    /// Fixed temporary/new-key allowance (S).
    pub fixed: usize,
    /// Admitted D + R + C + S.
    pub peak: usize,
}

/// Whether a frame, retained history and copies fit the history limit together.
pub open spec fn affordable(frame: nat, retained: nat, clones: nat) -> bool {
    &&& 5 <= frame <= MAX_CALLER_FRAME
    &&& DECODE_MULTIPLIER * frame + retained + clones + STAGE_OVERHEAD <= HISTORY_LIMIT
}

impl Budget {
    /// The admitted tuple of a frame, retained history and copies.
    pub open spec fn of(frame: nat, retained: nat, clones: nat) -> Budget {
        Budget {
            frame: frame as usize,
            decode: (DECODE_MULTIPLIER * frame) as usize,
            retained: retained as usize,
            clones: clones as usize,
            fixed: STAGE_OVERHEAD,
            peak: (DECODE_MULTIPLIER * frame + retained + clones + STAGE_OVERHEAD) as usize,
        }
    }

    /// Admit a frame beside retained history and copies.
    ///
    /// # Errors
    /// Capacity, where the frame is out of bounds or the sum exceeds the limit.
    pub fn new(frame: usize, retained: usize, clones: usize) -> (r: Result<Self, InvalidReason>)
        ensures
            affordable(frame as nat, retained as nat, clones as nat) ==> r == Ok::<
                Budget,
                InvalidReason,
            >(Budget::of(frame as nat, retained as nat, clones as nat)),
            !affordable(frame as nat, retained as nat, clones as nat) ==> r == Err::<
                Budget,
                InvalidReason,
            >(InvalidReason::Capacity),
    {
        if frame < 5 || frame > MAX_CALLER_FRAME {
            return Err(InvalidReason::Capacity);
        }
        let decode = frame * DECODE_MULTIPLIER;
        let peak = match decode.checked_add(retained) {
            Some(sum) => match sum.checked_add(clones) {
                Some(sum) => match sum.checked_add(STAGE_OVERHEAD) {
                    Some(peak) => peak,
                    None => return Err(InvalidReason::Capacity),
                },
                None => return Err(InvalidReason::Capacity),
            },
            None => return Err(InvalidReason::Capacity),
        };
        if peak > HISTORY_LIMIT {
            return Err(InvalidReason::Capacity);
        }
        Ok(Budget { frame, decode, retained, clones, fixed: STAGE_OVERHEAD, peak })
    }
}

/// How many of the first sessions already have a selector.
pub open spec fn known_selectors(
    selectors: Map<SelectorKey, SelectionModel>,
    epoch: Epoch,
    sessions: Seq<u64>,
    count: int,
) -> nat
    decreases count,
{
    if count <= 0 {
        0
    } else {
        known_selectors(selectors, epoch, sessions, count - 1) + if selectors.contains_key(
            SelectorKey { epoch, session: sessions[count - 1] },
        ) {
            1nat
        } else {
            0nat
        }
    }
}

/// What an admitted scope reserves.
#[derive(Clone, Copy)]
pub struct Plan {
    /// Bytes of the copied ledger part and selectors.
    pub ledger: usize,
    /// Bytes of the copied factor history.
    pub factor: usize,
    /// The final caller sequence.
    pub last: u64,
    /// The admitted tuple.
    pub budget: Budget,
}

impl LiveModel {
    /// The state after a caller tuple was recorded.
    pub open spec fn recorded(self, budget: Budget) -> LiveModel {
        LiveModel {
            native_peak: if budget.peak > self.native_peak {
                budget.peak
            } else {
                self.native_peak
            },
            caller_peak: match self.caller_peak {
                Some(old) => if budget.peak > old.peak {
                    Some(budget)
                } else {
                    Some(old)
                },
                None => Some(budget),
            },
            ..self
        }
    }

    /// Why a scope cannot be entered before anything is reserved, if it cannot.
    pub open spec fn scope_refusal(self, scope: ScopeModel) -> Option<InvalidReason> {
        let key = scope.epoch.key();
        if !self.core.owners.contains_key(key) {
            Some(InvalidReason::MissingBegin)
        } else if self.core.owners[key].epoch != scope.epoch || self.core.fatal is Some {
            Some(InvalidReason::Identity)
        } else if !(self.core.owners[key].status is Comparing) {
            Some(InvalidReason::Lifecycle)
        } else if self.core.owners[key].sequence + 1 != scope.sequence || scope.span == 0
            || scope.span > 261 || scope.sequence + scope.span - 1 > u64::MAX {
            Some(InvalidReason::Sequence)
        } else if scope.group != 0 && !self.group_lives(key, scope.group) {
            Some(InvalidReason::Identity)
        } else if !self.native.contains_key(scope.epoch) {
            Some(InvalidReason::MissingBegin)
        } else {
            None
        }
    }

    /// What a scope reserves when its ledger copy is charged like this.
    pub open spec fn plan(self, scope: ScopeModel, copy: Result<usize, InvalidReason>) -> Result<
        Plan,
        InvalidReason,
    > {
        if let Some(reason) = self.scope_refusal(scope) {
            Err(reason)
        } else {
            match copy {
                Err(reason) => Err(reason),
                Ok(copy) => {
                    let count = known_selectors(
                        self.selectors,
                        scope.epoch,
                        scope.sessions,
                        scope.sessions.len() as int,
                    );
                    let ledger = copy + charge::clamp(count * selection::stored_bytes());
                    let factor = self.native[scope.epoch].charge_of(scope.group);
                    if ledger + factor > usize::MAX || !affordable(
                        scope.frame_bytes as nat,
                        self.native_bytes as nat,
                        (ledger + factor) as nat,
                    ) {
                        Err(InvalidReason::Capacity)
                    } else {
                        Ok(
                            Plan {
                                ledger: ledger as usize,
                                factor,
                                last: (scope.sequence + scope.span - 1) as u64,
                                budget: Budget::of(
                                    scope.frame_bytes as nat,
                                    self.native_bytes as nat,
                                    (ledger + factor) as nat,
                                ),
                            },
                        )
                    }
                },
            }
        }
    }

    /// The private copy that a scope works on: its owner with one group and
    /// some sessions, and nothing else.
    pub open spec fn affected(self, scope: ScopeModel, plan: Plan) -> LiveModel {
        let key = scope.epoch.key();
        let owner = self.core.owners[key];
        let native = self.native[scope.epoch];
        LiveModel {
            core: ShadowModel::empty(self.limits).with_owner(
                key,
                OwnerModel { ledger: owner.ledger.fork(scope.group, scope.sessions), ..owner },
            ),
            groups: if scope.group != 0 {
                Map::<OwnerKey, Map<u64, bool>>::empty().insert(
                    key,
                    Map::<u64, bool>::empty().insert(scope.group, true),
                )
            } else {
                Map::empty()
            },
            native: Map::<Epoch, NativeModel>::empty().insert(
                scope.epoch,
                NativeModel {
                    groups: if native.groups.contains_key(scope.group) {
                        Map::<u64, super::native::StoredModel>::empty().insert(
                            scope.group,
                            native.groups[scope.group],
                        )
                    } else {
                        Map::empty()
                    },
                    ..native
                },
            ),
            native_bytes: (self.native_bytes + plan.ledger + plan.factor) as usize,
            selectors: self.selectors_of(scope.epoch, scope.sessions),
            ..LiveModel::empty(self.limits)
        }
    }

    /// The selectors of some sessions of an interval.
    pub open spec fn selectors_of(self, epoch: Epoch, sessions: Seq<u64>) -> Map<
        SelectorKey,
        SelectionModel,
    > {
        Map::new(
            |key: SelectorKey|
                key.epoch == epoch && sessions.contains(key.session)
                    && self.selectors.contains_key(key),
            |key: SelectorKey| self.selectors[key],
        )
    }

    /// The state with an owner's qualification set.
    pub open spec fn marked(self, key: OwnerKey, status: Status) -> LiveModel {
        self.with_owner(key, OwnerModel { status, ..self.core.owners[key] })
    }
}

/// What [`Stage`] holds. `original` is the state as it would be without the
/// stage's own disqualifying mark.
#[verifier::ext_equal]
pub struct StageModel {
    /// The state that the stage was taken from.
    pub original: LiveModel,
    /// The private copy.
    pub staged: LiveModel,
    /// Owner interval.
    pub epoch: Epoch,
    /// Group, or zero.
    pub group: u64,
    /// Final caller sequence.
    pub last_sequence: u64,
    /// Declared sessions.
    pub sessions: Seq<u64>,
    /// Compared evaluations.
    pub evaluations: nat,
    /// Compared mutations.
    pub batches: nat,
    /// Incoming frame.
    pub frame_bytes: usize,
    /// Retained bytes of the original.
    pub retained: usize,
    /// Bytes of the copied ledger part and selectors.
    pub ledger_clone: usize,
    /// Bytes of the copied factor history.
    pub original_factor: usize,
    /// Bytes of the selectors that the stage created.
    pub grown: usize,
    /// Router metadata to be committed.
    pub metadata: Option<TrackerModel>,
    /// Why the whole transaction is poisoned, if it is.
    pub failed: Option<InvalidReason>,
}

/// Why an event leaves a scope, if it does.
pub open spec fn escape(event: LiveEvent, group: u64, sessions: Seq<u64>) -> Option<InvalidReason> {
    if event.session_of() is Some && !sessions.contains(event.session_of()->0) {
        Some(InvalidReason::Identity)
    } else {
        match event {
            LiveEvent::Lifecycle { event, .. } => match event {
                Event::Begin
                | Event::End
                | Event::Retire
                | Event::Policy(_)
                | Event::Account { .. }
                | Event::RemoveAccount(_) => Some(InvalidReason::Lifecycle),
                _ => None,
            },
            LiveEvent::GroupCreated(_) | LiveEvent::GroupRemoved(_) => Some(
                InvalidReason::Lifecycle,
            ),
            LiveEvent::RouteRejected { session, group: at } => if at != group
                || !sessions.contains(session) {
                Some(InvalidReason::Identity)
            } else {
                None
            },
            _ => None,
        }
    }
}

/// Why the first events leave a scope, if they do.
pub open spec fn escapes(events: Seq<LiveEvent>, group: u64, sessions: Seq<u64>, count: int) -> Option<
    InvalidReason,
>
    decreases count,
{
    if count <= 0 {
        None
    } else {
        match escapes(events, group, sessions, count - 1) {
            Some(reason) => Some(reason),
            None => escape(events[count - 1], group, sessions),
        }
    }
}

/// The result that a qualification stands for.
pub open spec fn checked(status: Status) -> Result<(), InvalidReason> {
    match status {
        Status::Comparing => Ok(()),
        Status::Invalid(reason) => Err(reason),
        _ => Err(InvalidReason::Lifecycle),
    }
}

impl StageModel {
    /// The owner of the stage.
    pub open spec fn key(self) -> OwnerKey {
        self.epoch.key()
    }

    /// The ledger that the stage was taken from.
    pub open spec fn whole(self) -> crate::shadow::ledger::MirrorModel {
        self.original.core.owners[self.key()].ledger
    }

    /// The private part of the ledger.
    pub open spec fn part(self) -> crate::shadow::ledger::MirrorModel {
        self.staged.core.owners[self.key()].ledger
    }

    /// The private part still stands for the original ledger and holds only
    /// accounts of its group, and both states know the owner and its prelude.
    pub open spec fn sound(self) -> bool {
        &&& self.original.accounted()
        &&& self.original.core.owners.contains_key(self.key())
        &&& self.original.core.owners[self.key()].epoch == self.epoch
        &&& self.original.core.owners[self.key()].status is Comparing
        &&& self.original.native.contains_key(self.epoch)
        &&& self.original.native_bytes == self.retained
        &&& self.staged.core.enabled
        &&& self.staged.core.owners.contains_key(self.key())
        &&& self.staged.native.contains_key(self.epoch)
        &&& self.staged.native[self.epoch].coverage == self.original.native[self.epoch].coverage
        &&& fork::stands_for(self.whole(), self.part(), self.sessions)
        &&& forall|id: u64| #[trigger]
            self.part().accounts.contains_key(id) ==> self.whole().in_group(self.group, id)
    }

    /// The stage with its first failure remembered.
    pub open spec fn remembered(self, result: Result<(), InvalidReason>) -> StageModel {
        match (self.failed, result) {
            (None, Err(reason)) => StageModel { failed: Some(reason), ..self },
            _ => self,
        }
    }

    /// Bytes of the staged factor history.
    pub open spec fn factor_charge(self) -> usize {
        self.staged.native[self.epoch].charge_of(self.group)
    }

    /// The stage after a tuple was recorded with the original.
    pub open spec fn recorded(self, budget: Budget) -> StageModel {
        StageModel { original: self.original.recorded(budget), ..self }
    }

    /// The stage after a child evaluation was compared, and its decision.
    pub open spec fn evaluated(self, e: Evaluation, c: Computation) -> (
        StageModel,
        Result<DecisionModel, InvalidReason>,
    ) {
        let clones = 2 * self.factor_charge() + self.ledger_clone;
        if self.evaluations >= 4 {
            (self, Err(InvalidReason::Capacity))
        } else if e.epoch != self.epoch || self.group == 0 || e.group != self.group {
            (self, Err(InvalidReason::Identity))
        } else if clones > usize::MAX || !affordable(
            self.frame_bytes as nat,
            self.retained as nat,
            clones as nat,
        ) {
            (self, Err(InvalidReason::Capacity))
        } else {
            let budget = Budget::of(self.frame_bytes as nat, self.retained as nat, clones as nat);
            let (staged, decision) = self.staged.observe_native(e, c, budget.decode);
            let next = StageModel { staged, ..self.recorded(budget) };
            match (checked(staged.progress(e.epoch).status), decision) {
                (Err(reason), _) => (next, Err(reason)),
                (Ok(_), Some(decision)) => (
                    StageModel { evaluations: self.evaluations + 1, ..next },
                    Ok(decision),
                ),
                (Ok(_), None) => (
                    StageModel { evaluations: self.evaluations + 1, ..next },
                    Err(InvalidReason::Witness),
                ),
            }
        }
    }

    /// The stage after a child evaluation, whose failure poisons it.
    pub open spec fn evaluation(self, e: Evaluation, c: Computation) -> (
        StageModel,
        Result<DecisionModel, InvalidReason>,
    ) {
        match self.failed {
            Some(reason) => (self, Err(reason)),
            None => match self.evaluated(e, c) {
                (next, Ok(decision)) => (next, Ok(decision)),
                (next, Err(reason)) => (next.remembered(Err(reason)), Err(reason)),
            },
        }
    }

    /// The stage after a child mutation was compared.
    pub open spec fn applied(self, batch: Batch) -> (StageModel, Result<(), InvalidReason>) {
        if self.batches >= 64 {
            (self, Err(InvalidReason::Capacity))
        } else if batch.epoch != self.epoch {
            (self, Err(InvalidReason::Identity))
        } else if let Some(reason) = escapes(
            batch.events@,
            self.group,
            self.sessions,
            batch.events@.len() as int,
        ) {
            (self, Err(reason))
        } else {
            let staged = self.staged.observe(batch);
            let next = StageModel { staged, ..self };
            match checked(staged.progress(batch.epoch).status) {
                Ok(_) => (StageModel { batches: self.batches + 1, ..next }, Ok(())),
                Err(reason) => (next, Err(reason)),
            }
        }
    }

    /// The stage after a child mutation, whose failure poisons it.
    pub open spec fn batch(self, batch: Batch) -> (StageModel, Result<(), InvalidReason>) {
        match self.failed {
            Some(reason) => (self, Err(reason)),
            None => match self.applied(batch) {
                (next, Ok(_)) => (next, Ok(())),
                (next, Err(reason)) => (next.remembered(Err(reason)), Err(reason)),
            },
        }
    }

    /// The retained bytes after a commit, if they can be.
    pub open spec fn commit_bytes(self) -> Option<usize> {
        let plain = self.retained - self.original_factor + self.factor_charge() + self.grown;
        if self.original_factor > self.retained || plain > usize::MAX {
            None
        } else {
            match self.metadata {
                None => Some(plain as usize),
                Some(tracker) => {
                    let old = match self.original.retained_metadata(self.epoch) {
                        Some(old) => metadata::stored::stored_bytes(old),
                        None => 0,
                    };
                    let total = plain - old + metadata::stored::stored_bytes(tracker);
                    if old > plain || total > HISTORY_LIMIT {
                        None
                    } else {
                        Some(total as usize)
                    }
                },
            }
        }
    }

    /// Why the stage cannot be committed, if it cannot.
    pub open spec fn commit_refusal(self) -> Option<InvalidReason> {
        if self.staged.core.owners[self.key()].sequence + 1 != self.last_sequence {
            Some(InvalidReason::Sequence)
        } else if self.commit_bytes() is None {
            Some(InvalidReason::Capacity)
        } else {
            None
        }
    }

    /// The original after the stage was committed.
    pub open spec fn committed(self) -> LiveModel {
        let key = self.key();
        let owner = self.original.core.owners[key];
        let native = self.original.native[self.epoch];
        let groups = self.staged.native[self.epoch].groups;
        LiveModel {
            native: if groups.contains_key(self.group) {
                self.original.native.insert(
                    self.epoch,
                    native.with_group(self.group, groups[self.group]),
                )
            } else {
                self.original.native
            },
            native_bytes: self.commit_bytes()->0,
            selectors: self.original.selectors.union_prefer_right(self.staged.selectors),
            metadata: match self.metadata {
                Some(tracker) => self.original.metadata.insert(self.epoch, tracker),
                None => self.original.metadata,
            },
            ..self.original.with_owner(
                key,
                OwnerModel {
                    ledger: owner.ledger.merged(self.part()),
                    sequence: self.last_sequence,
                    ..owner
                },
            )
        }
    }

    /// Why a stage with this final comparison is discarded, if it is.
    pub open spec fn verdict(self, result: Result<(), InvalidReason>) -> Option<InvalidReason> {
        match (self.failed, result) {
            (Some(reason), _) => Some(reason),
            (None, Err(reason)) => Some(reason),
            (None, Ok(_)) => self.commit_refusal(),
        }
    }

    /// The original after the stage was finished.
    pub open spec fn finished(self, result: Result<(), InvalidReason>) -> LiveModel {
        match self.verdict(result) {
            Some(reason) => self.original.marked(self.key(), Status::Invalid(reason)),
            None => self.committed(),
        }
    }
}

impl LiveModel {
    /// The retained router metadata of an interval.
    pub open spec fn retained_metadata(self, epoch: Epoch) -> Option<TrackerModel> {
        if self.metadata.contains_key(epoch) {
            Some(self.metadata[epoch])
        } else {
            None
        }
    }
}

impl LiveModel {
    /// Whether a scope's ledger copy may be charged like this.
    pub open spec fn may_copy(self, scope: ScopeModel, copy: Result<usize, InvalidReason>) -> bool {
        self.scope_refusal(scope) is None ==> self.core.owners[scope.epoch.key()].ledger.may_charge(
            scope.group,
            scope.sessions,
            copy,
        )
    }

    /// The stage of an admitted scope.
    pub open spec fn staged(self, scope: ScopeModel, plan: Plan) -> StageModel {
        StageModel {
            original: self.recorded(plan.budget),
            staged: self.affected(scope, plan),
            epoch: scope.epoch,
            group: scope.group,
            last_sequence: plan.last,
            sessions: scope.sessions,
            evaluations: 0,
            batches: 0,
            frame_bytes: scope.frame_bytes,
            retained: self.native_bytes,
            ledger_clone: plan.ledger,
            original_factor: plan.factor,
            grown: 0,
            metadata: None,
            failed: None,
        }
    }
}

impl LiveModel {
    /// The state after a malformed capture, and its result.
    pub open spec fn malformed(self, epoch: Epoch, reason: InvalidReason) -> (LiveModel, Progress) {
        let next = self.invalidated(epoch, reason);
        (next, next.progress(epoch))
    }

    /// The state after a scope could not be entered, and its result.
    pub open spec fn unentered(self, epoch: Epoch, reason: InvalidReason) -> (LiveModel, Progress) {
        (
            self.invalidated(epoch, reason),
            Progress {
                status: Status::Invalid(reason),
                compared_sequence: self.progress(epoch).compared_sequence,
                transition: None,
            },
        )
    }
}

/// A result without its value.
pub open spec fn verdict_of<T>(result: Result<T, InvalidReason>) -> Result<(), InvalidReason> {
    match result {
        Ok(_) => Ok(()),
        Err(reason) => Err(reason),
    }
}

impl StageModel {
    /// The original after the stage was finished, and its result.
    pub open spec fn concluded(self, result: Result<(), InvalidReason>) -> (LiveModel, Progress) {
        (self.finished(result), self.finished(result).progress(self.epoch))
    }

    /// The same for a comparison that derived a value, which is exposed only
    /// where the whole stage was committed.
    pub open spec fn resolved<T>(self, result: Result<T, InvalidReason>) -> (
        LiveModel,
        Progress,
        Option<T>,
    ) {
        let (next, progress) = self.concluded(verdict_of(result));
        (
            next,
            progress,
            match (progress.status, result) {
                (Status::Comparing, Ok(value)) => Some(value),
                _ => None,
            },
        )
    }
}

/// One privately staged Group and bounded session/account subset. While it
/// exists its owner is marked invalid, so that an unfinished transaction leaves
/// the owner disqualified with its original history and compared prefix. It
/// holds no production lock or effect handle.
pub struct Stage<'a> {
    /// The state that the stage was taken from.
    pub original: &'a mut LiveState,
    /// The private copy.
    pub staged: LiveState,
    /// Owner interval.
    pub epoch: Epoch,
    /// Group, or zero.
    pub group: u64,
    /// Final caller sequence.
    pub last_sequence: u64,
    /// Declared sessions.
    pub sessions: Vec<u64>,
    /// Compared evaluations.
    pub evaluations: usize,
    /// Compared mutations.
    pub batches: usize,
    /// Incoming frame.
    pub frame_bytes: usize,
    /// Retained bytes of the original.
    pub retained: usize,
    /// Bytes of the copied ledger part and selectors.
    pub ledger_clone: usize,
    /// Bytes of the copied factor history.
    pub original_factor: usize,
    /// Bytes of the selectors that the stage created.
    pub grown: usize,
    /// Router metadata to be committed.
    pub metadata: Option<StoredMetadata>,
    /// Why the whole transaction is poisoned, if it is.
    pub failed: Option<InvalidReason>,
}

/// The mark of an owner whose stage has failed like this so far.
pub open spec fn mark(failed: Option<InvalidReason>) -> Status {
    match failed {
        Some(reason) => Status::Invalid(reason),
        None => Status::Invalid(InvalidReason::Lifecycle),
    }
}

impl<'a> Stage<'a> {
    /// What the stage holds.
    pub open spec fn model(&self) -> StageModel {
        StageModel {
            original: self.original.model().marked(self.epoch.key(), Status::Comparing),
            staged: self.staged.model(),
            epoch: self.epoch,
            group: self.group,
            last_sequence: self.last_sequence,
            sessions: self.sessions@,
            evaluations: self.evaluations as nat,
            batches: self.batches as nat,
            frame_bytes: self.frame_bytes,
            retained: self.retained,
            ledger_clone: self.ledger_clone,
            original_factor: self.original_factor,
            grown: self.grown,
            metadata: match self.metadata {
                Some(stored) => Some(stored@),
                None => None,
            },
            failed: self.failed,
        }
    }

    /// The stage is sound, and the original carries its mark.
    pub open spec fn wf(&self) -> bool {
        &&& self.original.wf()
        &&& self.staged.wf()
        &&& self.metadata matches Some(stored) ==> stored.wf()
        &&& self.original.model().core.owners.contains_key(self.epoch.key())
        &&& self.original.model().core.owners[self.epoch.key()].status == mark(self.failed)
        &&& self.model().sound()
        &&& self.evaluations <= 4
        &&& self.batches <= 64
    }
}

impl LiveState {
    /// Highest admitted caller D/R/C/S tuple, recorded at one actual boundary.
    pub fn caller_peak_budget(&self) -> (r: Option<Budget>)
        ensures
            r == self.model().caller_peak,
    {
        self.caller_peak
    }

    fn record_caller_budget(&mut self, budget: Budget)
        requires
            old(self).wf(),
        ensures
            final(self).wf(),
            final(self).model() == old(self).model().recorded(budget),
    {
        if budget.peak > self.native_peak {
            self.native_peak = budget.peak;
        }
        match self.caller_peak {
            Some(old) => {
                if budget.peak > old.peak {
                    self.caller_peak = Some(budget);
                }
            },
            None => {
                self.caller_peak = Some(budget);
            },
        }
    }

    fn set_status(&mut self, key: OwnerKey, status: Status)
        requires
            old(self).wf(),
            old(self).model().core.owners.contains_key(key),
        ensures
            final(self).wf(),
            final(self).model() == old(self).model().marked(key, status),
    {
        let ghost before = self.model();
        if let Some(owner) = self.core.owner_mut(key) {
            owner.status = status;
        }
        proof {
            assert(self.model().core.owners =~= before.marked(key, status).core.owners);
            assert(self.model() =~= before.marked(key, status));
        }
    }

    fn count_selectors(&self, epoch: Epoch, sessions: &[u64]) -> (r: usize)
        requires
            self.wf(),
        ensures
            r == known_selectors(self.model().selectors, epoch, sessions@, sessions@.len() as int),
    {
        let mut count: usize = 0;
        let mut index: usize = 0;
        while index < sessions.len()
            invariant
                self.wf(),
                index <= sessions@.len(),
                count <= index,
                count == known_selectors(self.model().selectors, epoch, sessions@, index as int),
            decreases sessions@.len() - index,
        {
            if self.selectors.contains_key(SelectorKey { epoch, session: sessions[index] }) {
                count = count + 1;
            }
            index = index + 1;
        }
        count
    }

    fn copy_selectors(&self, epoch: Epoch, sessions: &[u64]) -> (r: OrderedMap<
        SelectorKey,
        StoredSelection,
    >)
        requires
            self.wf(),
        ensures
            r.wf(),
            forall|key: SelectorKey| #[trigger] r.raw().contains_key(key) ==> r.raw()[key].wf(),
            r@ == self.model().selectors_of(epoch, sessions@),
    {
        let mut copied: OrderedMap<SelectorKey, StoredSelection> = OrderedMap::new();
        let mut index: usize = 0;
        while index < sessions.len()
            invariant
                self.wf(),
                copied.wf(),
                forall|key: SelectorKey| #[trigger]
                    copied.raw().contains_key(key) ==> copied.raw()[key].wf(),
                index <= sessions@.len(),
                copied@ =~= self.model().selectors_of(epoch, sessions@.take(index as int)),
            decreases sessions@.len() - index,
        {
            let session = sessions[index];
            let key = SelectorKey { epoch, session };
            let ghost was = copied@;
            if let Some(stored) = self.selectors.get(key) {
                copied.insert(key, stored.duplicate());
            }
            proof {
                let before = sessions@.take(index as int);
                let after = sessions@.take(index + 1);
                assert(after =~= before.push(session));
                assert forall|id: u64| after.contains(id) <==> before.contains(id) || id
                    == session by {
                    if before.contains(id) {
                        let at = before.index_of(id);
                        assert(after[at] == id);
                    }
                    if id == session {
                        assert(after[index as int] == id);
                    }
                }
                assert(copied@ =~= self.model().selectors_of(epoch, after));
            }
            index = index + 1;
        }
        assert(sessions@.take(index as int) =~= sessions@);
        copied
    }

    fn refuse_scope(&self, scope: Scope<'_>) -> (r: Option<InvalidReason>)
        requires
            self.wf(),
        ensures
            r == self.model().scope_refusal(scope@),
    {
        let key = scope.epoch.owner_key();
        let owner = match self.core.owner(key) {
            Some(owner) => owner,
            None => return Some(InvalidReason::MissingBegin),
        };
        if owner.epoch != scope.epoch || self.core.fatal().is_some() {
            return Some(InvalidReason::Identity);
        }
        if owner.status != Status::Comparing {
            return Some(InvalidReason::Lifecycle);
        }
        if owner.sequence.checked_add(1) != Some(scope.sequence) || scope.span == 0 || scope.span
            > 261 {
            return Some(InvalidReason::Sequence);
        }
        if scope.sequence.checked_add(scope.span - 1).is_none() {
            return Some(InvalidReason::Sequence);
        }
        if scope.group != 0 && !self.group_lives(key, scope.group) {
            return Some(InvalidReason::Identity);
        }
        if !self.native.contains_key(scope.epoch) {
            return Some(InvalidReason::MissingBegin);
        }
        None
    }

    fn caller_plan(&self, scope: Scope<'_>) -> (r: Result<Plan, InvalidReason>)
        requires
            self.wf(),
        ensures
            exists|copy: Result<usize, InvalidReason>| #[trigger]
                self.model().may_copy(scope@, copy) && r == self.model().plan(scope@, copy),
    {
        if let Some(reason) = self.refuse_scope(scope) {
            proof {
                let copy: Result<usize, InvalidReason> = Err(reason);
                assert(self.model().may_copy(scope@, copy));
            }
            return Err(reason);
        }
        let copy = match self.core.owner(scope.epoch.owner_key()) {
            Some(owner) => owner.ledger.caller_clone_charge(scope.group, scope.sessions),
            None => Err(InvalidReason::MissingBegin),
        };
        assert(self.model().may_copy(scope@, copy));
        let copied = match copy {
            Ok(copied) => copied,
            Err(reason) => return Err(reason),
        };
        let selectors = charge::times(
            self.count_selectors(scope.epoch, scope.sessions),
            StoredSelection::charge(),
        );
        let factor = match self.native.get(scope.epoch) {
            Some(owner) => owner.charge_of(scope.group),
            None => 0,
        };
        let ledger = match copied.checked_add(selectors) {
            Some(ledger) => ledger,
            None => return Err(InvalidReason::Capacity),
        };
        let clones = match ledger.checked_add(factor) {
            Some(clones) => clones,
            None => return Err(InvalidReason::Capacity),
        };
        let budget = Budget::new(scope.frame_bytes, self.native_bytes, clones)?;
        Ok(Plan { ledger, factor, last: scope.sequence + (scope.span - 1), budget })
    }

    fn affected(&self, scope: Scope<'_>, plan: Plan) -> (r: LiveState)
        requires
            self.wf(),
            self.model().core.owners.contains_key(scope.epoch.key()),
            self.model().native.contains_key(scope.epoch),
            self.native_bytes + plan.ledger + plan.factor <= usize::MAX,
        ensures
            r.wf(),
            r.model() == self.model().affected(scope@, plan),
    {
        let key = scope.epoch.owner_key();
        let mut staged = LiveState::new(self.limits);
        if let Some(owner) = self.core.owner(key) {
            staged.core.adopt(
                key,
                Owner {
                    epoch: owner.epoch,
                    local_identity: owner.local_identity,
                    sequence: owner.sequence,
                    status: owner.status,
                    ledger: owner.ledger.fork_caller(scope.group, scope.sessions),
                },
            );
        }
        if scope.group != 0 {
            staged.set_group(key, scope.group, true);
        }
        if let Some(owner) = self.native.get(scope.epoch) {
            staged.native.insert(scope.epoch, owner.fork(scope.group));
        }
        staged.selectors = self.copy_selectors(scope.epoch, scope.sessions);
        staged.native_bytes = self.native_bytes + plan.ledger + plan.factor;
        proof {
            let expected = self.model().affected(scope@, plan);
            assert(staged.model().core.owners =~= expected.core.owners);
            assert(staged.model().core =~= expected.core);
            assert(staged.model().groups =~~= expected.groups);
            assert(staged.model().native =~~= expected.native);
            assert(staged.model() =~= expected);
        }
        staged
    }

    /// Reserve affected-view copies before allocating them. No child can commit
    /// to the original state before the caller comparator finishes this stage.
    /// This preparation API does not install selection/scheduler observation.
    ///
    /// # Errors
    /// Invalidates on identity, sequence, population or shared-budget failure.
    pub fn begin_caller<'a>(&'a mut self, scope: Scope<'_>) -> (r: Result<Stage<'a>, InvalidReason>)
        requires
            old(self).wf(),
            old(self).model().accounted(),
        ensures
            exists|copy: Result<usize, InvalidReason>| #[trigger]
                old(self).model().may_copy(scope@, copy) && match old(self).model().plan(
                    scope@,
                    copy,
                ) {
                    Ok(plan) => r is Ok && r->Ok_0.model() == old(self).model().staged(scope@, plan),
                    Err(reason) => r is Err && r->Err_0 == reason && final(self).model() == old(
                        self,
                    ).model().invalidated(scope.epoch, reason),
                },
            r matches Ok(stage) ==> stage.wf() && *final(stage.original) == *final(self),
            r is Err ==> final(self).wf() && final(self).model().accounted(),
    {
        let ghost before = self.model();
        let plan = match self.caller_plan(scope) {
            Ok(plan) => plan,
            Err(reason) => {
                self.invalidate(scope.epoch, reason);
                return Err(reason);
            },
        };
        let key = scope.epoch.owner_key();
        let staged = self.affected(scope, plan);
        let retained = self.native_bytes;
        self.record_caller_budget(plan.budget);
        self.set_status(key, Status::Invalid(InvalidReason::Lifecycle));
        let sessions = vstd::slice::slice_to_vec(scope.sessions);
        let ghost after = self.model();
        let stage = Stage {
            original: self,
            staged,
            epoch: scope.epoch,
            group: scope.group,
            last_sequence: plan.last,
            sessions,
            evaluations: 0,
            batches: 0,
            frame_bytes: scope.frame_bytes,
            retained,
            ledger_clone: plan.ledger,
            original_factor: plan.factor,
            grown: 0,
            metadata: None,
            failed: None,
        };
        proof {
            let expected = before.staged(scope@, plan);
            assert(after.marked(key, Status::Comparing).core.owners =~= expected.original.core.owners);
            assert(after.marked(key, Status::Comparing) =~= expected.original);
            assert(stage.model() =~= expected);
            assert(expected.staged == before.affected(scope@, plan));
            laws::lemma_fresh_sound(before, scope@, expected);
        }
        Ok(stage)
    }
}

fn checked_progress(progress: Progress) -> (r: Result<(), InvalidReason>)
    ensures
        r == checked(progress.status),
{
    match progress.status {
        Status::Comparing => Ok(()),
        Status::Invalid(reason) => Err(reason),
        _ => Err(InvalidReason::Lifecycle),
    }
}

fn leaves(event: LiveEvent, group: u64, sessions: &Vec<u64>) -> (r: Option<InvalidReason>)
    ensures
        r == escape(event, group, sessions@),
{
    if let Some(id) = event.session() {
        if !slices::holds(sessions.as_slice(), id) {
            return Some(InvalidReason::Identity);
        }
    }
    match event {
        LiveEvent::Lifecycle { event, .. } => match event {
            Event::Begin
            | Event::End
            | Event::Retire
            | Event::Policy(_)
            | Event::Account { .. }
            | Event::RemoveAccount(_) => Some(InvalidReason::Lifecycle),
            _ => None,
        },
        LiveEvent::GroupCreated(_) | LiveEvent::GroupRemoved(_) => Some(InvalidReason::Lifecycle),
        LiveEvent::RouteRejected { session, group: at } => if at != group || !slices::holds(
            sessions.as_slice(),
            session,
        ) {
            Some(InvalidReason::Identity)
        } else {
            None
        },
        _ => None,
    }
}

fn leave(events: &Vec<LiveEvent>, group: u64, sessions: &Vec<u64>) -> (r: Option<InvalidReason>)
    ensures
        r == escapes(events@, group, sessions@, events@.len() as int),
{
    let mut index: usize = 0;
    while index < events.len()
        invariant
            index <= events@.len(),
            escapes(events@, group, sessions@, index as int) is None,
        decreases events@.len() - index,
    {
        let refusal = leaves(events[index], group, sessions);
        if refusal.is_some() {
            proof {
                assert(escapes(events@, group, sessions@, index + 1) == refusal);
                laws::lemma_escape_stays(
                    events@,
                    group,
                    sessions@,
                    index + 1,
                    events@.len() as int,
                );
            }
            return refusal;
        }
        index = index + 1;
    }
    None
}

impl<'a> Stage<'a> {
    fn check(&self) -> (r: Result<(), InvalidReason>)
        ensures
            r == (match self.model().failed {
                Some(reason) => Err::<(), InvalidReason>(reason),
                None => Ok(()),
            }),
    {
        match self.failed {
            Some(reason) => Err(reason),
            None => Ok(()),
        }
    }

    /// Remember the first failure and mark the original with it.
    fn remember(&mut self, reason: InvalidReason)
        requires
            old(self).wf(),
        ensures
            final(self).wf(),
            final(self).model() == old(self).model().remembered(Err(reason)),
            *final(final(self).original) == *final(old(self).original),
    {
        let ghost before = self.model();
        if self.failed.is_none() {
            self.failed = Some(reason);
            self.original.set_status(self.epoch.owner_key(), Status::Invalid(reason));
            proof {
                let key = self.epoch.key();
                assert(self.model().original.core.owners =~= before.original.core.owners);
                assert(self.model().original =~= before.original);
                assert(self.model() =~= before.remembered(Err(reason)));
            }
        }
    }

    /// Record an admitted tuple with the original.
    fn record(&mut self, budget: Budget)
        requires
            old(self).wf(),
        ensures
            final(self).wf(),
            final(self).model() == old(self).model().recorded(budget),
            *final(final(self).original) == *final(old(self).original),
    {
        let ghost before = self.model();
        self.original.record_caller_budget(budget);
        proof {
            assert(self.model() =~= before.recorded(budget));
            assert(self.model().sound());
        }
    }

    fn factor_charge(&self) -> (r: usize)
        requires
            self.wf(),
        ensures
            r == self.model().factor_charge(),
    {
        match self.staged.native.get(self.epoch) {
            Some(owner) => owner.charge_of(self.group),
            None => 0,
        }
    }

    /// Independently compare a child against this private ledger/factor stage.
    /// Extra per-child factor cloning is charged simultaneously with the parent
    /// stage and original history; it cannot borrow the parent's charge twice.
    ///
    /// # Errors
    /// A failed child permanently poisons the entire transaction.
    pub fn evaluation(&mut self, e: &Evaluation, c: &Computation) -> (r: Result<
        Decision,
        InvalidReason,
    >)
        requires
            old(self).wf(),
        ensures
            final(self).wf(),
            final(self).model() == old(self).model().evaluation(*e, *c).0,
            match old(self).model().evaluation(*e, *c).1 {
                Ok(decision) => r is Ok && r->Ok_0@ == decision,
                Err(reason) => r is Err && r->Err_0 == reason,
            },
            *final(final(self).original) == *final(old(self).original),
    {
        self.check()?;
        match self.evaluation_inner(e, c) {
            Ok(decision) => Ok(decision),
            Err(reason) => {
                self.remember(reason);
                Err(reason)
            },
        }
    }

    fn evaluation_inner(&mut self, e: &Evaluation, c: &Computation) -> (r: Result<
        Decision,
        InvalidReason,
    >)
        requires
            old(self).wf(),
            old(self).model().failed is None,
        ensures
            final(self).wf(),
            final(self).model() == old(self).model().evaluated(*e, *c).0,
            match old(self).model().evaluated(*e, *c).1 {
                Ok(decision) => r is Ok && r->Ok_0@ == decision,
                Err(reason) => r is Err && r->Err_0 == reason,
            },
            *final(final(self).original) == *final(old(self).original),
    {
        proof {
            laws::lemma_evaluation_sound(self.model(), *e, *c);
        }
        let ghost before = self.model();
        if self.evaluations >= 4 {
            return Err(InvalidReason::Capacity);
        }
        if e.epoch != self.epoch || self.group == 0 || e.group != self.group {
            return Err(InvalidReason::Identity);
        }
        let factor = self.factor_charge();
        let clones = match factor.checked_add(factor) {
            Some(twice) => match twice.checked_add(self.ledger_clone) {
                Some(clones) => clones,
                None => return Err(InvalidReason::Capacity),
            },
            None => return Err(InvalidReason::Capacity),
        };
        let budget = match Budget::new(self.frame_bytes, self.retained, clones) {
            Ok(budget) => budget,
            Err(reason) => return Err(reason),
        };
        self.record(budget);
        let (progress, decision) = self.staged.observe_native_decision(e, c, budget.decode);
        let ghost expected = before.evaluated(*e, *c).0;
        if let Err(reason) = checked_progress(progress) {
            proof {
                assert(self.model() =~= expected);
                assert(expected.remembered(Err(reason)).sound());
                assert(self.model().sound());
            }
            return Err(reason);
        }
        self.evaluations = self.evaluations + 1;
        proof {
            assert(self.model() =~= expected);
            assert(self.model().sound());
        }
        match decision {
            Some(decision) => Ok(decision),
            None => Err(InvalidReason::Witness),
        }
    }

    /// Apply a complete compound lifecycle child in its actual mutation order.
    /// Only declared sessions and the independently known Group accounts exist
    /// in the fork. Owner/account incarnation and router metadata events remain
    /// outside this per-Group transaction preparation API.
    ///
    /// # Errors
    /// Rejects escaping scope, malformed witnesses, population loss or too many
    /// batches.
    pub fn batch(&mut self, batch: &Batch) -> (r: Result<(), InvalidReason>)
        requires
            old(self).wf(),
        ensures
            final(self).wf(),
            (final(self).model(), r) == old(self).model().batch(*batch),
            *final(final(self).original) == *final(old(self).original),
    {
        self.check()?;
        match self.batch_inner(batch) {
            Ok(_) => Ok(()),
            Err(reason) => {
                self.remember(reason);
                Err(reason)
            },
        }
    }

    fn batch_inner(&mut self, batch: &Batch) -> (r: Result<(), InvalidReason>)
        requires
            old(self).wf(),
            old(self).model().failed is None,
        ensures
            final(self).wf(),
            (final(self).model(), r) == old(self).model().applied(*batch),
            *final(final(self).original) == *final(old(self).original),
    {
        proof {
            laws::lemma_batch_sound(self.model(), *batch);
        }
        let ghost before = self.model();
        if self.batches >= 64 {
            return Err(InvalidReason::Capacity);
        }
        if batch.epoch != self.epoch {
            return Err(InvalidReason::Identity);
        }
        if let Some(reason) = leave(&batch.events, self.group, &self.sessions) {
            return Err(reason);
        }
        let progress = self.staged.observe(batch);
        let ghost expected = before.applied(*batch).0;
        if let Err(reason) = checked_progress(progress) {
            proof {
                assert(self.model() =~= expected);
                assert(expected.remembered(Err(reason)).sound());
                assert(self.model().sound());
            }
            return Err(reason);
        }
        self.batches = self.batches + 1;
        proof {
            assert(self.model() =~= expected);
            assert(self.model().sound());
        }
        Ok(())
    }

    fn commit_charge(&self) -> (r: Option<usize>)
        requires
            self.wf(),
        ensures
            r == self.model().commit_bytes(),
    {
        let current = self.factor_charge();
        if self.original_factor > self.retained {
            return None;
        }
        let plain = match (self.retained - self.original_factor).checked_add(current) {
            Some(sum) => match sum.checked_add(self.grown) {
                Some(plain) => plain,
                None => return None,
            },
            None => return None,
        };
        match &self.metadata {
            None => Some(plain),
            Some(stored) => {
                let old = match self.original.metadata.get(self.epoch) {
                    Some(old) => old.retained_charge(),
                    None => 0,
                };
                if old > plain {
                    return None;
                }
                match (plain - old).checked_add(stored.retained_charge()) {
                    Some(total) => if total > HISTORY_LIMIT {
                        None
                    } else {
                        Some(total)
                    },
                    None => None,
                }
            },
        }
    }

    /// Commit only after the typed caller comparator supplies its independent
    /// result. Passing child checks alone is insufficient. Until that comparator
    /// and actual hooks are installed, this API grants no caller capability.
    pub fn finish(self, caller_result: Result<(), InvalidReason>) -> (r: Progress)
        requires
            self.wf(),
        ensures
            final(self.original).wf(),
            final(self.original).model() == self.model().finished(caller_result),
            final(self.original).model().accounted(),
            r == final(self.original).model().progress(self.epoch),
            laws::outside_kept(self.model(), final(self.original).model()),
    {
        proof {
            laws::law_finish_keeps_accounting(self.model(), caller_result);
            laws::law_finish_keeps_the_outside(self.model(), caller_result);
        }
        let ghost before = self.model();
        let key = self.epoch.owner_key();
        let epoch = self.epoch;
        let sequence = match self.staged.core.owner(key) {
            Some(owner) => owner.sequence,
            None => 0,
        };
        let bytes = self.commit_charge();
        let refusal = match self.failed {
            Some(reason) => Some(reason),
            None => match caller_result {
                Err(reason) => Some(reason),
                Ok(_) => if sequence.checked_add(1) != Some(self.last_sequence) {
                    Some(InvalidReason::Sequence)
                } else if bytes.is_none() {
                    Some(InvalidReason::Capacity)
                } else {
                    None
                },
            },
        };
        assert(refusal == before.verdict(caller_result));
        let original = self.original;
        match (refusal, bytes) {
            (None, Some(bytes)) => {
                let mut staged = self.staged;
                original.commit_stage(
                    &mut staged,
                    epoch,
                    self.group,
                    self.last_sequence,
                    bytes,
                    self.metadata,
                    Ghost(before),
                );
            },
            (Some(reason), _) => {
                original.set_status(key, Status::Invalid(reason));
                proof {
                    let expected = before.original.marked(key, Status::Invalid(reason));
                    assert(original.model().core.owners =~= expected.core.owners);
                    assert(original.model() =~= expected);
                }
            },
            _ => {},
        }
        original.progress(epoch)
    }
}

impl LiveState {
    /// Move a staged part into the state that it was taken from.
    fn commit_stage(
        &mut self,
        staged: &mut LiveState,
        epoch: Epoch,
        group: u64,
        last_sequence: u64,
        bytes: usize,
        metadata: Option<StoredMetadata>,
        Ghost(stage): Ghost<StageModel>,
    )
        requires
            old(self).wf(),
            old(staged).wf(),
            stage.sound(),
            metadata matches Some(stored) ==> stored.wf(),
            stage.epoch == epoch,
            stage.group == group,
            stage.last_sequence == last_sequence,
            stage.commit_bytes() == Some(bytes),
            stage.original == old(self).model().marked(epoch.key(), Status::Comparing),
            old(self).model().core.owners.contains_key(epoch.key()),
            stage.staged == old(staged).model(),
            stage.metadata == (match metadata {
                Some(stored) => Some(stored@),
                None => None,
            }),
        ensures
            final(self).wf(),
            final(self).model() == stage.committed(),
    {
        let ghost before = self.model();
        let key = epoch.owner_key();
        let released = staged.core.release(key);
        if let Some(part) = released {
            proof {
                assert(part.ledger@ == stage.part());
                assert(stage.whole() == before.core.owners[key].ledger);
            }
            if let Some(owner) = self.core.owner_mut(key) {
                owner.ledger.commit_caller(part.ledger);
                owner.sequence = last_sequence;
                owner.status = Status::Comparing;
            }
        }
        if let Some(from) = staged.native.get_mut(epoch) {
            if let Some(stored) = from.groups.remove(group) {
                if let Some(into) = self.native.get_mut(epoch) {
                    into.groups.insert(group, stored);
                }
            }
        }
        let mut selectors: OrderedMap<SelectorKey, StoredSelection> = OrderedMap::new();
        core::mem::swap(&mut selectors, &mut staged.selectors);
        self.selectors.absorb(selectors);
        if let Some(stored) = metadata {
            self.metadata.insert(epoch, stored);
        }
        self.native_bytes = bytes;
        proof {
            let expected = stage.committed();
            assert(self.model().core.owners =~= expected.core.owners);
            assert(self.model().core =~= expected.core);
            assert(self.model().native =~= expected.native);
            assert(self.model().selectors =~= expected.selectors);
            assert(self.model().metadata =~= expected.metadata);
            assert(self.model() =~= expected);
        }
    }
}

} // verus!
