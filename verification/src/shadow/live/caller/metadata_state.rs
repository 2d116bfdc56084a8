//! Router metadata frames and their group lifecycle, compared against the
//! retained owner tracker.
use vstd::prelude::*;

use super::metadata::stored;
use super::metadata::stored::StoredMetadata;
use super::metadata::tracker::{OpenModel, Tracker, TrackerModel};
use super::metadata::{Boundary, Event};
use super::{Budget, Scope, ScopeModel, Stage, StageModel};
use crate::charge;
use crate::charge::Admission;
use crate::shadow::ledger::MirrorModel;
use crate::shadow::live::native::{HISTORY_LIMIT, STAGE_OVERHEAD};
use crate::shadow::live::{Batch, LiveEvent, LiveModel, LiveState};
use crate::shadow::native::{Entry, Evaluation};
use crate::shadow::native_compute::Computation;
use crate::shadow::{Epoch, InvalidReason, Progress, Status};

verus! {

/// The tracker after a metadata frame, and the admission afterwards.
pub open spec fn tracker_step(
    tracker: TrackerModel,
    event: Event,
    idle: bool,
    parses: bool,
    admission: Admission,
) -> (Result<TrackerModel, InvalidReason>, Admission) {
    match event {
        Event::Begin(begin) => match tracker.begin(begin, admission) {
            (Ok(open), after) => (Ok(TrackerModel { open: Some(open), ..tracker }), after),
            (Err(reason), after) => (Err(reason), after),
        },
        Event::Assign(assign) => tracker.assign(assign, idle, parses, admission),
        Event::Refresh(refresh) => tracker.refresh(refresh, parses, admission),
        Event::End(end) => tracker.end(end, admission),
    }
}

/// Whether a ledger has no connection and no score for a decision's backend.
pub open spec fn idle_for(ledger: MirrorModel, event: Event) -> bool {
    match event {
        Event::Assign(assign) => match ledger.compact_account(assign.account) {
            Some(counts) => counts.physical == 0 && counts.score == 0,
            None => true,
        },
        _ => true,
    }
}

/// The bytes of a metadata map entry.
pub open spec fn entry_bytes() -> nat {
    charge::node_bytes::<(Epoch, StoredMetadata)>()
}

impl StoredMetadata {
    fn step(&mut self, event: &Event, idle: bool, parses: bool, admission: &mut Admission) -> (r: Result<
        (),
        InvalidReason,
    >)
        requires
            old(self).wf(),
        ensures
            final(self).wf(),
            *final(admission) == tracker_step(old(self)@, *event, idle, parses, *old(admission)).1,
            match tracker_step(old(self)@, *event, idle, parses, *old(admission)).0 {
                Ok(next) => r is Ok && final(self)@ == next,
                Err(reason) => r is Err && r->Err_0 == reason,
            },
    {
        match event {
            Event::Begin(begin) => self.tracker.begin(begin, admission),
            Event::Assign(assign) => self.tracker.assign(assign, idle, parses, admission),
            Event::Refresh(refresh) => self.tracker.refresh(refresh, parses, admission),
            Event::End(end) => self.tracker.end(*end, admission),
        }
    }
}

impl StageModel {
    /// Why a metadata frame cannot be the first that is seen, if it cannot.
    pub open spec fn metadata_refusal(self, event: Event) -> Option<InvalidReason> {
        if self.original.retained_metadata(self.epoch) is Some {
            None
        } else if !(event matches Event::Begin(begin) && begin.generation == 1) {
            Some(InvalidReason::MissingBegin)
        } else if self.original.groups_of(self.key()).len() > 0 {
            Some(InvalidReason::Lifecycle)
        } else {
            None
        }
    }

    /// The copy that a metadata frame works on.
    pub open spec fn metadata_copy(self) -> TrackerModel {
        stored::forked(self.original.retained_metadata(self.epoch))
    }

    /// What the tracker may hold while the frame, the retained history and the
    /// other copies coexist with it.
    pub open spec fn metadata_admission(self) -> Admission {
        Admission {
            limit: (HISTORY_LIMIT - STAGE_OVERHEAD - 32 * self.frame_bytes - self.retained
                - self.ledger_clone - entry_bytes()) as usize,
            last: 0,
            peak: 0,
        }
    }

    /// The stage after a metadata frame was compared. The retained tracker is
    /// replaced only when the stage is committed.
    pub open spec fn compare_metadata(self, event: Event, parses: bool) -> (
        StageModel,
        Result<(), InvalidReason>,
    ) {
        let copy = self.metadata_copy();
        let extra = stored::stored_bytes(copy);
        let clones = self.ledger_clone + extra;
        if let Some(reason) = self.metadata_refusal(event) {
            (self, Err(reason))
        } else if clones > usize::MAX || !super::affordable(
            self.frame_bytes as nat,
            self.retained as nat,
            clones as nat,
        ) {
            (self, Err(InvalidReason::Capacity))
        } else {
            let initial = Budget::of(self.frame_bytes as nat, self.retained as nat, clones as nat);
            let (result, admission) = tracker_step(
                copy,
                event,
                idle_for(self.whole(), event),
                parses,
                self.metadata_admission(),
            );
            let grown = entry_bytes() + admission.peak as nat;
            let peak = if grown > extra && super::affordable(
                self.frame_bytes as nat,
                self.retained as nat,
                (self.ledger_clone + grown) as nat,
            ) {
                Budget::of(
                    self.frame_bytes as nat,
                    self.retained as nat,
                    (self.ledger_clone + grown) as nat,
                )
            } else {
                initial
            };
            let next = self.recorded(initial).recorded(peak);
            match result {
                Ok(tracker) => (StageModel { metadata: Some(tracker), ..next }, Ok(())),
                Err(reason) => (next, Err(reason)),
            }
        }
    }
}

impl<'a> Stage<'a> {
    fn refuse_metadata(&self, event: &Event) -> (r: Option<InvalidReason>)
        requires
            self.wf(),
        ensures
            r == self.model().metadata_refusal(*event),
    {
        if self.original.metadata.contains_key(self.epoch) {
            return None;
        }
        let first = match event {
            Event::Begin(begin) => begin.generation == 1,
            _ => false,
        };
        if !first {
            return Some(InvalidReason::MissingBegin);
        }
        let populated = match self.original.groups.get(self.epoch.owner_key()) {
            Some(groups) => groups.len() > 0,
            None => false,
        };
        if populated {
            return Some(InvalidReason::Lifecycle);
        }
        None
    }

    fn ledger_idle(&self, event: &Event) -> (r: bool)
        requires
            self.wf(),
        ensures
            r == idle_for(self.model().whole(), *event),
    {
        match event {
            Event::Assign(assign) => match self.original.core.owner(self.epoch.owner_key()) {
                Some(owner) => match owner.ledger.compact_account(assign.account) {
                    Some(counts) => counts.physical == 0 && counts.score == 0,
                    None => true,
                },
                None => true,
            },
            _ => true,
        }
    }

    /// Compare a metadata frame on a charged copy of the retained tracker.
    /// `parses` says whether the frame's values parse as a matcher.
    ///
    /// # Errors
    /// A late first frame, the shared budget, or any failure of the tracker.
    pub fn compare_metadata(&mut self, event: &Event, parses: bool) -> (r: Result<
        (),
        InvalidReason,
    >)
        requires
            old(self).wf(),
        ensures
            final(self).wf(),
            (final(self).model(), r) == old(self).model().compare_metadata(*event, parses),
            *final(final(self).original) == *final(old(self).original),
    {
        let ghost before = self.model();
        if let Some(reason) = self.refuse_metadata(event) {
            return Err(reason);
        }
        let extra = StoredMetadata::fork_charge(self.original.metadata.get(self.epoch));
        let clones = match self.ledger_clone.checked_add(extra) {
            Some(clones) => clones,
            None => return Err(InvalidReason::Capacity),
        };
        let initial = match Budget::new(self.frame_bytes, self.retained, clones) {
            Ok(initial) => initial,
            Err(reason) => return Err(reason),
        };
        let mut copy = StoredMetadata::fork(self.original.metadata.get(self.epoch));
        let entry = charge::node_charge::<(Epoch, StoredMetadata)>();
        assert(extra >= entry);
        let mut admission = Admission::new(
            HISTORY_LIMIT - STAGE_OVERHEAD - 32 * self.frame_bytes - self.retained
                - self.ledger_clone - entry,
        );
        let idle = self.ledger_idle(event);
        self.record(initial);
        let ghost copied = copy@;
        let ghost asked = admission;
        let result = copy.step(event, idle, parses, &mut admission);
        let mut peak = initial;
        if let Some(grown) = entry.checked_add(admission.peak) {
            if grown > extra {
                if let Some(clones) = self.ledger_clone.checked_add(grown) {
                    if let Ok(budget) = Budget::new(self.frame_bytes, self.retained, clones) {
                        peak = budget;
                    }
                }
            }
        }
        self.record(peak);
        proof {
            assert(copied == before.metadata_copy());
            assert(asked == before.metadata_admission());
        }
        if let Err(reason) = result {
            return Err(reason);
        }
        self.metadata = Some(copy);
        proof {
            assert(self.model() =~= before.compare_metadata(*event, parses).0);
            assert(self.model().sound());
        }
        Ok(())
    }
}

impl Boundary {
    /// The scope that the frame is compared in.
    pub open spec fn scope(self, frame_bytes: usize) -> ScopeModel {
        ScopeModel {
            epoch: self.epoch,
            group: 0,
            sequence: self.sequence,
            span: 1,
            sessions: seq![],
            frame_bytes,
        }
    }
}

/// The tracker after the first group events of a mutation.
pub open spec fn group_events(tracker: TrackerModel, events: Seq<LiveEvent>, count: int) -> Result<
    TrackerModel,
    InvalidReason,
>
    decreases count,
{
    if count <= 0 {
        Ok(tracker)
    } else {
        match group_events(tracker, events, count - 1) {
            Ok(before) => before.group_event(events[count - 1]),
            Err(reason) => Err(reason),
        }
    }
}

proof fn lemma_group_events_stop(tracker: TrackerModel, events: Seq<LiveEvent>, from: int, to: int)
    requires
        from <= to,
        group_events(tracker, events, from) is Err,
    ensures
        group_events(tracker, events, to) == group_events(tracker, events, from),
    decreases to - from,
{
    if from < to {
        lemma_group_events_stop(tracker, events, from, to - 1);
    }
}

/// Whether an event creates or removes a group.
pub open spec fn is_group_event(event: LiveEvent) -> bool {
    event is GroupCreated || event is GroupRemoved
}

/// Whether a mutation creates or removes a group.
pub open spec fn has_group_event(events: Seq<LiveEvent>) -> bool {
    exists|i: int| 0 <= i < events.len() && is_group_event(#[trigger] events[i])
}

fn holds_group_event(events: &Vec<LiveEvent>) -> (r: bool)
    ensures
        r == has_group_event(events@),
{
    let mut index: usize = 0;
    while index < events.len()
        invariant
            index <= events@.len(),
            forall|i: int| 0 <= i < index ==> !is_group_event(#[trigger] events@[i]),
        decreases events@.len() - index,
    {
        match events[index] {
            LiveEvent::GroupCreated(_) | LiveEvent::GroupRemoved(_) => {
                assert(is_group_event(events@[index as int]));
                return true;
            },
            _ => {},
        }
        index = index + 1;
    }
    false
}

impl LiveModel {
    /// The state after a metadata frame was compared, and its result.
    pub open spec fn router_metadata_observed(
        self,
        boundary: Boundary,
        parses: bool,
        frame_bytes: usize,
        copy: Result<usize, InvalidReason>,
    ) -> (LiveModel, Progress) {
        match self.plan(boundary.scope(frame_bytes), copy) {
            Err(reason) => self.unentered(boundary.epoch, reason),
            Ok(plan) => {
                let (stage, result) = self.staged(
                    boundary.scope(frame_bytes),
                    plan,
                ).compare_metadata(boundary.event, parses);
                stage.concluded(result)
            },
        }
    }

    /// The state after a snapshot of the retained tracker was charged beside a
    /// frame, and that snapshot.
    pub open spec fn metadata_prepared(self, epoch: Epoch, frame_bytes: usize) -> (
        LiveModel,
        Result<Option<TrackerModel>, InvalidReason>,
    ) {
        match self.retained_metadata(epoch) {
            None => (self, Ok(None)),
            Some(old) => {
                let bytes = stored::stored_bytes(stored::forked(Some(old)));
                if !(self.progress(epoch).status is Comparing) {
                    (self, Err(InvalidReason::Lifecycle))
                } else if !super::affordable(frame_bytes as nat, self.native_bytes as nat, bytes) {
                    (self, Err(InvalidReason::Capacity))
                } else {
                    (
                        self.recorded(
                            Budget::of(frame_bytes as nat, self.native_bytes as nat, bytes),
                        ),
                        Ok(Some(old.snapshot())),
                    )
                }
            },
        }
    }

    /// The retained bytes once a compared prefix of the metadata has replaced the
    /// last one.
    pub open spec fn prefix_bytes(self, epoch: Epoch, tracker: TrackerModel) -> int {
        let old = match self.retained_metadata(epoch) {
            Some(old) => stored::stored_bytes(old),
            None => 0,
        };
        self.native_bytes - old + stored::stored_bytes(tracker)
    }

    /// Why a compared prefix of the metadata cannot be retained.
    pub open spec fn prefix_refusal(self, epoch: Epoch, tracker: TrackerModel) -> Option<
        InvalidReason,
    > {
        let bytes = self.prefix_bytes(epoch, tracker);
        if bytes < stored::stored_bytes(tracker) || bytes > HISTORY_LIMIT {
            Some(InvalidReason::Capacity)
        } else {
            None
        }
    }

    /// The state after a compared prefix of the metadata was retained.
    pub open spec fn metadata_committed(self, epoch: Epoch, tracker: TrackerModel) -> LiveModel {
        LiveModel {
            metadata: self.metadata.insert(epoch, tracker),
            native_bytes: self.prefix_bytes(epoch, tracker) as usize,
            ..self
        }
    }

    /// The state after a compared prefix of the metadata was retained, or its
    /// owner interval disqualified where the prefix exceeds the retained limit.
    pub open spec fn metadata_published(self, epoch: Epoch, tracker: Option<TrackerModel>) -> LiveModel {
        match tracker {
            None => self,
            Some(tracker) => match self.prefix_refusal(epoch, tracker) {
                Some(reason) => self.invalidated(epoch, reason),
                None => self.metadata_committed(epoch, tracker),
            },
        }
    }

    /// The state after a mutation was compared with both the metadata generation
    /// and the ledger.
    pub open spec fn metadata_batch(self, batch: Batch, frame_bytes: usize) -> LiveModel {
        if !has_group_event(batch.events@) {
            self.observe(batch)
        } else {
            let (state, prepared) = self.metadata_prepared(batch.epoch, frame_bytes);
            let stepped = match prepared {
                Ok(Some(tracker)) => match group_events(
                    tracker,
                    batch.events@,
                    batch.events@.len() as int,
                ) {
                    Ok(next) => Ok(Some(next)),
                    Err(reason) => Err(reason),
                },
                other => other,
            };
            match stepped {
                Err(reason) => state.invalidated(batch.epoch, reason),
                Ok(tracker) => {
                    let next = state.observe(batch);
                    if next.progress(batch.epoch).status is Comparing {
                        next.metadata_published(batch.epoch, tracker)
                    } else {
                        next
                    }
                },
            }
        }
    }

    /// The state after a native evaluation was compared with both the metadata
    /// generation and the factor history.
    pub open spec fn metadata_native(self, e: Evaluation, c: Computation, frame_bytes: usize) -> LiveModel {
        let (state, prepared) = if e.entry is Config {
            self.metadata_prepared(e.epoch, frame_bytes)
        } else {
            (self, Ok(None))
        };
        let stepped = match prepared {
            Ok(Some(tracker)) => match tracker.native_init(e.group) {
                Ok(next) => Ok(Some(next)),
                Err(reason) => Err(reason),
            },
            other => other,
        };
        match stepped {
            Err(reason) => state.invalidated(e.epoch, reason),
            Ok(tracker) => {
                let extra = match tracker {
                    Some(tracker) => stored::stored_bytes(tracker),
                    None => 0,
                };
                let staging = 32 * frame_bytes + extra;
                if staging > usize::MAX {
                    state.invalidated(e.epoch, InvalidReason::Capacity)
                } else {
                    let next = state.observe_native(e, c, staging as usize).0;
                    if next.progress(e.epoch).status is Comparing {
                        next.metadata_published(e.epoch, tracker)
                    } else {
                        next
                    }
                }
            },
        }
    }
}

impl LiveState {
    /// Independently compare a metadata frame using the retained owner tracker.
    /// Its affected snapshot, growth and decoder coexist under D+R+C+S; only a
    /// successful final caller check transfers it into retained history.
    pub fn observe_router_metadata(&mut self, boundary: &Boundary, parses: bool, frame_bytes: usize) -> (r:
        Progress)
        requires
            old(self).wf(),
            old(self).model().accounted(),
        ensures
            final(self).wf(),
            final(self).model().accounted(),
            exists|copy: Result<usize, InvalidReason>| #[trigger]
                old(self).model().may_copy(boundary.scope(frame_bytes), copy) && (
                final(self).model(),
                r,
            ) == old(self).model().router_metadata_observed(*boundary, parses, frame_bytes, copy),
    {
        let previous = self.progress(boundary.epoch).compared_sequence;
        let sessions: [u64; 0] = [];
        let scope = Scope {
            epoch: boundary.epoch,
            group: 0,
            sequence: boundary.sequence,
            span: 1,
            sessions: &sessions,
            frame_bytes,
        };
        assert(scope@ =~= boundary.scope(frame_bytes)) by {
            assert(scope.sessions@ =~= seq![]);
        }
        match self.begin_caller(scope) {
            Ok(mut stage) => {
                let comparison = stage.compare_metadata(&boundary.event, parses);
                stage.finish(comparison)
            },
            Err(reason) => Progress {
                status: Status::Invalid(reason),
                compared_sequence: previous,
                transition: None,
            },
        }
    }

    /// Borrow independently retained metadata without allocating a diagnostic
    /// ledger view or a matcher clone. No production capability is installed.
    pub fn router_metadata(&self, epoch: Epoch) -> (r: Option<&Tracker>)
        requires
            self.wf(),
        ensures
            match self.model().retained_metadata(epoch) {
                Some(tracker) => r is Some && r->0@ == tracker && r->0@.wf(),
                None => r is None,
            },
    {
        match self.metadata.get(epoch) {
            Some(stored) => Some(&*stored.tracker),
            None => None,
        }
    }

    fn prepare_metadata_prefix(&mut self, epoch: Epoch, frame_bytes: usize) -> (r: Result<
        Option<StoredMetadata>,
        InvalidReason,
    >)
        requires
            old(self).wf(),
        ensures
            final(self).wf(),
            final(self).model() == old(self).model().metadata_prepared(epoch, frame_bytes).0,
            match old(self).model().metadata_prepared(epoch, frame_bytes).1 {
                Ok(None) => r is Ok && r->Ok_0 is None,
                Ok(Some(tracker)) => r is Ok && r->Ok_0 is Some && r->Ok_0->0.wf() && r->Ok_0->0@
                    == tracker,
                Err(reason) => r is Err && r->Err_0 == reason,
            },
    {
        if !self.metadata.contains_key(epoch) {
            return Ok(None);
        }
        if self.progress(epoch).status != Status::Comparing {
            return Err(InvalidReason::Lifecycle);
        }
        let bytes = StoredMetadata::fork_charge(self.metadata.get(epoch));
        let budget = match Budget::new(frame_bytes, self.native_bytes, bytes) {
            Ok(budget) => budget,
            Err(reason) => return Err(reason),
        };
        self.record_caller_budget(budget);
        Ok(Some(StoredMetadata::fork(self.metadata.get(epoch))))
    }

    /// Retain a compared prefix of the metadata. The retained limit is checked
    /// before anything is published.
    ///
    /// # Errors
    /// Refuses a prefix that would exceed the retained limit, and keeps the last.
    pub fn commit_metadata_prefix(&mut self, epoch: Epoch, stored: StoredMetadata) -> (r: Result<
        (),
        InvalidReason,
    >)
        requires
            old(self).wf(),
            stored.wf(),
        ensures
            final(self).wf(),
            match old(self).model().prefix_refusal(epoch, stored@) {
                Some(reason) => r == Err::<(), InvalidReason>(reason) && final(self).model() == old(
                    self,
                ).model(),
                None => r is Ok && final(self).model() == old(self).model().metadata_committed(
                    epoch,
                    stored@,
                ),
            },
            old(self).model().accounted() ==> final(self).model().accounted(),
    {
        let ghost before = self.model();
        let old = match self.metadata.get(epoch) {
            Some(old) => old.retained_charge(),
            None => 0,
        };
        let bytes = match self.native_bytes.checked_sub(old) {
            Some(rest) => match rest.checked_add(stored.retained_charge()) {
                Some(bytes) => bytes,
                None => return Err(InvalidReason::Capacity),
            },
            None => return Err(InvalidReason::Capacity),
        };
        if bytes > HISTORY_LIMIT {
            return Err(InvalidReason::Capacity);
        }
        self.native_bytes = bytes;
        let ghost tracker = stored@;
        self.metadata.insert(epoch, stored);
        assert(self.model() =~= before.metadata_committed(epoch, tracker));
        Ok(())
    }

    fn publish_metadata(&mut self, epoch: Epoch, stored: Option<StoredMetadata>)
        requires
            old(self).wf(),
            stored matches Some(stored) ==> stored.wf(),
        ensures
            final(self).wf(),
            final(self).model() == old(self).model().metadata_published(
                epoch,
                match stored {
                    Some(stored) => Some(stored@),
                    None => None,
                },
            ),
            old(self).model().accounted() ==> final(self).model().accounted(),
    {
        if let Some(stored) = stored {
            if let Err(reason) = self.commit_metadata_prefix(epoch, stored) {
                self.invalidate(epoch, reason);
            }
        }
    }

    /// Compare Group lifecycle records with both the metadata generation and
    /// the original ledger witness. Failed children preserve metadata's prior
    /// accepted prefix; the original ledger invalidation semantics still apply.
    pub fn observe_router_metadata_batch(&mut self, batch: &Batch, frame_bytes: usize) -> (r: Progress)
        requires
            old(self).wf(),
        ensures
            final(self).wf(),
            final(self).model() == old(self).model().metadata_batch(*batch, frame_bytes),
            r == final(self).model().progress(batch.epoch),
            old(self).model().accounted() ==> final(self).model().accounted(),
    {
        if !holds_group_event(&batch.events) {
            return self.observe(batch);
        }
        let ghost start = self.model();
        let prepared = match self.prepare_metadata_prefix(batch.epoch, frame_bytes) {
            Ok(prepared) => prepared,
            Err(reason) => return self.invalidate(batch.epoch, reason),
        };
        let mut stepped: Option<StoredMetadata> = None;
        if let Some(stored) = prepared {
            let mut stored = stored;
            let ghost copied = stored@;
            let mut index: usize = 0;
            let mut failure: Option<InvalidReason> = None;
            while index < batch.events.len() && failure.is_none()
                invariant
                    stored.wf(),
                    index <= batch.events@.len(),
                    failure is None ==> group_events(copied, batch.events@, index as int) == Ok::<
                        TrackerModel,
                        InvalidReason,
                    >(stored@),
                    failure matches Some(reason) ==> group_events(
                        copied,
                        batch.events@,
                        batch.events@.len() as int,
                    ) == Err::<TrackerModel, InvalidReason>(reason),
                decreases batch.events@.len() - index,
            {
                if let Err(reason) = stored.tracker.group_event(&batch.events[index]) {
                    proof {
                        assert(group_events(copied, batch.events@, index + 1) == Err::<
                            TrackerModel,
                            InvalidReason,
                        >(reason));
                        lemma_group_events_stop(
                            copied,
                            batch.events@,
                            index + 1,
                            batch.events@.len() as int,
                        );
                    }
                    failure = Some(reason);
                }
                index = index + 1;
            }
            if let Some(reason) = failure {
                return self.invalidate(batch.epoch, reason);
            }
            stepped = Some(stored);
        }
        let progress = self.observe(batch);
        if progress.status == Status::Comparing {
            self.publish_metadata(batch.epoch, stepped);
        }
        self.progress(batch.epoch)
    }

    /// Bind native Init/SetConfig only when its complete factor comparison also
    /// succeeds. The metadata snapshot remains charged during factor staging.
    #[verifier::rlimit(60)]
    #[verifier::spinoff_prover]
    pub fn observe_router_metadata_native(
        &mut self,
        evaluation: &Evaluation,
        computation: &Computation,
        frame_bytes: usize,
    ) -> (r: Progress)
        requires
            old(self).wf(),
        ensures
            final(self).wf(),
            final(self).model() == old(self).model().metadata_native(
                *evaluation,
                *computation,
                frame_bytes,
            ),
            r == final(self).model().progress(evaluation.epoch),
            old(self).model().accounted() ==> final(self).model().accounted(),
    {
        let epoch = evaluation.epoch;
        let mut stepped: Option<StoredMetadata> = None;
        if matches!(evaluation.entry, Entry::Config) {
            let prepared = match self.prepare_metadata_prefix(epoch, frame_bytes) {
                Ok(prepared) => prepared,
                Err(reason) => return self.invalidate(epoch, reason),
            };
            if let Some(stored) = prepared {
                let mut stored = stored;
                if let Err(reason) = stored.tracker.native_init(evaluation.group) {
                    return self.invalidate(epoch, reason);
                }
                stepped = Some(stored);
            }
        }
        let extra = match &stepped {
            Some(stored) => stored.retained_charge(),
            None => 0,
        };
        let staging = match frame_bytes.checked_mul(32) {
            Some(decode) => match decode.checked_add(extra) {
                Some(staging) => staging,
                None => return self.invalidate(epoch, InvalidReason::Capacity),
            },
            None => return self.invalidate(epoch, InvalidReason::Capacity),
        };
        let progress = self.observe_native(evaluation, computation, staging);
        if progress.status == Status::Comparing {
            self.publish_metadata(epoch, stepped);
        }
        self.progress(epoch)
    }
}

/// An owner's metadata begins with its first refresh, before it has any group; any
/// other first frame is refused.
pub proof fn law_metadata_begins_before_groups(stage: StageModel, event: Event, parses: bool)
    requires
        stage.original.retained_metadata(stage.epoch) is None,
        stage.compare_metadata(event, parses).1 is Ok,
    ensures
        event matches Event::Begin(begin) && begin.generation == 1,
        stage.original.groups_of(stage.key()).len() == 0,
{
}

/// A backend is idle for a decision exactly where the ledger has no account of it
/// whose score a witness can carry, or neither a connection on it nor a score.
pub proof fn law_idle_backends_have_no_load(ledger: MirrorModel, assign: super::metadata::Assign)
    requires
        ledger.accounts.contains_key(assign.account) ==> ledger.accounts[assign.account].counts.fits(),
    ensures
        idle_for(ledger, Event::Assign(assign)) <==> {
            let account = ledger.accounts[assign.account];
            ||| !ledger.accounts.contains_key(assign.account)
            ||| account.counts.score() > i64::MAX
            ||| account.counts.active == 0 && account.counts.score() == 0
        },
{
}

/// Every frame that is accepted moves its refresh on: a header opens one, a decision
/// takes the next index, a recomputation the next group, and a tail closes it.
#[verifier::rlimit(40)]
pub proof fn law_frames_move_their_refresh(
    t: TrackerModel,
    event: Event,
    idle: bool,
    parses: bool,
    admission: Admission,
)
    requires
        t.wf(),
        tracker_step(t, event, idle, parses, admission).0 is Ok,
    ensures
        ({
            let n = tracker_step(t, event, idle, parses, admission).0->Ok_0;
            &&& t.failed is None && n.failed is None
            &&& event matches Event::Begin(begin) ==> {
                &&& t.open is None
                &&& n.open matches Some(open) && open.generation == begin.generation
                    && open.generation == t.last_generation + 1
                &&& n.last_generation == t.last_generation
                &&& n.state == t.state
            }
            &&& event matches Event::Assign(assign) ==> {
                &&& t.open matches Some(before) && n.open matches Some(open) && open.next_index
                    == before.next_index + 1 && assign.generation == before.generation
                &&& n.last_generation == t.last_generation
                &&& n.state == t.state
            }
            &&& event matches Event::Refresh(refresh) ==> {
                &&& t.open matches Some(before) && n.open matches Some(open) && open.cursor
                    == before.cursor + 1 && refresh.generation == before.generation
                &&& n.last_generation == t.last_generation
                &&& n.state == t.state
            }
            &&& event matches Event::End(end) ==> {
                &&& t.open matches Some(before) && end.generation == before.generation
                &&& n.open is None
                &&& n.last_generation == end.generation
            }
        }),
{
    match event {
        Event::Begin(_) => {},
        Event::Assign(a) => {
            let retained = crate::charge::clamp(t.retained_bytes());
            let open = t.open->0;
            if open.revisit is None {
                super::metadata::decisions::law_decisions_take_effect(
                    open,
                    a,
                    idle,
                    parses,
                    retained,
                    admission,
                );
            } else {
                super::metadata::decisions::law_revisits_keep_the_group(
                    open,
                    a,
                    idle,
                    parses,
                    retained,
                    admission,
                );
                reveal(OpenModel::assign);
            }
        },
        Event::Refresh(frame) => {
            let retained = crate::charge::clamp(t.retained_bytes());
            super::metadata::decisions::law_refreshes_go_through_the_groups(
                t.open->0,
                frame,
                parses,
                retained,
                admission,
            );
            reveal(OpenModel::refresh);
        },
        Event::End(_) => {
            reveal(OpenModel::end);
        },
    }
}

/// Group events of an owner with metadata are compared with both: where the owner
/// is still compared afterwards, its metadata took every event, in order, and the
/// rest of the state is what the ledger made of them.
#[verifier::rlimit(40)]
pub proof fn law_group_events_reach_the_metadata(m: LiveModel, batch: Batch, frame_bytes: usize)
    requires
        has_group_event(batch.events@),
        m.retained_metadata(batch.epoch) is Some,
        m.metadata_batch(batch, frame_bytes).progress(batch.epoch).status is Comparing,
    ensures
        ({
            let n = m.metadata_batch(batch, frame_bytes);
            let old = m.retained_metadata(batch.epoch)->0;
            let state = m.metadata_prepared(batch.epoch, frame_bytes).0;
            &&& n.core == state.observe(batch).core
            &&& n.groups == state.observe(batch).groups
            &&& group_events(old.snapshot(), batch.events@, batch.events@.len() as int) is Ok
            &&& n.retained_metadata(batch.epoch) == Some(
                group_events(old.snapshot(), batch.events@, batch.events@.len() as int)->Ok_0,
            )
        }),
{
    let (state, prepared) = m.metadata_prepared(batch.epoch, frame_bytes);
    let n = m.metadata_batch(batch, frame_bytes);
    lemma_invalidated_is_not_compared(state, batch.epoch);
    lemma_invalidated_is_not_compared(state.observe(batch), batch.epoch);
}

proof fn lemma_invalidated_is_not_compared(m: LiveModel, epoch: Epoch)
    ensures
        forall|reason: InvalidReason|
            !((#[trigger] m.invalidated(epoch, reason)).progress(epoch).status is Comparing),
{
}

/// Without a group event, or without retained metadata, a mutation is compared with
/// the ledger alone.
pub proof fn law_other_mutations_leave_the_metadata(m: LiveModel, batch: Batch, frame_bytes: usize)
    requires
        !has_group_event(batch.events@) || m.retained_metadata(batch.epoch) is None,
    ensures
        m.metadata_batch(batch, frame_bytes) == m.observe(batch),
{
}

} // verus!
