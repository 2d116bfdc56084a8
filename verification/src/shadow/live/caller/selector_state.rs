//! Retained selector attempts compared in affected-view transactions.
use vstd::prelude::*;

use super::route;
use super::selection;
use super::selection::{Boundary, BoundaryEvent, DerivedResult, SelectionModel, StoredSelection};
use super::{Budget, Scope, ScopeModel, Stage, StageModel};
use crate::shadow::live::retention;
use crate::shadow::live::{Batch, LiveModel, LiveState, SelectorKey};
use crate::shadow::native::Evaluation;
use crate::shadow::native_compute::Computation;
use crate::shadow::{Epoch, InvalidReason, Progress, Status};
use crate::slices;

verus! {

/// The selectors of one interval.
pub open spec fn owner_selectors(selectors: Map<SelectorKey, SelectionModel>, epoch: Epoch) -> Set<
    SelectorKey,
> {
    Set::new(|key: SelectorKey| selectors.contains_key(key) && key.epoch == epoch)
}

/// Whether every closed selector is kept as it is.
pub open spec fn closed_kept(
    before: Map<SelectorKey, SelectionModel>,
    after: Map<SelectorKey, SelectionModel>,
) -> bool {
    forall|key: SelectorKey| #[trigger]
        before.contains_key(key) && before[key].closed ==> after.contains_key(key) && after[key]
            == before[key]
}

impl SelectionModel {
    /// The selector after one of its real boundaries was compared.
    pub open spec fn crossed(self, event: BoundaryEvent) -> (SelectionModel, Result<(), InvalidReason>) {
        if self.closed {
            (self, Err(InvalidReason::Lifecycle))
        } else {
            let (refusal, after) = match event {
                BoundaryEvent::Begin { next, current, excluded } => (
                    self.tracker.begin_refusal(next, current, excluded@),
                    SelectionModel { tracker: self.tracker.begun(next), ..self },
                ),
                BoundaryEvent::End { next, current, excluded, backend, error } => (
                    self.tracker.end_refusal(next, backend, error, current, excluded@),
                    SelectionModel { tracker: self.tracker.ended(), ..self },
                ),
                BoundaryEvent::Close { next, current, excluded } => (
                    self.tracker.close_refusal(next, current, excluded@),
                    SelectionModel { closed: true, ..self },
                ),
            };
            match refusal {
                Some(reason) => (
                    SelectionModel { tracker: self.tracker.poisoned(reason), ..self },
                    Err(reason),
                ),
                None => (after, Ok(())),
            }
        }
    }

    /// The selector after an independently derived attempt.
    pub open spec fn attempted(
        self,
        next: u64,
        ordinal: u8,
        excluded: Seq<u64>,
        derived: DerivedResult,
    ) -> (SelectionModel, Result<(), InvalidReason>) {
        if self.closed {
            (self, Err(InvalidReason::Lifecycle))
        } else {
            match self.tracker.attempt_refusal(next, ordinal, excluded, derived) {
                Some(reason) => (
                    SelectionModel { tracker: self.tracker.poisoned(reason), ..self },
                    Err(reason),
                ),
                None => (
                    SelectionModel { tracker: self.tracker.attempted(ordinal, derived), ..self },
                    Ok(()),
                ),
            }
        }
    }

    /// Whether the selector has explicitly closed with a complete history.
    pub open spec fn settled(self) -> bool {
        self.closed && self.tracker.tail_refusal() is None
    }
}

impl StoredSelection {
    fn cross(&mut self, event: &BoundaryEvent) -> (r: Result<(), InvalidReason>)
        requires
            old(self).wf(),
        ensures
            final(self).wf(),
            (final(self)@, r) == old(self)@.crossed(*event),
    {
        if self.closed {
            return Err(InvalidReason::Lifecycle);
        }
        match event {
            BoundaryEvent::Begin { next, current, excluded } => {
                if let Err(reason) = self.tracker.begin(*next, *current, excluded.as_slice()) {
                    return Err(reason);
                }
                Ok(())
            },
            BoundaryEvent::End { next, current, excluded, backend, error } => {
                if let Err(reason) = self.tracker.end(
                    *next,
                    *backend,
                    *error,
                    *current,
                    excluded.as_slice(),
                ) {
                    return Err(reason);
                }
                Ok(())
            },
            BoundaryEvent::Close { next, current, excluded } => {
                if let Err(reason) = self.tracker.close_witness(
                    *next,
                    *current,
                    excluded.as_slice(),
                ) {
                    return Err(reason);
                }
                self.closed = true;
                Ok(())
            },
        }
    }

    fn attempt(&mut self, next: u64, ordinal: u8, excluded: &[u64], derived: DerivedResult) -> (r: Result<
        (),
        InvalidReason,
    >)
        requires
            old(self).wf(),
        ensures
            final(self).wf(),
            (final(self)@, r) == old(self)@.attempted(next, ordinal, excluded@, derived),
    {
        if self.closed {
            return Err(InvalidReason::Lifecycle);
        }
        match self.tracker.attempt(next, ordinal, excluded, derived) {
            Ok(_) => Ok(()),
            Err(reason) => Err(reason),
        }
    }
}

/// Whether a boundary may be the first that is seen of its selector.
pub open spec fn may_create(event: BoundaryEvent) -> bool {
    match event {
        BoundaryEvent::Begin { next, .. } => next == 1,
        BoundaryEvent::Close { next, .. } => next == 0,
        _ => false,
    }
}

impl StageModel {
    /// The stage after a selector was set.
    pub open spec fn with_selector(self, key: SelectorKey, selector: SelectionModel) -> StageModel {
        StageModel {
            staged: LiveModel {
                selectors: self.staged.selectors.insert(key, selector),
                ..self.staged
            },
            ..self
        }
    }

    /// The stage after a selector that was never seen is charged and created, or
    /// why it cannot be.
    pub open spec fn selector_created(self, key: SelectorKey, event: BoundaryEvent) -> (
        StageModel,
        Result<(), InvalidReason>,
    ) {
        let bytes = selection::stored_bytes();
        let clones = self.ledger_clone + self.original_factor + bytes;
        if self.staged.selectors.contains_key(key) {
            (self, Ok(()))
        } else if !may_create(event) {
            (self, Err(InvalidReason::Lifecycle))
        } else if owner_selectors(self.original.selectors, self.epoch).len()
            >= self.original.limits.sessions {
            (self, Err(InvalidReason::Capacity))
        } else if clones > usize::MAX || !super::affordable(
            self.frame_bytes as nat,
            self.retained as nat,
            clones as nat,
        ) || self.staged.native_bytes + bytes > usize::MAX || self.grown + bytes > usize::MAX {
            (self, Err(InvalidReason::Capacity))
        } else {
            let budget = Budget::of(self.frame_bytes as nat, self.retained as nat, clones as nat);
            let created = self.recorded(budget).with_selector(key, SelectionModel::initial());
            (
                StageModel {
                    ledger_clone: (self.ledger_clone + bytes) as usize,
                    grown: (self.grown + bytes) as usize,
                    staged: LiveModel {
                        native_bytes: (self.staged.native_bytes + bytes) as usize,
                        ..created.staged
                    },
                    ..created
                },
                Ok(()),
            )
        }
    }

    /// The stage after a real selector boundary was compared.
    pub open spec fn selector_boundary(self, boundary: Boundary) -> (
        StageModel,
        Result<(), InvalidReason>,
    ) {
        let key = SelectorKey { epoch: self.epoch, session: boundary.session };
        match self.selector_created(key, boundary.event) {
            (next, Err(reason)) => (next, Err(reason)),
            (next, Ok(_)) => {
                let (selector, result) = next.staged.selectors[key].crossed(boundary.event);
                (next.with_selector(key, selector), result)
            },
        }
    }

    /// The stage after an attempt of a declared session was bound to its
    /// selector.
    pub open spec fn selector_attempt(
        self,
        session: u64,
        next: u64,
        ordinal: u8,
        excluded: Seq<u64>,
        derived: DerivedResult,
    ) -> (StageModel, Result<(), InvalidReason>) {
        let key = SelectorKey { epoch: self.epoch, session };
        if !self.sessions.contains(session) {
            (self, Err(InvalidReason::Identity))
        } else if !self.staged.selectors.contains_key(key) {
            (self, Err(InvalidReason::Lifecycle))
        } else {
            let (selector, result) = self.staged.selectors[key].attempted(
                next,
                ordinal,
                excluded,
                derived,
            );
            (self.with_selector(key, selector), result)
        }
    }
}

impl LiveState {
    fn owner_selector_count(&self, epoch: Epoch) -> (r: usize)
        requires
            self.wf(),
        ensures
            r == owner_selectors(self.model().selectors, epoch).len(),
    {
        let mut count: usize = 0;
        let mut index: usize = 0;
        let ghost order = self.selectors.order();
        let ghost mut seen: Set<SelectorKey> = Set::empty();
        proof {
            self.selectors.lemma_order();
        }
        while index < self.selectors.len()
            invariant
                self.wf(),
                order == self.selectors.order(),
                order.no_duplicates(),
                index <= order.len(),
                count <= index,
                seen.finite(),
                count == seen.len(),
                forall|key: SelectorKey| #[trigger]
                    seen.contains(key) <==> key.epoch == epoch && order.take(
                        index as int,
                    ).contains(key),
            decreases order.len() - index,
        {
            let key = self.selectors.key_at(index);
            let ghost was = seen;
            proof {
                assert(order.take(index + 1) =~= order.take(index as int).push(key));
                if order.take(index as int).contains(key) {
                    let at = order.take(index as int).index_of(key);
                    assert(order[at] == order[index as int]);
                }
                assert forall|k: SelectorKey| order.take(index + 1).contains(k) <==> order.take(
                    index as int,
                ).contains(k) || k == key by {
                    if order.take(index as int).contains(k) {
                        let at = order.take(index as int).index_of(k);
                        assert(order.take(index + 1)[at] == k);
                    }
                    if k == key {
                        assert(order.take(index + 1)[index as int] == k);
                    }
                }
            }
            if key.epoch == epoch {
                proof {
                    seen = seen.insert(key);
                }
                count = count + 1;
            }
            index = index + 1;
        }
        proof {
            assert(order.take(index as int) =~= order);
            assert(seen =~= owner_selectors(self.model().selectors, epoch));
        }
        count
    }

    /// Borrow a retained selector history. A refused or unfinished caller never
    /// shows here.
    pub fn selector(&self, epoch: Epoch, session: u64) -> (r: Option<&StoredSelection>)
        requires
            self.wf(),
        ensures
            match self.model().selectors.contains_key(SelectorKey { epoch, session }) {
                true => r is Some && r->0.wf() && r->0@ == self.model().selectors[SelectorKey {
                    epoch,
                    session,
                }],
                false => r is None,
            },
    {
        self.selectors.get(SelectorKey { epoch, session })
    }

    /// Whether every observed selector of this owner has explicitly closed.
    /// A settled ledger alone cannot prove that Next or selector capture ended.
    pub fn selectors_settled(&self, epoch: Epoch) -> (r: bool)
        requires
            self.wf(),
        ensures
            r == (forall|key: SelectorKey| #[trigger]
                owner_selectors(self.model().selectors, epoch).contains(key)
                    ==> self.model().selectors[key].settled()),
    {
        let mut index: usize = 0;
        let ghost order = self.selectors.order();
        proof {
            self.selectors.lemma_order();
        }
        while index < self.selectors.len()
            invariant
                self.wf(),
                order == self.selectors.order(),
                index <= order.len(),
                forall|i: int|
                    0 <= i < index && (#[trigger] order[i]).epoch == epoch
                        ==> self.model().selectors[order[i]].settled(),
            decreases order.len() - index,
        {
            let key = self.selectors.key_at(index);
            let stored = self.selectors.value_at(index);
            if key.epoch == epoch && !(stored.closed && stored.tracker.tail().is_ok()) {
                assert(owner_selectors(self.model().selectors, epoch).contains(key));
                return false;
            }
            index = index + 1;
        }
        proof {
            assert forall|key: SelectorKey| #[trigger] owner_selectors(
                self.model().selectors,
                epoch,
            ).contains(key) implies self.model().selectors[key].settled() by {
                let at = order.index_of(key);
                assert(order[at] == key);
            }
        }
        true
    }
}

impl<'a> Stage<'a> {
    fn create_selector(&mut self, key: SelectorKey, event: &BoundaryEvent) -> (r: Result<
        (),
        InvalidReason,
    >)
        requires
            old(self).wf(),
            key.epoch == old(self).epoch,
        ensures
            final(self).wf(),
            (final(self).model(), r) == old(self).model().selector_created(key, *event),
            *final(final(self).original) == *final(old(self).original),
    {
        let ghost before = self.model();
        if self.staged.selectors.contains_key(key) {
            return Ok(());
        }
        let first = match event {
            BoundaryEvent::Begin { next, .. } => *next == 1,
            BoundaryEvent::Close { next, .. } => *next == 0,
            _ => false,
        };
        if !first {
            return Err(InvalidReason::Lifecycle);
        }
        if self.original.owner_selector_count(self.epoch) >= self.original.limits.sessions {
            return Err(InvalidReason::Capacity);
        }
        let bytes = StoredSelection::charge();
        let clones = match self.ledger_clone.checked_add(self.original_factor) {
            Some(sum) => match sum.checked_add(bytes) {
                Some(clones) => clones,
                None => return Err(InvalidReason::Capacity),
            },
            None => return Err(InvalidReason::Capacity),
        };
        let budget = match Budget::new(self.frame_bytes, self.retained, clones) {
            Ok(budget) => budget,
            Err(reason) => return Err(reason),
        };
        let (staged_bytes, grown) = match (
            self.staged.native_bytes.checked_add(bytes),
            self.grown.checked_add(bytes),
        ) {
            (Some(staged_bytes), Some(grown)) => (staged_bytes, grown),
            _ => return Err(InvalidReason::Capacity),
        };
        // Admission precedes the allocation and map insertion. The new state
        // stays among the copies until a commit retains it.
        self.record(budget);
        self.staged.selectors.insert(key, StoredSelection::initial());
        self.staged.native_bytes = staged_bytes;
        self.ledger_clone = self.ledger_clone + bytes;
        self.grown = grown;
        proof {
            let expected = before.selector_created(key, *event).0;
            assert(self.model().staged =~= expected.staged);
            assert(self.model() =~= expected);
            assert(self.model().sound());
        }
        Ok(())
    }

    /// Compare a real selector boundary with its retained attempt state.
    ///
    /// # Errors
    /// Any failure of the selector's own comparison, population or budget.
    fn selector_boundary(&mut self, boundary: &Boundary) -> (r: Result<(), InvalidReason>)
        requires
            old(self).wf(),
        ensures
            final(self).wf(),
            (final(self).model(), r) == old(self).model().selector_boundary(*boundary),
            *final(final(self).original) == *final(old(self).original),
    {
        let ghost before = self.model();
        let key = SelectorKey { epoch: self.epoch, session: boundary.session };
        if let Err(reason) = self.create_selector(key, &boundary.event) {
            return Err(reason);
        }
        let ghost created = self.model();
        let result = match self.staged.selectors.get_mut(key) {
            Some(stored) => stored.cross(&boundary.event),
            None => Err(InvalidReason::Identity),
        };
        proof {
            let expected = before.selector_boundary(*boundary).0;
            assert(self.model().staged =~= expected.staged);
            assert(self.model() =~= expected);
            assert(self.model().sound());
        }
        result
    }

    /// Bind a derived attempt of a declared session to its selector.
    ///
    /// # Errors
    /// Undeclared, unseen or closed selectors, and refused attempts.
    pub fn selector_attempt(
        &mut self,
        session: u64,
        next: u64,
        ordinal: u8,
        excluded: &[u64],
        derived: DerivedResult,
    ) -> (r: Result<(), InvalidReason>)
        requires
            old(self).wf(),
        ensures
            final(self).wf(),
            (final(self).model(), r) == old(self).model().selector_attempt(
                session,
                next,
                ordinal,
                excluded@,
                derived,
            ),
            *final(final(self).original) == *final(old(self).original),
    {
        let ghost before = self.model();
        if !slices::holds(self.sessions.as_slice(), session) {
            return Err(InvalidReason::Identity);
        }
        let key = SelectorKey { epoch: self.epoch, session };
        let result = match self.staged.selectors.get_mut(key) {
            Some(stored) => stored.attempt(next, ordinal, excluded, derived),
            None => return Err(InvalidReason::Lifecycle),
        };
        proof {
            let expected = before.selector_attempt(session, next, ordinal, excluded@, derived).0;
            assert(self.model().staged =~= expected.staged);
            assert(self.model() =~= expected);
            assert(self.model().sound());
        }
        result
    }
}

impl Boundary {
    /// The scope that the boundary is compared in.
    pub open spec fn scope(self, frame_bytes: usize) -> ScopeModel {
        ScopeModel {
            epoch: self.epoch,
            group: 0,
            sequence: self.sequence,
            span: 1,
            sessions: seq![self.session],
            frame_bytes,
        }
    }
}

impl StageModel {
    /// The stage after a Group Route was compared and bound to its selector's
    /// attempt.
    pub open spec fn selector_route(
        self,
        e: route::Envelope,
        c: Computation,
        next: u64,
        ordinal: u8,
        excluded: Seq<u64>,
    ) -> (StageModel, Result<DerivedResult, InvalidReason>) {
        match self.compare_route(e, c) {
            (after, Err(reason)) => (after, Err(reason)),
            (after, Ok(derived)) => if excluded.len() != e.route.excluded_count {
                (after, Err(InvalidReason::Witness))
            } else {
                match after.selector_attempt(e.route.session, next, ordinal, excluded, derived) {
                    (last, Err(reason)) => (last, Err(reason)),
                    (last, Ok(_)) => (last, Ok(derived)),
                }
            },
        }
    }
}

impl LiveModel {
    /// The state after a well-formed selector boundary was compared, and its
    /// result.
    pub open spec fn boundary_observed(
        self,
        boundary: Boundary,
        frame_bytes: usize,
        copy: Result<usize, InvalidReason>,
    ) -> (LiveModel, Progress) {
        match self.plan(boundary.scope(frame_bytes), copy) {
            Err(reason) => self.unentered(boundary.epoch, reason),
            Ok(plan) => {
                let (stage, result) = self.staged(
                    boundary.scope(frame_bytes),
                    plan,
                ).selector_boundary(boundary);
                stage.concluded(result)
            },
        }
    }

    /// The state after a well-formed Group Route of a selector was compared, its
    /// result, and what it derived.
    pub open spec fn selector_group_route(
        self,
        e: route::Envelope,
        c: Computation,
        next: u64,
        ordinal: u8,
        excluded: Seq<u64>,
        frame_bytes: usize,
        copy: Result<usize, InvalidReason>,
    ) -> (LiveModel, Progress, Option<DerivedResult>) {
        match self.plan(e.scope(frame_bytes), copy) {
            Err(reason) => {
                let (after, progress) = self.unentered(e.epoch, reason);
                (after, progress, None)
            },
            Ok(plan) => {
                let (stage, result) = self.staged(e.scope(frame_bytes), plan).selector_route(
                    e,
                    c,
                    next,
                    ordinal,
                    excluded,
                );
                stage.resolved(result)
            },
        }
    }
}

impl LiveState {
    /// Compare a real selector entry/return/end with the independently retained
    /// attempt state. No production routing capability is installed by this API.
    pub fn observe_selector_boundary(&mut self, boundary: &Boundary, frame_bytes: usize) -> (r: Progress)
        requires
            old(self).wf(),
            old(self).model().accounted(),
        ensures
            final(self).wf(),
            final(self).model().accounted(),
            boundary.shape_refusal() matches Some(reason) ==> (final(self).model(), r) == old(
                self,
            ).model().malformed(boundary.epoch, reason),
            boundary.shape_refusal() is None ==> exists|copy: Result<usize, InvalidReason>|
                #[trigger] old(self).model().may_copy(boundary.scope(frame_bytes), copy) && (
                final(self).model(),
                r,
            ) == old(self).model().boundary_observed(*boundary, frame_bytes, copy),
    {
        if let Err(reason) = boundary.validate() {
            return self.invalidate(boundary.epoch, reason);
        }
        let previous = self.progress(boundary.epoch).compared_sequence;
        let sessions: [u64; 1] = [boundary.session];
        let scope = Scope {
            epoch: boundary.epoch,
            group: 0,
            sequence: boundary.sequence,
            span: 1,
            sessions: &sessions,
            frame_bytes,
        };
        assert(scope@ =~= boundary.scope(frame_bytes)) by {
            assert(scope.sessions@ =~= seq![boundary.session]);
        }
        match self.begin_caller(scope) {
            Ok(mut stage) => {
                let comparison = stage.selector_boundary(boundary);
                stage.finish(comparison)
            },
            Err(reason) => Progress {
                status: Status::Invalid(reason),
                compared_sequence: previous,
                transition: None,
            },
        }
    }

    /// Atomically bind an independently compared Group Route to its selector
    /// attempt. Router metadata classification remains a separate required
    /// input to the eventual installed caller dispatcher.
    pub fn observe_selector_group_route_result(
        &mut self,
        envelope: &route::Envelope,
        computation: &Computation,
        next: u64,
        ordinal: u8,
        excluded: &[u64],
        frame_bytes: usize,
    ) -> (r: (Progress, Option<DerivedResult>))
        requires
            old(self).wf(),
            old(self).model().accounted(),
        ensures
            final(self).wf(),
            final(self).model().accounted(),
            envelope.shape_refusal() matches Some(reason) ==> (final(self).model(), r.0) == old(
                self,
            ).model().malformed(envelope.epoch, reason) && r.1 is None,
            envelope.shape_refusal() is None ==> exists|copy: Result<usize, InvalidReason>|
                #[trigger] old(self).model().may_copy(envelope.scope(frame_bytes), copy) && (
                final(self).model(),
                r.0,
                r.1,
            ) == old(self).model().selector_group_route(
                *envelope,
                *computation,
                next,
                ordinal,
                excluded@,
                frame_bytes,
                copy,
            ),
    {
        if let Err(reason) = envelope.validate() {
            return (self.invalidate(envelope.epoch, reason), None);
        }
        let previous = self.progress(envelope.epoch).compared_sequence;
        let sessions: [u64; 1] = [envelope.route.session];
        let scope = Scope {
            epoch: envelope.epoch,
            group: envelope.route.group,
            sequence: envelope.sequence,
            span: envelope.span,
            sessions: &sessions,
            frame_bytes,
        };
        assert(scope@ =~= envelope.scope(frame_bytes)) by {
            assert(scope.sessions@ =~= seq![envelope.route.session]);
        }
        match self.begin_caller(scope) {
            Ok(mut stage) => {
                let comparison = match stage.compare_route(envelope, computation) {
                    Err(reason) => Err(reason),
                    Ok(derived) => if excluded.len() != envelope.route.excluded_count as usize {
                        Err(InvalidReason::Witness)
                    } else {
                        match stage.selector_attempt(
                            envelope.route.session,
                            next,
                            ordinal,
                            excluded,
                            derived,
                        ) {
                            Ok(_) => Ok(derived),
                            Err(reason) => Err(reason),
                        }
                    },
                };
                let verdict = match comparison {
                    Ok(_) => Ok(()),
                    Err(reason) => Err(reason),
                };
                let progress = stage.finish(verdict);
                let derived = match (progress.status, comparison) {
                    (Status::Comparing, Ok(derived)) => Some(derived),
                    _ => None,
                };
                (progress, derived)
            },
            Err(reason) => (
                Progress {
                    status: Status::Invalid(reason),
                    compared_sequence: previous,
                    transition: None,
                },
                None,
            ),
        }
    }
}

/// A closed selector refuses every boundary and every attempt, and is not changed
/// by them.
pub proof fn law_closed_selector_refuses(
    selector: SelectionModel,
    event: BoundaryEvent,
    next: u64,
    ordinal: u8,
    excluded: Seq<u64>,
    derived: DerivedResult,
)
    requires
        selector.closed,
    ensures
        selector.crossed(event) == (selector, Err::<(), InvalidReason>(InvalidReason::Lifecycle)),
        selector.attempted(next, ordinal, excluded, derived) == (
            selector,
            Err::<(), InvalidReason>(InvalidReason::Lifecycle),
        ),
{
}

/// A closed selector never reopens: once its scope is admitted, a boundary of it
/// is refused, leaves every selector as it was and does not advance its owner.
pub proof fn law_closed_selector_never_reopens(
    m: LiveModel,
    boundary: Boundary,
    frame_bytes: usize,
    copy: Result<usize, InvalidReason>,
)
    requires
        m.selectors.contains_key(SelectorKey { epoch: boundary.epoch, session: boundary.session }),
        m.selectors[SelectorKey { epoch: boundary.epoch, session: boundary.session }].closed,
        m.plan(boundary.scope(frame_bytes), copy) is Ok,
    ensures
        ({
            let (n, progress) = m.boundary_observed(boundary, frame_bytes, copy);
            &&& progress == (Progress {
                status: Status::Invalid(InvalidReason::Lifecycle),
                compared_sequence: m.progress(boundary.epoch).compared_sequence,
                transition: None,
            })
            &&& n.selectors == m.selectors
        }),
{
    let key = SelectorKey { epoch: boundary.epoch, session: boundary.session };
    let scope = boundary.scope(frame_bytes);
    assert(scope.sessions[0] == boundary.session);
    let plan = m.plan(scope, copy)->Ok_0;
    let stage = m.staged(scope, plan);
    assert(stage.staged.selectors.contains_key(key));
    assert(stage.selector_boundary(boundary).1 == Err::<(), InvalidReason>(
        InvalidReason::Lifecycle,
    ));
}

/// A closed selector takes no attempt of a stage, and the stage keeps it.
pub proof fn law_closed_selector_takes_no_attempt(
    s: StageModel,
    session: u64,
    next: u64,
    ordinal: u8,
    excluded: Seq<u64>,
    derived: DerivedResult,
)
    requires
        s.sessions.contains(session),
        s.staged.selectors.contains_key(SelectorKey { epoch: s.epoch, session }),
        s.staged.selectors[SelectorKey { epoch: s.epoch, session }].closed,
    ensures
        s.selector_attempt(session, next, ordinal, excluded, derived) == (
            s,
            Err::<(), InvalidReason>(InvalidReason::Lifecycle),
        ),
{
    let key = SelectorKey { epoch: s.epoch, session };
    let n = s.selector_attempt(session, next, ordinal, excluded, derived).0;
    assert(n.staged.selectors =~= s.staged.selectors);
    assert(n.staged =~= s.staged);
    assert(n =~= s);
}

impl StageModel {
    /// Whether the stage holds every closed selector of its original as it is.
    pub open spec fn keeps_closed(self) -> bool {
        forall|key: SelectorKey| #[trigger]
            self.original.selectors.contains_key(key) && self.original.selectors[key].closed
                && self.staged.selectors.contains_key(key) ==> self.staged.selectors[key]
                == self.original.selectors[key]
    }
}

/// A stage begins with every closed selector as it is, its children and attempts
/// keep them, and so does its end, whether it is committed or discarded.
pub proof fn law_stage_keeps_closed_selectors(
    m: LiveModel,
    scope: ScopeModel,
    plan: super::Plan,
    s: StageModel,
    batch: Batch,
    e: Evaluation,
    c: Computation,
    session: u64,
    next: u64,
    ordinal: u8,
    excluded: Seq<u64>,
    derived: DerivedResult,
    result: Result<(), InvalidReason>,
)
    ensures
        m.staged(scope, plan).keeps_closed(),
        s.keeps_closed() ==> {
            &&& s.batch(batch).0.keeps_closed()
            &&& s.evaluation(e, c).0.keeps_closed()
            &&& s.selector_attempt(session, next, ordinal, excluded, derived).0.keeps_closed()
            &&& closed_kept(s.original.selectors, s.finished(result).selectors)
        },
{
    retention::lemma_observe_staged(s.staged, batch, s.epoch, s.group);
}

/// A selector is first seen at its first call, or closing before any; no other
/// boundary creates one.
pub proof fn law_selectors_begin_with_their_first_call(
    stage: StageModel,
    key: SelectorKey,
    event: BoundaryEvent,
)
    requires
        !stage.staged.selectors.contains_key(key),
        stage.selector_created(key, event).1 is Ok,
    ensures
        match event {
            BoundaryEvent::Begin { next, .. } => next == 1,
            BoundaryEvent::End { .. } => false,
            BoundaryEvent::Close { next, .. } => next == 0,
        },
        stage.selector_created(key, event).0.staged.selectors == stage.staged.selectors.insert(
            key,
            SelectionModel::initial(),
        ),
{
}

/// An accepted boundary of an open selector begins the call that it names, ends
/// the open one, or closes the selector; each leaves the rest as it was.
#[verifier::rlimit(40)]
pub proof fn law_boundaries_move_their_selector(selector: SelectionModel, event: BoundaryEvent)
    requires
        selector.crossed(event).1 is Ok,
    ensures
        ({
            let after = selector.crossed(event).0;
            &&& !selector.closed
            &&& event matches BoundaryEvent::Begin { next, .. } ==> {
                &&& selector.tracker.open is None
                &&& next == selector.tracker.last_next + 1
                &&& after.tracker.open matches Some(call) && call.next == next && call.attempts == 0
                    && call.returned is None
                &&& after.tracker.state == selector.tracker.state
                &&& after.tracker.last_next == selector.tracker.last_next
                &&& !after.closed
            }
            &&& event matches BoundaryEvent::End { next, backend, error, .. } ==> {
                &&& selector.tracker.open matches Some(call) && call.next == next && (
                call.returned matches Some(returned) && returned.backend == backend
                    && returned.error == error) && after.tracker.state == call.working
                &&& after.tracker.open is None
                &&& after.tracker.last_next == next
                &&& !after.closed
            }
            &&& event matches BoundaryEvent::Close { next, .. } ==> {
                &&& selector.tracker.open is None
                &&& next == selector.tracker.last_next
                &&& after.tracker == selector.tracker
                &&& after.closed
                &&& after.settled()
            }
        }),
{
}

/// A refused boundary or attempt of an open selector is remembered as its
/// failure, and neither closes it nor completes a call.
pub proof fn law_refusals_are_remembered(
    selector: SelectionModel,
    event: BoundaryEvent,
    next: u64,
    ordinal: u8,
    excluded: Seq<u64>,
    derived: DerivedResult,
)
    requires
        !selector.closed,
    ensures
        selector.crossed(event).1 matches Err(reason) ==> {
            let after = selector.crossed(event).0;
            &&& after.tracker.failed is Some
            &&& selector.tracker.failed is None ==> after.tracker.failed == Some(reason)
            &&& !after.closed
            &&& after.tracker.state == selector.tracker.state
            &&& after.tracker.last_next == selector.tracker.last_next
        },
        selector.attempted(next, ordinal, excluded, derived).1 matches Err(reason) ==> {
            let after = selector.attempted(next, ordinal, excluded, derived).0;
            &&& after.tracker.failed is Some
            &&& selector.tracker.failed is None ==> after.tracker.failed == Some(reason)
            &&& !after.closed
            &&& after.tracker.state == selector.tracker.state
            &&& after.tracker.last_next == selector.tracker.last_next
        },
        !selector.settled(),
{
}

/// The first call of a selector that returns a backend leaves it as the only
/// excluded one and as the one that Finish must name.
#[verifier::rlimit(40)]
pub proof fn law_first_success_of_a_selector(
    begin: BoundaryEvent,
    seen: Seq<u64>,
    derived: DerivedResult,
    end: BoundaryEvent,
)
    requires
        begin is Begin,
        end is End,
        derived.error is Success,
        ({
            let opened = SelectionModel::initial().crossed(begin);
            let tried = opened.0.attempted(1, 1, seen, derived);
            &&& opened.1 is Ok
            &&& tried.1 is Ok
            &&& tried.0.crossed(end).1 is Ok
        }),
    ensures
        ({
            let opened = SelectionModel::initial().crossed(begin).0;
            let tried = opened.attempted(1, 1, seen, derived).0;
            let after = tried.crossed(end).0;
            &&& after.tracker.last_next == 1
            &&& after.tracker.state.excluded == seq![derived.backend]
            &&& after.tracker.state.current == derived.binding
            &&& forall|backend: u64|
                #[trigger] after.tracker.finish_refusal(backend) is None <==> backend
                    == derived.backend
        }),
{
    assert(Seq::<u64>::empty().push(derived.backend) =~= seq![derived.backend]);
}

/// An accepted attempt is of a declared session whose selector is there and open;
/// it changes that selector and no other.
pub proof fn law_attempts_are_of_their_selector(
    stage: StageModel,
    session: u64,
    next: u64,
    ordinal: u8,
    excluded: Seq<u64>,
    derived: DerivedResult,
    other: SelectorKey,
)
    requires
        stage.selector_attempt(session, next, ordinal, excluded, derived).1 is Ok,
    ensures
        ({
            let key = SelectorKey { epoch: stage.epoch, session };
            let after = stage.selector_attempt(session, next, ordinal, excluded, derived).0;
            let before = stage.staged.selectors[key];
            &&& stage.sessions.contains(session)
            &&& stage.staged.selectors.contains_key(key)
            &&& !before.closed
            &&& before.tracker.open matches Some(call) && call.next == next && ordinal
                == call.attempts + 1 && excluded == call.working.excluded
            &&& after.staged.selectors[key].tracker.open matches Some(call) && call.attempts
                == ordinal
            &&& other != key ==> {
                &&& after.staged.selectors.contains_key(other)
                    == stage.staged.selectors.contains_key(other)
                &&& stage.staged.selectors.contains_key(other) ==> after.staged.selectors[other]
                    == stage.staged.selectors[other]
            }
        }),
{
}

/// A group's route is bound to a selector's attempt only where it was compared and
/// saw as many exclusions as the selector remembers; the result is the route's.
pub proof fn law_bound_routes_saw_the_exclusions(
    stage: StageModel,
    e: route::Envelope,
    c: Computation,
    next: u64,
    ordinal: u8,
    excluded: Seq<u64>,
)
    requires
        stage.selector_route(e, c, next, ordinal, excluded).1 is Ok,
    ensures
        ({
            let derived = stage.selector_route(e, c, next, ordinal, excluded).1->Ok_0;
            let (compared, result) = stage.compare_route(e, c);
            &&& result == Ok::<DerivedResult, InvalidReason>(derived)
            &&& e.route.excluded_count == excluded.len()
            &&& compared.selector_attempt(e.route.session, next, ordinal, excluded, derived).1 is Ok
        }),
{
}

} // verus!
