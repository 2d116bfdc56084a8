//! Group Finish, its selector binding and its Created child, compared together.
use vstd::prelude::*;

use super::{Scope, ScopeModel, Stage, StageModel};
use crate::shadow::live::caller::selection::{Binding, SelectionModel};
use crate::shadow::live::{Batch, LiveEvent, LiveModel, LiveState, SelectorKey};
use crate::shadow::{Epoch, Event, InvalidReason, Progress, Status};

verus! {

/// Actual Group Finish arguments and the complete Created child. Captured
/// arguments are witnesses; the retained selector and ledger supply authority.
#[derive(Clone, Debug)]
pub struct Envelope {
    /// Owner incarnation shared with the child.
    pub epoch: Epoch,
    /// Created sequence, followed by the caller comparison.
    pub sequence: u64,
    /// Exactly one Created plus one final comparison.
    pub span: u64,
    /// Nonzero actual caller identity.
    pub caller: u64,
    /// Actual Group being entered.
    pub group: u64,
    /// Original selector session.
    pub session: u64,
    /// Actual backend passed to Finish, without rereading a getter.
    pub backend: u64,
    /// Original reservation operation captured before Created changes state.
    pub operation: u64,
    /// Actual connection creation outcome.
    pub success: bool,
    /// Complete existing lifecycle body, including before/after witnesses.
    pub created: Batch,
}

/// The Created event that a mutation consists of, if it consists of one.
pub open spec fn created_event(batch: Batch) -> Option<Event> {
    if batch.events@.len() == 1 {
        match batch.events@[0] {
            LiveEvent::Lifecycle { event, .. } => if event is Created {
                Some(event)
            } else {
                None
            },
            _ => None,
        }
    } else {
        None
    }
}

fn only_created(batch: &Batch) -> (r: Option<Event>)
    ensures
        r == created_event(*batch),
{
    if batch.events.len() != 1 {
        return None;
    }
    match batch.events[0] {
        LiveEvent::Lifecycle { event, .. } => match event {
            Event::Created { .. } => Some(event),
            _ => None,
        },
        _ => None,
    }
}

impl Envelope {
    /// Why the envelope's shape is refused, if it is.
    pub open spec fn shape_refusal(self) -> Option<InvalidReason> {
        if self.epoch.process == 0 || self.epoch.owner == 0 || self.epoch.nonce == 0
            || self.sequence == 0 || self.caller == 0 || self.group == 0 || self.session == 0
            || self.backend == 0 || self.operation == 0 || self.created.epoch != self.epoch
            || self.created.sequence != self.sequence {
            Some(InvalidReason::Identity)
        } else if self.span != 2 || self.sequence == u64::MAX
            || self.created.witness.accounts@.len() != 1 || created_event(self.created) is None {
            Some(InvalidReason::Witness)
        } else {
            None
        }
    }

    /// Validate fixed envelope shape before opening the affected-view stage.
    ///
    /// # Errors
    /// Rejects foreign, non-contiguous or non-Created children and invalid IDs.
    pub fn validate(&self) -> (r: Result<(), InvalidReason>)
        ensures
            r == (match self.shape_refusal() {
                Some(reason) => Err::<(), InvalidReason>(reason),
                None => Ok(()),
            }),
    {
        if self.epoch.process == 0 || self.epoch.owner == 0 || self.epoch.nonce == 0
            || self.sequence == 0 || self.caller == 0 || self.group == 0 || self.session == 0
            || self.backend == 0 || self.operation == 0 || self.created.epoch != self.epoch
            || self.created.sequence != self.sequence {
            return Err(InvalidReason::Identity);
        }
        if self.span != 2 || self.sequence == u64::MAX || self.created.witness.accounts.len() != 1
            || only_created(&self.created).is_none() {
            return Err(InvalidReason::Witness);
        }
        Ok(())
    }

    /// The scope that the envelope is compared in.
    pub open spec fn scope(self, frame_bytes: usize) -> ScopeModel {
        ScopeModel {
            epoch: self.epoch,
            group: self.group,
            sequence: self.sequence,
            span: self.span,
            sessions: seq![self.session],
            frame_bytes,
        }
    }

    /// Whether the captured arguments are those of the selector's binding and
    /// of the Created child.
    pub open spec fn bound_to(self, binding: Binding) -> bool {
        &&& binding.group == self.group
        &&& binding.operation == self.operation
        &&& binding.account == self.created.witness.accounts@[0].id
        &&& created_event(self.created) == Some(
            Event::Created {
                session: self.session,
                operation: self.operation,
                success: self.success,
            },
        )
    }
}

impl StageModel {
    /// The stage after Finish was compared: the selector's binding, the Created
    /// child and, only then, the caller's own arguments.
    pub open spec fn compare_finish(self, e: Envelope) -> (StageModel, Result<(), InvalidReason>) {
        let key = SelectorKey { epoch: self.epoch, session: e.session };
        if !self.staged.selectors.contains_key(key) || self.staged.selectors[key].closed {
            (self, Err(InvalidReason::Lifecycle))
        } else {
            let selector = self.staged.selectors[key];
            match selector.tracker.finish_refusal(e.backend) {
                Some(reason) => (
                    self.with_selector(
                        key,
                        SelectionModel { tracker: selector.tracker.poisoned(reason), ..selector },
                    ),
                    Err(reason),
                ),
                None => match self.batch(e.created) {
                    (next, Err(reason)) => (next, Err(reason)),
                    (next, Ok(_)) => if e.bound_to(selector.tracker.state.current->0) {
                        (next, Ok(()))
                    } else {
                        (next, Err(InvalidReason::Witness))
                    },
                },
            }
        }
    }
}

impl<'a> Stage<'a> {
    /// Compare Finish with the retained selector and the Created child.
    ///
    /// # Errors
    /// Any mismatch of binding, child or arguments.
    fn compare_finish(&mut self, e: &Envelope) -> (r: Result<(), InvalidReason>)
        requires
            old(self).wf(),
            e.shape_refusal() is None,
        ensures
            final(self).wf(),
            (final(self).model(), r) == old(self).model().compare_finish(*e),
            *final(final(self).original) == *final(old(self).original),
    {
        let ghost before = self.model();
        let key = SelectorKey { epoch: self.epoch, session: e.session };
        let binding = match self.staged.selectors.get_mut(key) {
            Some(stored) => {
                if stored.closed {
                    Err(InvalidReason::Lifecycle)
                } else {
                    stored.tracker.finish_binding(e.backend)
                }
            },
            None => Err(InvalidReason::Lifecycle),
        };
        proof {
            if !before.staged.selectors.contains_key(key) {
                assert(self.model() =~= before);
            } else if before.staged.selectors[key].closed {
                assert(self.model().staged.selectors =~= before.staged.selectors);
                assert(self.model() =~= before);
            } else {
                let selector = before.staged.selectors[key];
                match selector.tracker.finish_refusal(e.backend) {
                    Some(reason) => {
                        let expected = before.compare_finish(*e).0;
                        assert(self.model().staged =~= expected.staged);
                        assert(self.model() =~= expected);
                    },
                    None => {
                        assert(self.model().staged.selectors =~= before.staged.selectors);
                        assert(self.model() =~= before);
                    },
                }
            }
            assert(self.model().sound());
        }
        let binding = match binding {
            Ok(binding) => binding,
            Err(reason) => return Err(reason),
        };
        if let Err(reason) = self.batch(&e.created) {
            return Err(reason);
        }
        // The caller's identity bindings are checked after the real child
        // comparison: a failure here discards the staged refund/attachment.
        let bound = match only_created(&e.created) {
            Some(Event::Created { session, operation, success }) => session == e.session
                && operation == e.operation && success == e.success,
            _ => false,
        };
        if binding.group != e.group || binding.operation != e.operation || binding.account
            != e.created.witness.accounts[0].id || !bound {
            return Err(InvalidReason::Witness);
        }
        Ok(())
    }
}

impl LiveModel {
    /// The state after a well-formed Finish was compared, and its result.
    pub open spec fn finish_observed(
        self,
        e: Envelope,
        frame_bytes: usize,
        copy: Result<usize, InvalidReason>,
    ) -> (LiveModel, Progress) {
        match self.plan(e.scope(frame_bytes), copy) {
            Err(reason) => self.unentered(e.epoch, reason),
            Ok(plan) => {
                let (stage, result) = self.staged(e.scope(frame_bytes), plan).compare_finish(e);
                stage.concluded(result)
            },
        }
    }
}

impl LiveState {
    /// Compare and commit Finish, selector binding and Created atomically.
    /// No lifecycle child can escape a rejected final caller comparison.
    pub fn observe_selector_finish(&mut self, envelope: &Envelope, frame_bytes: usize) -> (r: Progress)
        requires
            old(self).wf(),
            old(self).model().accounted(),
        ensures
            final(self).wf(),
            final(self).model().accounted(),
            envelope.shape_refusal() matches Some(reason) ==> (final(self).model(), r) == old(
                self,
            ).model().malformed(envelope.epoch, reason),
            envelope.shape_refusal() is None ==> exists|copy: Result<usize, InvalidReason>|
                #[trigger] old(self).model().may_copy(envelope.scope(frame_bytes), copy) && (
                final(self).model(),
                r,
            ) == old(self).model().finish_observed(*envelope, frame_bytes, copy),
    {
        if let Err(reason) = envelope.validate() {
            return self.invalidate(envelope.epoch, reason);
        }
        let previous = self.progress(envelope.epoch).compared_sequence;
        let sessions: [u64; 1] = [envelope.session];
        let scope = Scope {
            epoch: envelope.epoch,
            group: envelope.group,
            sequence: envelope.sequence,
            span: envelope.span,
            sessions: &sessions,
            frame_bytes,
        };
        assert(scope@ =~= envelope.scope(frame_bytes)) by {
            assert(scope.sessions@ =~= seq![envelope.session]);
        }
        match self.begin_caller(scope) {
            Ok(mut stage) => {
                let comparison = stage.compare_finish(envelope);
                stage.finish(comparison)
            },
            Err(reason) => Progress {
                status: Status::Invalid(reason),
                compared_sequence: previous,
                transition: None,
            },
        }
    }
}

/// An accepted Finish is of an open selector between calls. Its backend, group and
/// operation are those of the selector's last success, and its one Created child
/// is of the same session, operation and outcome and of that backend.
#[verifier::rlimit(40)]
pub proof fn law_finishes_settle_the_last_success(stage: StageModel, e: Envelope)
    requires
        e.shape_refusal() is None,
        stage.compare_finish(e).1 is Ok,
    ensures
        ({
            let key = SelectorKey { epoch: stage.epoch, session: e.session };
            let selector = stage.staged.selectors[key];
            &&& stage.staged.selectors.contains_key(key)
            &&& !selector.closed
            &&& selector.tracker.open is None
            &&& selector.tracker.failed is None
            &&& selector.tracker.state.current == Some(
                Binding { account: e.backend, group: e.group, operation: e.operation },
            )
            &&& e.created.events@.len() == 1
            &&& e.created.events@[0] matches LiveEvent::Lifecycle { event, .. } && event
                == (Event::Created {
                session: e.session,
                operation: e.operation,
                success: e.success,
            })
            &&& e.created.witness.accounts@.len() == 1
            &&& e.created.witness.accounts@[0].id == e.backend
            &&& e.created.sequence == e.sequence
            &&& e.created.epoch == e.epoch
            &&& e.span == 2
            &&& stage.compare_finish(e).0 == stage.batch(e.created).0
        }),
{
}

/// A Finish of the selector's last success is accepted wherever its Created child
/// names it and is compared.
#[verifier::rlimit(40)]
pub proof fn law_matching_finishes_are_accepted(stage: StageModel, e: Envelope)
    requires
        ({
            let key = SelectorKey { epoch: stage.epoch, session: e.session };
            let selector = stage.staged.selectors[key];
            &&& stage.staged.selectors.contains_key(key)
            &&& !selector.closed
            &&& selector.tracker.open is None
            &&& selector.tracker.failed is None
            &&& selector.tracker.state.current == Some(
                Binding { account: e.backend, group: e.group, operation: e.operation },
            )
        }),
        e.created.events@.len() == 1,
        (e.created.events@[0] matches LiveEvent::Lifecycle { event, .. } && event
            == (Event::Created {
            session: e.session,
            operation: e.operation,
            success: e.success,
        })),
        e.created.witness.accounts@.len() == 1,
        e.created.witness.accounts@[0].id == e.backend,
    ensures
        stage.compare_finish(e).1 is Ok <==> stage.batch(e.created).1 is Ok,
{
}

} // verus!
