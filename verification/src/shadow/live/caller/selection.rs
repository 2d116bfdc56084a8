//! Bounded Go BackendSelector.Next transitions. Inputs must be independently
//! derived routeOnce results, never the observed return values being checked.
//! This component has no factory, wire dispatch, ledger or effect capability.
use vstd::prelude::*;

use crate::charge;
use crate::shadow::{Epoch, InvalidReason};
use crate::slices;

verus! {

/// The exclusion limit is diagnostic only; Go must keep running on overflow.
pub const MAX_EXCLUDED: usize = 64;

/// Original reservation binding supplied by a verified routeOnce comparison.
#[derive(Clone, Copy, Debug, PartialEq, Eq, Structural)]
pub struct Binding {
    /// Backend incarnation, also used in the selector's exclusion history.
    pub account: u64,
    /// Group that accepted this reservation, not the router's later group.
    pub group: u64,
    /// Original reservation operation.
    pub operation: u64,
}

impl Default for Binding {
    fn default() -> (r: Self)
        ensures
            r == (Binding { account: 0, group: 0, operation: 0 }),
    {
        Binding { account: 0, group: 0, operation: 0 }
    }
}

impl Binding {
    /// Whether every identity is present.
    pub open spec fn complete(self) -> bool {
        self.account != 0 && self.group != 0 && self.operation != 0
    }

    fn valid(self) -> (r: bool)
        ensures
            r == self.complete(),
    {
        self.account != 0 && self.group != 0 && self.operation != 0
    }
}

/// Error equality as used by Next. Wrapped `ErrNoBackend` is Other, even though
/// the separate router refresh effect uses errors.Is. Error text is not input.
#[derive(Clone, Copy, Debug, PartialEq, Eq, Structural)]
pub enum ErrorClass {
    /// Successful call.
    Success,
    /// The exact `ErrNoBackend` singleton, regardless of its origin.
    NoBackend,
    /// Any other error, including a wrapper around `ErrNoBackend`.
    Other,
}

/// A result already derived by a routeOnce comparator. Error returns preserve
/// the backend value independently from the retained successful binding.
#[derive(Clone, Copy, Debug, PartialEq, Eq, Structural)]
pub struct DerivedResult {
    /// Backend returned by the call; zero denotes nil.
    pub backend: u64,
    /// Exact equality class of the returned error.
    pub error: ErrorClass,
    /// Present exactly for success, and bound to the returned account.
    pub binding: Option<Binding>,
}

impl DerivedResult {
    /// A success is bound to its backend; an error has no binding.
    pub open spec fn coherent(self) -> bool {
        match self.binding {
            Some(binding) => self.error is Success && binding.complete() && self.backend
                == binding.account,
            None => !(self.error is Success),
        }
    }

    fn valid(self) -> (r: bool)
        ensures
            r == self.coherent(),
    {
        match self.binding {
            Some(binding) => self.error == ErrorClass::Success && binding.valid() && self.backend
                == binding.account,
            None => self.error != ErrorClass::Success,
        }
    }
}

/// Output expected from the next source branch, not a routing command.
#[derive(Clone, Copy, Debug, PartialEq, Eq, Structural)]
pub enum Continue {
    /// Clear exclusions and execute exactly one further routeOnce call.
    Retry,
    /// Return the last call's actual backend/error.
    Return,
}

/// What a selector remembers between calls.
#[verifier::ext_equal]
pub struct Memory {
    /// Accounts that successful calls returned, in order.
    pub excluded: Seq<u64>,
    /// The binding of the last success.
    pub current: Option<Binding>,
}

impl Memory {
    /// The account of the last success, or zero.
    pub open spec fn account(self) -> u64 {
        match self.current {
            Some(binding) => binding.account,
            None => 0,
        }
    }

    /// Whether an attempt clears the exclusions and runs once more.
    pub open spec fn retries(self, ordinal: u8, derived: DerivedResult) -> bool {
        ordinal == 1 && derived.error is NoBackend && self.excluded.len() != 0
    }

    /// The memory after an attempt, or why the attempt cannot be remembered.
    pub open spec fn after(self, ordinal: u8, derived: DerivedResult) -> Result<
        Memory,
        InvalidReason,
    > {
        if self.retries(ordinal, derived) {
            Ok(Memory { excluded: Seq::empty(), ..self })
        } else if derived.error is Success {
            if self.excluded.len() == MAX_EXCLUDED {
                Err(InvalidReason::Capacity)
            } else {
                Ok(
                    Memory {
                        excluded: self.excluded.push(derived.backend),
                        current: derived.binding,
                    },
                )
            }
        } else {
            Ok(self)
        }
    }
}

/// One Next call that has begun.
#[verifier::ext_equal]
pub struct Call {
    /// The call's ordinal.
    pub next: u64,
    /// Attempts consumed.
    pub attempts: u8,
    /// The memory as the call sees it.
    pub working: Memory,
    /// What the call will return.
    pub returned: Option<DerivedResult>,
}

/// What [`Tracker`] holds.
#[verifier::ext_equal]
pub struct TrackerModel {
    /// The last completed call.
    pub last_next: u64,
    /// The memory that completed calls left.
    pub state: Memory,
    /// The call that is open.
    pub open: Option<Call>,
    /// The first failure.
    pub failed: Option<InvalidReason>,
}

impl TrackerModel {
    /// A selector before its first call.
    pub open spec fn initial() -> TrackerModel {
        TrackerModel {
            last_next: 0,
            state: Memory { excluded: Seq::empty(), current: None },
            open: None,
            failed: None,
        }
    }

    /// The exclusion lists keep their limit, and an open call has made at most
    /// two attempts.
    pub open spec fn wf(self) -> bool {
        &&& self.state.excluded.len() <= MAX_EXCLUDED
        &&& self.open matches Some(call) ==> call.working.excluded.len() <= MAX_EXCLUDED
            && call.attempts <= 2
    }

    /// The tracker after a failure: only the first one is kept.
    pub open spec fn poisoned(self, reason: InvalidReason) -> TrackerModel {
        match self.failed {
            Some(_) => self,
            None => TrackerModel { failed: Some(reason), ..self },
        }
    }

    /// Why a call cannot begin, if it cannot.
    pub open spec fn begin_refusal(self, next: u64, current: u64, excluded: Seq<u64>) -> Option<
        InvalidReason,
    > {
        if self.failed is Some {
            self.failed
        } else if self.open is Some {
            Some(InvalidReason::Lifecycle)
        } else if self.last_next + 1 != next {
            Some(InvalidReason::Sequence)
        } else if current != self.state.account() || excluded != self.state.excluded {
            Some(InvalidReason::Witness)
        } else {
            None
        }
    }

    /// The tracker after a call began.
    pub open spec fn begun(self, next: u64) -> TrackerModel {
        TrackerModel {
            open: Some(Call { next, attempts: 0, working: self.state, returned: None }),
            ..self
        }
    }

    /// Why an attempt is refused, if it is.
    pub open spec fn attempt_refusal(
        self,
        next: u64,
        ordinal: u8,
        excluded: Seq<u64>,
        derived: DerivedResult,
    ) -> Option<InvalidReason> {
        match (self.failed, self.open) {
            (Some(reason), _) => Some(reason),
            (None, None) => Some(InvalidReason::Lifecycle),
            (None, Some(call)) => if call.next != next {
                Some(InvalidReason::Identity)
            } else if call.returned is Some || ordinal != call.attempts + 1 || ordinal > 2 {
                Some(InvalidReason::Sequence)
            } else if excluded != call.working.excluded || !derived.coherent() {
                Some(InvalidReason::Witness)
            } else {
                match call.working.after(ordinal, derived) {
                    Err(reason) => Some(reason),
                    Ok(_) => None,
                }
            },
        }
    }

    /// The tracker after an attempt.
    pub open spec fn attempted(self, ordinal: u8, derived: DerivedResult) -> TrackerModel {
        let call = self.open->0;
        TrackerModel {
            open: Some(
                Call {
                    attempts: ordinal,
                    working: call.working.after(ordinal, derived)->Ok_0,
                    returned: if call.working.retries(ordinal, derived) {
                        call.returned
                    } else {
                        Some(derived)
                    },
                    ..call
                },
            ),
            ..self
        }
    }

    /// Why a call cannot end, if it cannot.
    pub open spec fn end_refusal(
        self,
        next: u64,
        backend: u64,
        error: ErrorClass,
        current: u64,
        excluded: Seq<u64>,
    ) -> Option<InvalidReason> {
        match (self.failed, self.open) {
            (Some(reason), _) => Some(reason),
            (None, None) => Some(InvalidReason::Lifecycle),
            (None, Some(call)) => if call.next != next {
                Some(InvalidReason::Identity)
            } else {
                match call.returned {
                    None => Some(InvalidReason::Lifecycle),
                    Some(returned) => if backend != returned.backend || error != returned.error
                        || current != call.working.account() || excluded
                        != call.working.excluded {
                        Some(InvalidReason::Witness)
                    } else {
                        None
                    },
                }
            },
        }
    }

    /// The tracker after a call ended.
    pub open spec fn ended(self) -> TrackerModel {
        TrackerModel {
            last_next: self.open->0.next,
            state: self.open->0.working,
            open: None,
            ..self
        }
    }

    /// Why a backend cannot be finished, if it cannot.
    pub open spec fn finish_refusal(self, backend: u64) -> Option<InvalidReason> {
        if self.failed is Some {
            self.failed
        } else if self.open is Some {
            Some(InvalidReason::Lifecycle)
        } else if self.state.current is None || self.state.account() != backend {
            Some(InvalidReason::Witness)
        } else {
            None
        }
    }

    /// Why the history is not complete, if it is not.
    pub open spec fn tail_refusal(self) -> Option<InvalidReason> {
        if self.failed is Some {
            self.failed
        } else if self.open is Some {
            Some(InvalidReason::Lifecycle)
        } else {
            None
        }
    }

    /// Why a selector cannot close, if it cannot.
    pub open spec fn close_refusal(self, next: u64, current: u64, excluded: Seq<u64>) -> Option<
        InvalidReason,
    > {
        if self.tail_refusal() is Some {
            self.tail_refusal()
        } else if next != self.last_next {
            Some(InvalidReason::Sequence)
        } else if current != self.state.account() || excluded != self.state.excluded {
            Some(InvalidReason::Witness)
        } else {
            None
        }
    }
}

struct State {
    excluded: [u64; 64],
    count: usize,
    current: Option<Binding>,
}

impl State {
    spec fn wf(self) -> bool {
        self.count <= MAX_EXCLUDED
    }

    spec fn memory(self) -> Memory {
        Memory { excluded: self.excluded@.take(self.count as int), current: self.current }
    }

    fn initial() -> (r: State)
        ensures
            r.wf(),
            r.memory() == TrackerModel::initial().state,
    {
        let r = State { excluded: [0u64; 64], count: 0, current: None };
        assert(r.memory().excluded =~= Seq::empty());
        r
    }

    fn copy(&self) -> (r: State)
        requires
            self.wf(),
        ensures
            r == *self,
    {
        State { excluded: self.excluded, count: self.count, current: self.current }
    }

    fn excluded(&self) -> (r: &[u64])
        requires
            self.wf(),
        ensures
            r@ == self.memory().excluded,
    {
        let all: &[u64] = &self.excluded;
        vstd::slice::slice_subrange(all, 0, self.count)
    }

    fn current(&self) -> (r: u64)
        ensures
            r == self.memory().account(),
    {
        match self.current {
            Some(binding) => binding.account,
            None => 0,
        }
    }
}

struct Open {
    next: u64,
    attempts: u8,
    working: State,
    returned: Option<DerivedResult>,
}

/// Fixed retained selector state and one open Next. All state changes are
/// staged until its completion witness matches. A failure is sticky and leaves
/// the last completed state intact. Integration must charge [`Tracker::charge`]
/// in shared R before retaining each instance, and feed only independently
/// checked attempts.
pub struct Tracker {
    last_next: u64,
    state: State,
    open: Option<Open>,
    failed: Option<InvalidReason>,
}

impl View for Tracker {
    type V = TrackerModel;

    closed spec fn view(&self) -> TrackerModel {
        TrackerModel {
            last_next: self.last_next,
            state: self.state.memory(),
            open: match self.open {
                Some(open) => Some(
                    Call {
                        next: open.next,
                        attempts: open.attempts,
                        working: open.working.memory(),
                        returned: open.returned,
                    },
                ),
                None => None,
            },
            failed: self.failed,
        }
    }
}

impl Default for Tracker {
    fn default() -> (r: Self)
        ensures
            r.wf(),
            r@ == TrackerModel::initial(),
    {
        Tracker { last_next: 0, state: State::initial(), open: None, failed: None }
    }
}

impl Tracker {
    /// The exclusion lists keep their limit.
    pub closed spec fn wf(&self) -> bool {
        &&& self.state.wf()
        &&& self.open matches Some(open) ==> open.working.wf() && open.attempts <= 2
    }

    /// Full fixed storage, including the temporary Next state and exclusion list.
    pub fn charge() -> (r: usize)
        ensures
            r == vstd::layout::size_of::<Tracker>(),
    {
        core::mem::size_of::<Tracker>()
    }

    /// An equal tracker.
    pub fn duplicate(&self) -> (r: Tracker)
        requires
            self.wf(),
        ensures
            r.wf(),
            r@ == self@,
    {
        Tracker {
            last_next: self.last_next,
            state: self.state.copy(),
            open: match &self.open {
                Some(open) => Some(
                    Open {
                        next: open.next,
                        attempts: open.attempts,
                        working: open.working.copy(),
                        returned: open.returned,
                    },
                ),
                None => None,
            },
            failed: self.failed,
        }
    }

    /// The last completed call.
    pub fn last_next(&self) -> (r: u64)
        ensures
            r == self@.last_next,
    {
        self.last_next
    }

    /// Last completed exclusion order. Duplicate accounts are not normalized:
    /// Go appends exactly what a successful call returned.
    pub fn excluded(&self) -> (r: &[u64])
        requires
            self.wf(),
        ensures
            r@ == self@.state.excluded,
    {
        self.state.excluded()
    }

    /// Original last-success binding; errors never overwrite it.
    pub fn current(&self) -> (r: Option<Binding>)
        ensures
            r == self@.state.current,
    {
        self.state.current
    }

    fn poison(&mut self, reason: InvalidReason)
        requires
            old(self).wf(),
        ensures
            final(self).wf(),
            final(self)@ == old(self)@.poisoned(reason),
    {
        if self.failed.is_none() {
            self.failed = Some(reason);
        }
    }

    /// Open one contiguous Next ordinal with the actual pre-call witnesses.
    pub fn begin(&mut self, next: u64, current: u64, excluded: &[u64]) -> (r: Result<
        (),
        InvalidReason,
    >)
        requires
            old(self).wf(),
        ensures
            final(self).wf(),
            match old(self)@.begin_refusal(next, current, excluded@) {
                Some(reason) => r == Err::<(), InvalidReason>(reason) && final(self)@ == old(
                    self,
                )@.poisoned(reason),
                None => r is Ok && final(self)@ == old(self)@.begun(next),
            },
    {
        let refusal = if self.failed.is_some() {
            self.failed
        } else if self.open.is_some() {
            Some(InvalidReason::Lifecycle)
        } else if self.last_next.checked_add(1) != Some(next) {
            Some(InvalidReason::Sequence)
        } else if current != self.state.current() || !slices::same(
            excluded,
            self.state.excluded(),
        ) {
            Some(InvalidReason::Witness)
        } else {
            None
        };
        if let Some(reason) = refusal {
            self.poison(reason);
            return Err(reason);
        }
        self.open = Some(
            Open { next, attempts: 0, working: self.state.copy(), returned: None },
        );
        Ok(())
    }

    /// Consume one independently derived attempt, checking its original input
    /// exclusions and ordinal. Two calls are allowed only for the exact first
    /// sentinel with nonempty exclusions; the second result never retries.
    pub fn attempt(
        &mut self,
        next: u64,
        ordinal: u8,
        excluded: &[u64],
        derived: DerivedResult,
    ) -> (r: Result<Continue, InvalidReason>)
        requires
            old(self).wf(),
        ensures
            final(self).wf(),
            match old(self)@.attempt_refusal(next, ordinal, excluded@, derived) {
                Some(reason) => r == Err::<Continue, InvalidReason>(reason) && final(self)@ == old(
                    self,
                )@.poisoned(reason),
                None => final(self)@ == old(self)@.attempted(ordinal, derived) && r == Ok::<
                    Continue,
                    InvalidReason,
                >(
                    if old(self)@.open->0.working.retries(ordinal, derived) {
                        Continue::Retry
                    } else {
                        Continue::Return
                    },
                ),
            },
    {
        let refusal = match (self.failed, &self.open) {
            (Some(reason), _) => Some(reason),
            (None, None) => Some(InvalidReason::Lifecycle),
            (None, Some(open)) => if open.next != next {
                Some(InvalidReason::Identity)
            } else if open.returned.is_some() || ordinal != open.attempts + 1 || ordinal > 2 {
                Some(InvalidReason::Sequence)
            } else if !slices::same(excluded, open.working.excluded()) || !derived.valid() {
                Some(InvalidReason::Witness)
            } else if derived.error == ErrorClass::Success && open.working.count == MAX_EXCLUDED {
                Some(InvalidReason::Capacity)
            } else {
                None
            },
        };
        if let Some(reason) = refusal {
            self.poison(reason);
            return Err(reason);
        }
        let ghost before = self@;
        let mut retry = false;
        if let Some(open) = &mut self.open {
            open.attempts = ordinal;
            if ordinal == 1 && derived.error == ErrorClass::NoBackend && open.working.count != 0 {
                retry = true;
                open.working.excluded = [0u64; 64];
                open.working.count = 0;
                assert(open.working.memory().excluded =~= Seq::empty());
            } else {
                if derived.error == ErrorClass::Success {
                    let ghost was = open.working.memory().excluded;
                    open.working.current = derived.binding;
                    open.working.excluded[open.working.count] = derived.backend;
                    open.working.count = open.working.count + 1;
                    assert(open.working.memory().excluded =~= was.push(derived.backend));
                }
                open.returned = Some(derived);
            }
        }
        assert(self@ =~= before.attempted(ordinal, derived));
        if retry {
            Ok(Continue::Retry)
        } else {
            Ok(Continue::Return)
        }
    }

    /// Compare the actual Next return and post-call state before committing.
    /// An ordinary error retains current/exclusions; an error after the single
    /// retry retains current but preserves the already-cleared exclusions.
    pub fn end(
        &mut self,
        next: u64,
        backend: u64,
        error: ErrorClass,
        current: u64,
        excluded: &[u64],
    ) -> (r: Result<(), InvalidReason>)
        requires
            old(self).wf(),
        ensures
            final(self).wf(),
            match old(self)@.end_refusal(next, backend, error, current, excluded@) {
                Some(reason) => r == Err::<(), InvalidReason>(reason) && final(self)@ == old(
                    self,
                )@.poisoned(reason),
                None => r is Ok && final(self)@ == old(self)@.ended(),
            },
    {
        let refusal = match (self.failed, &self.open) {
            (Some(reason), _) => Some(reason),
            (None, None) => Some(InvalidReason::Lifecycle),
            (None, Some(open)) => if open.next != next {
                Some(InvalidReason::Identity)
            } else {
                match open.returned {
                    None => Some(InvalidReason::Lifecycle),
                    Some(returned) => if backend != returned.backend || error != returned.error
                        || current != open.working.current() || !slices::same(
                        excluded,
                        open.working.excluded(),
                    ) {
                        Some(InvalidReason::Witness)
                    } else {
                        None
                    },
                }
            },
        };
        if let Some(reason) = refusal {
            self.poison(reason);
            return Err(reason);
        }
        if let Some(open) = self.open.take() {
            self.last_next = open.next;
            self.state = open.working;
        }
        Ok(())
    }

    /// Check the backend actually passed to Finish and return its original
    /// binding for the separate lifecycle comparator. This method creates no
    /// reservation/refund and does not validate Created or Close lifetimes.
    pub fn finish_binding(&mut self, backend: u64) -> (r: Result<Binding, InvalidReason>)
        requires
            old(self).wf(),
        ensures
            final(self).wf(),
            match old(self)@.finish_refusal(backend) {
                Some(reason) => r == Err::<Binding, InvalidReason>(reason) && final(self)@ == old(
                    self,
                )@.poisoned(reason),
                None => final(self)@ == old(self)@ && r == Ok::<Binding, InvalidReason>(
                    old(self)@.state.current->0,
                ),
            },
    {
        if let Some(reason) = self.failed {
            return Err(reason);
        }
        if self.open.is_some() {
            self.poison(InvalidReason::Lifecycle);
            return Err(InvalidReason::Lifecycle);
        }
        if let Some(binding) = self.state.current {
            if binding.account == backend {
                return Ok(binding);
            }
        }
        self.poison(InvalidReason::Witness);
        Err(InvalidReason::Witness)
    }

    /// Compare the state that a closing selector leaves. No call may be open.
    pub fn close_witness(&mut self, next: u64, current: u64, excluded: &[u64]) -> (r: Result<
        (),
        InvalidReason,
    >)
        requires
            old(self).wf(),
        ensures
            final(self).wf(),
            match old(self)@.close_refusal(next, current, excluded@) {
                Some(reason) => r == Err::<(), InvalidReason>(reason) && final(self)@ == old(
                    self,
                )@.poisoned(reason),
                None => r is Ok && final(self)@ == old(self)@,
            },
    {
        let refusal = if self.failed.is_some() {
            self.failed
        } else if self.open.is_some() {
            Some(InvalidReason::Lifecycle)
        } else if next != self.last_next {
            Some(InvalidReason::Sequence)
        } else if current != self.state.current() || !slices::same(
            excluded,
            self.state.excluded(),
        ) {
            Some(InvalidReason::Witness)
        } else {
            None
        };
        if let Some(reason) = refusal {
            self.poison(reason);
            return Err(reason);
        }
        Ok(())
    }

    /// A final compared tail cannot contain an unfinished Next.
    pub fn tail(&self) -> (r: Result<(), InvalidReason>)
        ensures
            match self@.tail_refusal() {
                Some(reason) => r == Err::<(), InvalidReason>(reason),
                None => r is Ok,
            },
    {
        if let Some(reason) = self.failed {
            return Err(reason);
        }
        if self.open.is_some() {
            Err(InvalidReason::Lifecycle)
        } else {
            Ok(())
        }
    }
}

/// A real selector entry, return or end.
#[derive(Clone, Debug)]
pub struct Boundary {
    /// Owner incarnation.
    pub epoch: Epoch,
    /// Exactly one contiguous sequence point.
    pub sequence: u64,
    /// Selector session.
    pub session: u64,
    /// What the selector did.
    pub event: BoundaryEvent,
}

/// A selector boundary and the state that Go observed there.
#[derive(Clone, Debug)]
pub enum BoundaryEvent {
    /// Next was entered.
    Begin {
        /// The call's ordinal.
        next: u64,
        /// The account of the last success, or zero.
        current: u64,
        /// The exclusion order before the call.
        excluded: Vec<u64>,
    },
    /// Next returned.
    End {
        /// The call's ordinal.
        next: u64,
        /// The account of the last success, or zero.
        current: u64,
        /// The exclusion order after the call.
        excluded: Vec<u64>,
        /// The returned backend, or zero.
        backend: u64,
        /// The returned error.
        error: ErrorClass,
    },
    /// The selector ended.
    Close {
        /// The last call's ordinal.
        next: u64,
        /// The account of the last success, or zero.
        current: u64,
        /// The exclusion order at the end.
        excluded: Vec<u64>,
    },
}

impl BoundaryEvent {
    /// The exclusion order that Go observed.
    pub open spec fn exclusions(self) -> Seq<u64> {
        match self {
            BoundaryEvent::Begin { excluded, .. } => excluded@,
            BoundaryEvent::End { excluded, .. } => excluded@,
            BoundaryEvent::Close { excluded, .. } => excluded@,
        }
    }
}

impl Boundary {
    /// Why the boundary has no valid shape, if it has none.
    pub open spec fn shape_refusal(self) -> Option<InvalidReason> {
        if self.epoch.process == 0 || self.epoch.owner == 0 || self.epoch.nonce == 0
            || self.sequence == 0 || self.session == 0 {
            Some(InvalidReason::Identity)
        } else if self.event.exclusions().len() > MAX_EXCLUDED {
            Some(InvalidReason::Capacity)
        } else {
            None
        }
    }

    /// Validate the fixed shape before opening the affected-view stage.
    pub fn validate(&self) -> (r: Result<(), InvalidReason>)
        ensures
            match self.shape_refusal() {
                Some(reason) => r == Err::<(), InvalidReason>(reason),
                None => r is Ok,
            },
    {
        if self.epoch.process == 0 || self.epoch.owner == 0 || self.epoch.nonce == 0
            || self.sequence == 0 || self.session == 0 {
            return Err(InvalidReason::Identity);
        }
        let length: usize = match &self.event {
            BoundaryEvent::Begin { excluded, .. } => excluded.len(),
            BoundaryEvent::End { excluded, .. } => excluded.len(),
            BoundaryEvent::Close { excluded, .. } => excluded.len(),
        };
        if length > MAX_EXCLUDED {
            Err(InvalidReason::Capacity)
        } else {
            Ok(())
        }
    }
}

/// A failure is permanent: every later operation repeats the first reason and
/// changes nothing.
pub proof fn law_failure_is_sticky(
    t: TrackerModel,
    next: u64,
    ordinal: u8,
    backend: u64,
    error: ErrorClass,
    current: u64,
    excluded: Seq<u64>,
    derived: DerivedResult,
)
    requires
        t.failed is Some,
    ensures
        t.begin_refusal(next, current, excluded) == t.failed,
        t.attempt_refusal(next, ordinal, excluded, derived) == t.failed,
        t.end_refusal(next, backend, error, current, excluded) == t.failed,
        t.finish_refusal(backend) == t.failed,
        t.close_refusal(next, current, excluded) == t.failed,
        t.tail_refusal() == t.failed,
        t.poisoned(t.failed->0) == t,
{
}

/// Nothing but the end of a call commits: beginning, attempting and failing
/// leave the last completed call and its memory in place.
pub proof fn law_only_end_commits(
    t: TrackerModel,
    next: u64,
    ordinal: u8,
    derived: DerivedResult,
    reason: InvalidReason,
)
    ensures
        t.begun(next).state == t.state,
        t.begun(next).last_next == t.last_next,
        t.attempted(ordinal, derived).state == t.state,
        t.attempted(ordinal, derived).last_next == t.last_next,
        t.poisoned(reason).state == t.state,
        t.poisoned(reason).last_next == t.last_next,
{
}

/// A second attempt never retries, so a call makes at most two.
pub proof fn law_second_attempt_returns(
    t: TrackerModel,
    next: u64,
    first: DerivedResult,
    second: DerivedResult,
    excluded: Seq<u64>,
)
    requires
        t.open is Some,
        t.failed is None,
        t.attempt_refusal(next, 1, excluded, first) is None,
        t.attempted(1, first).attempt_refusal(next, 2, Seq::empty(), second) is None,
    ensures
        t.open->0.working.retries(1, first),
        t.attempted(1, first).attempted(2, second).open->0.returned == Some(second),
        forall|third: DerivedResult, ordinal: u8, list: Seq<u64>|
            #[trigger]
            t.attempted(1, first).attempted(2, second).attempt_refusal(
                next,
                ordinal,
                list,
                third,
            ) == Some(InvalidReason::Sequence),
{
}

/// A call that returns an error keeps the binding of the last success.
pub proof fn law_errors_keep_current(memory: Memory, ordinal: u8, derived: DerivedResult)
    requires
        !(derived.error is Success),
    ensures
        memory.after(ordinal, derived) matches Ok(next) && next.current == memory.current,
{
}

/// The retained state of one selector.
pub struct StoredSelection {
    /// Its calls.
    pub tracker: Box<Tracker>,
    /// It has explicitly closed.
    pub closed: bool,
}

/// What [`StoredSelection`] holds.
#[verifier::ext_equal]
pub struct SelectionModel {
    /// Its calls.
    pub tracker: TrackerModel,
    /// It has explicitly closed.
    pub closed: bool,
}

impl View for StoredSelection {
    type V = SelectionModel;

    open spec fn view(&self) -> SelectionModel {
        SelectionModel { tracker: self.tracker@, closed: self.closed }
    }
}

impl SelectionModel {
    /// A selector before its first call.
    pub open spec fn initial() -> SelectionModel {
        SelectionModel { tracker: TrackerModel::initial(), closed: false }
    }
}

/// The retained bytes of one selector: its tracker and its map entry.
pub open spec fn stored_bytes() -> nat {
    let entry = charge::node_bytes::<(Epoch, u64, StoredSelection)>();
    if entry + vstd::layout::size_of::<Tracker>() > usize::MAX {
        usize::MAX as nat
    } else {
        entry + vstd::layout::size_of::<Tracker>()
    }
}

impl StoredSelection {
    /// The tracker keeps its limits.
    pub open spec fn wf(&self) -> bool {
        self.tracker.wf()
    }

    /// The retained bytes of one selector.
    pub fn charge() -> (r: usize)
        ensures
            r == stored_bytes(),
    {
        charge::node_charge::<(Epoch, u64, StoredSelection)>().saturating_add(Tracker::charge())
    }

    /// A selector before its first call.
    pub fn initial() -> (r: StoredSelection)
        ensures
            r.wf(),
            r@ == SelectionModel::initial(),
    {
        StoredSelection { tracker: Box::new(Tracker::default()), closed: false }
    }

    /// An equal selector.
    pub fn duplicate(&self) -> (r: StoredSelection)
        requires
            self.wf(),
        ensures
            r.wf(),
            r@ == self@,
    {
        StoredSelection { tracker: Box::new(self.tracker.duplicate()), closed: self.closed }
    }
}

/// A call begins exactly where nothing failed, no call is open, its ordinal is
/// the next one and what Go saw before it is what the last completed call left.
pub proof fn law_calls_begin_where_the_last_ended(
    t: TrackerModel,
    next: u64,
    current: u64,
    excluded: Seq<u64>,
)
    ensures
        t.begin_refusal(next, current, excluded) is None <==> {
            &&& t.failed is None
            &&& t.open is None
            &&& next == t.last_next + 1
            &&& excluded == t.state.excluded
            &&& t.state.current is None ==> current == 0
            &&& t.state.current matches Some(binding) ==> current == binding.account
        },
        t.failed is None ==> t.begun(next).failed is None,
{
}

/// A call whose first attempt succeeds excludes the returned backend after all
/// earlier ones and makes its binding the current one; nothing else can be
/// reported of it.
pub proof fn law_success_is_remembered(
    t: TrackerModel,
    next: u64,
    first: DerivedResult,
    seen: Seq<u64>,
    backend: u64,
    error: ErrorClass,
    current: u64,
    excluded: Seq<u64>,
)
    requires
        t.begun(next).attempt_refusal(next, 1, seen, first) is None,
        first.error is Success,
    ensures
        seen == t.state.excluded,
        first.binding matches Some(binding) && binding.account == first.backend && binding.account
            != 0 && binding.group != 0 && binding.operation != 0,
        ({
            let after = t.begun(next).attempted(1, first);
            &&& after.end_refusal(next, backend, error, current, excluded) is None <==> {
                &&& backend == first.backend
                &&& error is Success
                &&& current == first.backend
                &&& excluded == t.state.excluded.push(first.backend)
            }
            &&& after.ended().state.excluded == t.state.excluded.push(first.backend)
            &&& after.ended().state.current == first.binding
            &&& after.ended().last_next == next
            &&& after.ended().open is None
        }),
{
}

/// A first attempt that finds no backend runs once more where something was
/// excluded, with nothing excluded; until then the call cannot end.
pub proof fn law_exhausted_exclusions_are_cleared_once(
    t: TrackerModel,
    next: u64,
    first: DerivedResult,
    second: DerivedResult,
    seen: Seq<u64>,
    again: Seq<u64>,
    backend: u64,
    error: ErrorClass,
    current: u64,
    excluded: Seq<u64>,
)
    requires
        t.begun(next).attempt_refusal(next, 1, seen, first) is None,
        first.error is NoBackend,
        t.state.excluded.len() != 0,
    ensures
        ({
            let once = t.begun(next).attempted(1, first);
            let twice = once.attempted(2, second);
            &&& once.end_refusal(next, backend, error, current, excluded) is Some
            &&& once.attempt_refusal(next, 2, again, second) is None <==> again.len() == 0
                && second.coherent()
            &&& once.attempt_refusal(next, 2, again, second) is None ==> {
                &&& twice.open->0.returned == Some(second)
                &&& second.error is Success ==> {
                    &&& twice.ended().state.excluded == seq![second.backend]
                    &&& twice.ended().state.current == second.binding
                }
                &&& !(second.error is Success) ==> {
                    &&& twice.ended().state.excluded.len() == 0
                    &&& twice.ended().state.current == t.state.current
                }
            }
        }),
{
    let once = t.begun(next).attempted(1, first);
    let twice = once.attempted(2, second);
    assert(once.open->0.working.excluded == Seq::<u64>::empty());
    if again.len() == 0 {
        assert(again =~= Seq::<u64>::empty());
    }
    if second.error is Success {
        assert(Seq::<u64>::empty().push(second.backend) =~= seq![second.backend]);
    }
}

/// Any other error returns at once and leaves the memory as it was.
pub proof fn law_other_errors_return(
    t: TrackerModel,
    next: u64,
    first: DerivedResult,
    seen: Seq<u64>,
    backend: u64,
    error: ErrorClass,
    current: u64,
    excluded: Seq<u64>,
)
    requires
        t.begun(next).attempt_refusal(next, 1, seen, first) is None,
        first.error is Other || (first.error is NoBackend && t.state.excluded.len() == 0),
    ensures
        ({
            let after = t.begun(next).attempted(1, first);
            &&& after.ended().state == t.state
            &&& after.ended().last_next == next
            &&& after.end_refusal(next, backend, error, current, excluded) is None ==> {
                &&& backend == first.backend
                &&& error == first.error
                &&& excluded == t.state.excluded
            }
            &&& after.end_refusal(next, first.backend, first.error, t.state.account(), t.state.excluded)
                is None
        }),
{
}

/// The first attempt of a call that has begun is taken exactly where it is
/// numbered one, names the call, saw the remembered exclusions and is coherent,
/// and a success still has room to be excluded.
pub proof fn law_first_attempts(
    t: TrackerModel,
    next: u64,
    named: u64,
    ordinal: u8,
    seen: Seq<u64>,
    first: DerivedResult,
)
    requires
        t.failed is None,
    ensures
        t.begun(next).attempt_refusal(named, ordinal, seen, first) is None <==> {
            &&& named == next
            &&& ordinal == 1
            &&& seen == t.state.excluded
            &&& first.error is Success <==> first.binding is Some
            &&& first.binding matches Some(binding) ==> {
                &&& binding.account == first.backend
                &&& binding.account != 0
                &&& binding.group != 0
                &&& binding.operation != 0
                &&& t.state.excluded.len() != MAX_EXCLUDED
            }
        },
{
}

/// A backend is finished exactly where no call is open and it is the one that
/// the last success returned; a selector closes exactly as the last completed
/// call left it, and its history is complete exactly where nothing is open.
pub proof fn law_finishes_and_closes_follow_completed_calls(
    t: TrackerModel,
    backend: u64,
    next: u64,
    current: u64,
    excluded: Seq<u64>,
)
    requires
        t.failed is None,
    ensures
        t.finish_refusal(backend) is None <==> t.open is None && (t.state.current matches Some(
            binding,
        ) && binding.account == backend),
        t.close_refusal(next, current, excluded) is None <==> {
            &&& t.open is None
            &&& next == t.last_next
            &&& excluded == t.state.excluded
            &&& t.state.current is None ==> current == 0
            &&& t.state.current matches Some(binding) ==> current == binding.account
        },
        t.tail_refusal() is None <==> t.open is None,
{
}

/// A call that names another ordinal than the open one, and any attempt or end
/// without an open call, is refused; the first failure stays.
pub proof fn law_strays_are_refused(
    t: TrackerModel,
    next: u64,
    ordinal: u8,
    seen: Seq<u64>,
    derived: DerivedResult,
    backend: u64,
    error: ErrorClass,
    current: u64,
    reason: InvalidReason,
)
    requires
        t.open is None || t.open->0.next != next,
    ensures
        t.attempt_refusal(next, ordinal, seen, derived) is Some,
        t.end_refusal(next, backend, error, current, seen) is Some,
        t.poisoned(reason).failed is Some,
        t.failed is None ==> t.poisoned(reason).failed == Some(reason),
{
}

/// A tracker that is called at a boundary or with an attempt goes on exactly where
/// nothing refuses it, and what refuses it is remembered. Only a call that ends is
/// committed.
pub proof fn law_calls_are_tracked(
    beginning: &mut Tracker,
    next: u64,
    current: u64,
    excluded: &[u64],
    begun: Result<(), InvalidReason>,
    trying: &mut Tracker,
    ordinal: u8,
    derived: DerivedResult,
    tried: Result<Continue, InvalidReason>,
    ending: &mut Tracker,
    backend: u64,
    error: ErrorClass,
    ended: Result<(), InvalidReason>,
)
    requires
        call_ensures(Tracker::begin, (beginning, next, current, excluded), begun),
        call_ensures(Tracker::attempt, (trying, next, ordinal, excluded, derived), tried),
        call_ensures(Tracker::end, (ending, next, backend, error, current, excluded), ended),
    ensures
        begun is Ok <==> old(beginning)@.begin_refusal(next, current, excluded@) is None,
        begun is Ok ==> final(beginning)@ == old(beginning)@.begun(next),
        begun is Err ==> final(beginning)@.failed is Some && final(beginning)@.state
            == old(beginning)@.state && final(beginning)@.last_next == old(beginning)@.last_next,
        tried is Ok <==> old(trying)@.attempt_refusal(next, ordinal, excluded@, derived) is None,
        tried is Ok ==> final(trying)@ == old(trying)@.attempted(ordinal, derived) && (tried->Ok_0
            is Retry <==> final(trying)@.open->0.returned is None),
        tried is Err ==> final(trying)@.failed is Some && final(trying)@.state
            == old(trying)@.state && final(trying)@.last_next == old(trying)@.last_next,
        ended is Ok <==> old(ending)@.end_refusal(next, backend, error, current, excluded@) is None,
        ended is Ok ==> final(ending)@ == old(ending)@.ended(),
        ended is Err ==> final(ending)@.failed is Some && final(ending)@.state
            == old(ending)@.state && final(ending)@.last_next == old(ending)@.last_next,
{
}

} // verus!
