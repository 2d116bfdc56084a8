//! Actual router reads and Group/selector comparison in one caller transaction.
use vstd::prelude::*;

use super::metadata::state;
use super::metadata::tracker::{Tracker, TrackerModel};
use super::metadata::{Classification, Rule};
use super::route;
use super::selection::{DerivedResult, ErrorClass};
use super::{Scope, ScopeModel, Stage, StageModel};
use crate::shadow::live::{Batch, LiveEvent, LiveModel, LiveState};
use crate::shadow::native_compute::Computation;
use crate::shadow::{Epoch, InvalidReason, Progress, Status};
use crate::{slices, texts};

verus! {

/// One actual Group match; absence of an address means no String read occurred.
#[derive(Clone, Debug)]
pub struct MatchRead {
    /// Visited Group identity, in the retained router order.
    pub group: u64,
    /// Exact original String result, at most 512 bytes; nil is not an empty string.
    pub address: Option<String>,
    /// Go return witness; the match is derived independently.
    pub matched: bool,
}

/// Original router-lock reads preceding the nested Group call or rejection.
#[derive(Clone, Debug)]
pub struct Prefix {
    /// Caller identity shared by the Group child.
    pub caller: u64,
    /// Last complete metadata generation seen under the router lock.
    pub generation: u64,
    /// Actual sequential selector identity and invocation number.
    pub session: u64,
    /// Actual Next ordinal.
    pub next: u64,
    /// First or second routeOnce invocation of Next.
    pub attempt: u8,
    /// Router rule, checked against independent metadata.
    pub rule: Rule,
    /// Exact error equality class at the original observer-error branch.
    pub observer_error: ErrorClass,
    /// Full router group order; never an inventory seed.
    pub groups: Vec<u64>,
    /// Actual exclusion identities, checked against the retained selector.
    pub excluded: Vec<u64>,
    /// Whether the port branch was visited.
    pub port_visited: bool,
    /// Whether the detector existed at that branch.
    pub detector_present: bool,
    /// Listener read only when the detector exists.
    pub listener: Option<String>,
    /// Actual visited prefix with a distinct address read for every Group.
    pub reads: Vec<MatchRead>,
    /// Actual selected Group; zero on a router-only error/rejection.
    pub target: u64,
    /// Actual returned backend identity.
    pub backend: u64,
    /// Actual final routeOnce error class.
    pub error: ErrorClass,
}

/// Complete child path, owned by the same original parent lease.
#[derive(Clone, Debug)]
pub enum Path {
    /// Complete existing `GroupRoute` body; no independent commit is allowed.
    Group(Box<route::Envelope>),
    /// Original router-only `RouteRejected` batch.
    Rejected(Batch),
}

/// One complete router attempt. No production routing capability is installed.
#[derive(Clone, Debug)]
pub struct Envelope {
    /// Immutable owner identity.
    pub epoch: Epoch,
    /// First child sequence.
    pub sequence: u64,
    /// All children and the single final caller check.
    pub span: u64,
    /// Original router reads and final witnesses.
    pub prefix: Prefix,
    /// Exactly one complete Group or rejected path.
    pub path: Path,
}

/// Bytes of an optional text.
pub open spec fn optional_bytes(text: Option<String>) -> nat {
    match text {
        Some(text) => texts::bytes(text@).len(),
        None => 0,
    }
}

fn optional_length(text: &Option<String>) -> (r: usize)
    ensures
        r == optional_bytes(*text),
{
    match text {
        Some(text) => texts::length(text),
        None => 0,
    }
}

/// Bytes of the addresses of the first reads.
pub open spec fn address_bytes(reads: Seq<MatchRead>, count: int) -> nat
    decreases count,
{
    if count <= 0 {
        0
    } else {
        address_bytes(reads, count - 1) + optional_bytes(reads[count - 1].address)
    }
}

impl Prefix {
    /// Bytes of all texts.
    pub open spec fn text_bytes(self) -> nat {
        address_bytes(self.reads@, self.reads@.len() as int) + optional_bytes(self.listener)
    }

    /// Whether a text is too long.
    pub open spec fn text_exceeds(self) -> bool {
        ||| optional_bytes(self.listener) > 512
        ||| exists|i: int|
            0 <= i < self.reads@.len() && optional_bytes((#[trigger] self.reads@[i]).address) > 512
    }

    /// The bytes of all texts, unless one is too long.
    fn text_length(&self) -> (r: Option<usize>)
        requires
            self.reads@.len() <= 64,
        ensures
            self.text_exceeds() ==> r is None,
            !self.text_exceeds() ==> r == Some(self.text_bytes() as usize) && self.text_bytes()
                <= 33_280,
    {
        let mut strings: usize = 0;
        let mut index: usize = 0;
        while index < self.reads.len()
            invariant
                index <= self.reads@.len() <= 64,
                strings == address_bytes(self.reads@, index as int),
                strings <= 512 * index,
                forall|i: int|
                    0 <= i < index ==> optional_bytes((#[trigger] self.reads@[i]).address) <= 512,
            decreases self.reads@.len() - index,
        {
            let length = optional_length(&self.reads[index].address);
            if length > 512 {
                assert(optional_bytes(self.reads@[index as int].address) > 512);
                return None;
            }
            strings = strings + length;
            index = index + 1;
        }
        let listener = optional_length(&self.listener);
        if listener > 512 {
            return None;
        }
        Some(strings + listener)
    }
}

impl Envelope {
    /// Whether a Group path belongs to the prefix.
    pub open spec fn group_belongs(self, group: route::Envelope) -> bool {
        let p = self.prefix;
        &&& group.epoch == self.epoch
        &&& group.sequence == self.sequence
        &&& group.span == self.span
        &&& group.route.group == p.target
        &&& group.route.caller == p.caller
        &&& group.route.session == p.session
        &&& group.route.excluded_count == p.excluded@.len()
        &&& group.route.result.account == p.backend
    }

    /// Whether a rejected path belongs to the prefix.
    pub open spec fn rejection_belongs(self, batch: Batch) -> bool {
        let p = self.prefix;
        &&& p.target == 0
        &&& p.backend == 0
        &&& self.span == 2
        &&& batch.epoch == self.epoch
        &&& batch.sequence == self.sequence
        &&& batch.events@ == seq![LiveEvent::RouteRejected { session: p.session, group: 0 }]
    }

    /// Why the path is refused, if it is.
    pub open spec fn path_refusal(self) -> Option<InvalidReason> {
        let p = self.prefix;
        match self.path {
            Path::Group(group) => if let Some(reason) = group.shape_refusal() {
                Some(reason)
            } else if !self.group_belongs(*group) {
                Some(InvalidReason::Identity)
            } else if p.text_bytes() + route::read_bytes(
                group.route.reads@,
                group.route.reads@.len() as int,
            ) > 65_536 {
                Some(InvalidReason::Capacity)
            } else {
                None
            },
            Path::Rejected(batch) => if !self.rejection_belongs(batch) {
                Some(InvalidReason::Identity)
            } else if p.text_bytes() > 65_536 {
                Some(InvalidReason::Capacity)
            } else {
                None
            },
        }
    }

    /// Why the envelope's shape is refused, if it is.
    pub open spec fn shape_refusal(self) -> Option<InvalidReason> {
        let p = self.prefix;
        if self.epoch.process == 0 || self.epoch.owner == 0 || self.epoch.nonce == 0
            || self.sequence == 0 || p.caller == 0 || p.session == 0 || p.next == 0 || !(1
            <= p.attempt <= 2) || (p.backend == 0) != (p.error != ErrorClass::Success) {
            Some(InvalidReason::Identity)
        } else if p.generation == 0 && (p.groups@.len() > 0 || p.reads@.len() > 0) {
            Some(InvalidReason::Identity)
        } else if p.groups@.len() > 64 || p.excluded@.len() > 64 || p.reads@.len()
            > p.groups@.len() {
            Some(InvalidReason::Capacity)
        } else if !slices::identities(p.groups@) || !slices::identities(p.excluded@) {
            Some(InvalidReason::Identity)
        } else if p.text_exceeds() {
            Some(InvalidReason::Capacity)
        } else {
            self.path_refusal()
        }
    }

    fn refuse_path(&self, strings: usize) -> (r: Option<InvalidReason>)
        requires
            strings == self.prefix.text_bytes(),
            strings <= 33_280,
        ensures
            r == self.path_refusal(),
    {
        let p = &self.prefix;
        match &self.path {
            Path::Group(group) => {
                if let Err(reason) = group.validate() {
                    return Some(reason);
                }
                if group.epoch != self.epoch || group.sequence != self.sequence || group.span
                    != self.span || group.route.group != p.target || group.route.caller != p.caller
                    || group.route.session != p.session || group.route.excluded_count as usize
                    != p.excluded.len() || group.route.result.account != p.backend {
                    return Some(InvalidReason::Identity);
                }
                let reads = &group.route.reads;
                let mut total: usize = strings;
                let mut index: usize = 0;
                while index < reads.len()
                    invariant
                        index <= reads@.len(),
                        strings <= 33_280,
                        total == strings + route::read_bytes(reads@, index as int),
                        total <= 65_536,
                        *reads == group.route.reads,
                        self.path == Path::Group(*group),
                        group.shape_refusal() is None,
                        self.group_belongs(**group),
                        strings == self.prefix.text_bytes(),
                    decreases reads@.len() - index,
                {
                    let length = reads[index].text_length();
                    proof {
                        route::lemma_read_bytes(reads@, index + 1, reads@.len() as int);
                    }
                    if length > 65_536 - total {
                        return Some(InvalidReason::Capacity);
                    }
                    total = total + length;
                    index = index + 1;
                }
                None
            },
            Path::Rejected(batch) => {
                let rejected = LiveEvent::RouteRejected { session: p.session, group: 0 };
                let only = batch.events.len() == 1 && batch.events[0] == rejected;
                proof {
                    if only {
                        assert(batch.events@ =~= seq![rejected]);
                    }
                }
                if p.target != 0 || p.backend != 0 || self.span != 2 || batch.epoch != self.epoch
                    || batch.sequence != self.sequence || !only {
                    return Some(InvalidReason::Identity);
                }
                None
            },
        }
    }

    /// Bound all incoming values before using even a caller-supplied domain value.
    ///
    /// # Errors
    /// Identity, shape, ordering, string or population violations.
    pub fn validate(&self) -> (r: Result<(), InvalidReason>)
        ensures
            r == (match self.shape_refusal() {
                Some(reason) => Err::<(), InvalidReason>(reason),
                None => Ok(()),
            }),
    {
        let p = &self.prefix;
        if self.epoch.process == 0 || self.epoch.owner == 0 || self.epoch.nonce == 0
            || self.sequence == 0 || p.caller == 0 || p.session == 0 || p.next == 0 || p.attempt
            < 1 || p.attempt > 2 || (p.backend == 0) != (p.error != ErrorClass::Success) {
            return Err(InvalidReason::Identity);
        }
        if p.generation == 0 && (p.groups.len() > 0 || p.reads.len() > 0) {
            return Err(InvalidReason::Identity);
        }
        if p.groups.len() > 64 || p.excluded.len() > 64 || p.reads.len() > p.groups.len() {
            return Err(InvalidReason::Capacity);
        }
        if !slices::are_identities(p.groups.as_slice()) || !slices::are_identities(
            p.excluded.as_slice(),
        ) {
            return Err(InvalidReason::Identity);
        }
        let strings = match p.text_length() {
            Some(strings) => strings,
            None => return Err(InvalidReason::Capacity),
        };
        match self.refuse_path(strings) {
            Some(reason) => Err(reason),
            None => Ok(()),
        }
    }
}

impl Prefix {
    /// Whether the router read nothing of a port, a listener or a group.
    pub open spec fn reads_nothing(self) -> bool {
        self.reads@.len() == 0 && !self.port_visited && !self.detector_present
            && self.listener is None
    }

    /// The group that the visited reads from an index on lead to. `matches`
    /// says of each group whether its retained networks hold the read address.
    pub open spec fn walked(self, rule: Rule, matches: Seq<bool>, index: int) -> Result<
        (u64, ErrorClass),
        InvalidReason,
    >
        decreases self.groups@.len() - index,
    {
        if index >= self.groups@.len() {
            if self.reads@.len() == self.groups@.len() {
                Ok((0, ErrorClass::NoBackend))
            } else {
                Err(InvalidReason::Witness)
            }
        } else if index >= self.reads@.len() || self.reads@[index].group != self.groups@[index]
            || rule is All && self.reads@[index].address is Some {
            Err(InvalidReason::Witness)
        } else {
            let matched = rule is All || index < matches.len() && matches[index];
            if matched != self.reads@[index].matched {
                Err(InvalidReason::Witness)
            } else if !matched {
                self.walked(rule, matches, index + 1)
            } else if self.reads@.len() != index + 1 {
                Err(InvalidReason::Witness)
            } else {
                Ok((self.groups@[index], ErrorClass::Success))
            }
        }
    }

    /// The group that a listener's port leads to.
    pub open spec fn dispatched(self, tracker: TrackerModel) -> Result<
        (u64, ErrorClass),
        InvalidReason,
    > {
        let detector = tracker.state.detector_present;
        if !self.port_visited || self.detector_present != detector || self.reads@.len() > 0 {
            Err(InvalidReason::Witness)
        } else {
            match (detector, self.listener) {
                (false, None) => Ok((0, ErrorClass::NoBackend)),
                (true, Some(listener)) => match tracker.classify(
                    self.generation,
                    Seq::empty(),
                    texts::bytes(listener@),
                ) {
                    Ok(Classification::Group(group)) => Ok((group, ErrorClass::Success)),
                    Ok(Classification::NoGroup) => Ok((0, ErrorClass::NoBackend)),
                    Ok(Classification::Conflict) => Ok((0, ErrorClass::Other)),
                    Ok(Classification::ObserverError(_)) => Err(InvalidReason::Witness),
                    Err(reason) => Err(reason),
                },
                _ => Err(InvalidReason::Witness),
            }
        }
    }

    /// The group and error that committed metadata derives for the captured
    /// reads: the observer's error, the listener's port, or the first matching
    /// group in router order.
    pub open spec fn derived(self, tracker: TrackerModel, matches: Seq<bool>) -> Result<
        (u64, ErrorClass),
        InvalidReason,
    > {
        match tracker.route_header(self.generation) {
            Err(reason) => Err(reason),
            Ok((rule, observer_error)) => if rule != self.rule || observer_error
                != self.observer_error || state::ids(tracker.state.groups) != self.groups@ {
                Err(InvalidReason::Witness)
            } else if !(observer_error is Success) {
                if self.reads_nothing() {
                    Ok((0, observer_error))
                } else {
                    Err(InvalidReason::Witness)
                }
            } else if rule is Port {
                self.dispatched(tracker)
            } else if self.port_visited || self.detector_present || self.listener is Some {
                Err(InvalidReason::Witness)
            } else {
                self.walked(rule, matches, 0)
            },
        }
    }

    fn walk(&self, rule: Rule, matches: &[bool]) -> (r: Result<(u64, ErrorClass), InvalidReason>)
        ensures
            r == self.walked(rule, matches@, 0),
    {
        let mut index: usize = 0;
        while index < self.groups.len()
            invariant
                index <= self.groups@.len(),
                self.walked(rule, matches@, 0) == self.walked(rule, matches@, index as int),
            decreases self.groups@.len() - index,
        {
            if index >= self.reads.len() {
                return Err(InvalidReason::Witness);
            }
            let read = &self.reads[index];
            if read.group != self.groups[index] || rule == Rule::All && read.address.is_some() {
                return Err(InvalidReason::Witness);
            }
            let matched = rule == Rule::All || index < matches.len() && matches[index];
            if matched != read.matched {
                return Err(InvalidReason::Witness);
            }
            if matched {
                if self.reads.len() != index + 1 {
                    return Err(InvalidReason::Witness);
                }
                return Ok((self.groups[index], ErrorClass::Success));
            }
            index = index + 1;
        }
        if self.reads.len() != self.groups.len() {
            return Err(InvalidReason::Witness);
        }
        Ok((0, ErrorClass::NoBackend))
    }

    fn dispatch(&self, tracker: &Tracker) -> (r: Result<(u64, ErrorClass), InvalidReason>)
        requires
            tracker@.wf(),
        ensures
            r == self.dispatched(tracker@),
    {
        let detector = tracker.detector_present();
        if !self.port_visited || self.detector_present != detector || self.reads.len() > 0 {
            return Err(InvalidReason::Witness);
        }
        match (detector, &self.listener) {
            (false, None) => Ok((0, ErrorClass::NoBackend)),
            (true, Some(listener)) => {
                let none: [bool; 0] = [];
                assert(none@ =~= Seq::<bool>::empty());
                match tracker.classify(self.generation, &none, listener.as_str()) {
                    Ok(Classification::Group(group)) => Ok((group, ErrorClass::Success)),
                    Ok(Classification::NoGroup) => Ok((0, ErrorClass::NoBackend)),
                    Ok(Classification::Conflict) => Ok((0, ErrorClass::Other)),
                    Ok(Classification::ObserverError(_)) => Err(InvalidReason::Witness),
                    Err(reason) => Err(reason),
                }
            },
            _ => Err(InvalidReason::Witness),
        }
    }

    /// Derive the group and error from committed metadata.
    ///
    /// # Errors
    /// Any difference between the captured reads and the metadata.
    pub fn derive(&self, tracker: &Tracker, matches: &[bool]) -> (r: Result<
        (u64, ErrorClass),
        InvalidReason,
    >)
        requires
            tracker@.wf(),
        ensures
            r == self.derived(tracker@, matches@),
    {
        let (rule, observer_error) = match tracker.route_header(self.generation) {
            Ok(header) => header,
            Err(reason) => return Err(reason),
        };
        let known = match tracker.known_groups() {
            Ok(known) => known,
            Err(reason) => return Err(reason),
        };
        if rule != self.rule || observer_error != self.observer_error || !slices::same(
            known.as_slice(),
            self.groups.as_slice(),
        ) {
            return Err(InvalidReason::Witness);
        }
        if observer_error != ErrorClass::Success {
            if self.reads.len() > 0 || self.port_visited || self.detector_present
                || self.listener.is_some() {
                return Err(InvalidReason::Witness);
            }
            return Ok((0, observer_error));
        }
        if rule == Rule::Port {
            return self.dispatch(tracker);
        }
        if self.port_visited || self.detector_present || self.listener.is_some() {
            return Err(InvalidReason::Witness);
        }
        self.walk(rule, matches)
    }
}

impl Envelope {
    /// The scope that the envelope is compared in.
    pub open spec fn scope(self, frame_bytes: usize) -> ScopeModel {
        ScopeModel {
            epoch: self.epoch,
            group: self.prefix.target,
            sequence: self.sequence,
            span: self.span,
            sessions: seq![self.prefix.session],
            frame_bytes,
        }
    }
}

impl StageModel {
    /// The stage after the path of a router attempt was compared, and what it
    /// derived.
    pub open spec fn compare_path(self, e: Envelope, c: Computation, error: ErrorClass) -> (
        StageModel,
        Result<DerivedResult, InvalidReason>,
    ) {
        match e.path {
            Path::Group(group) => self.compare_route(*group, c),
            Path::Rejected(batch) => match self.batch(batch) {
                (next, Err(reason)) => (next, Err(reason)),
                (next, Ok(_)) => (next, Ok(DerivedResult { backend: 0, error, binding: None })),
            },
        }
    }

    /// The stage after a router attempt was compared: the path, then the
    /// derived target and return, then the selector's attempt.
    pub open spec fn compare_attempt(self, e: Envelope, c: Computation, expected: (u64, ErrorClass)) -> (
        StageModel,
        Result<DerivedResult, InvalidReason>,
    ) {
        let p = e.prefix;
        match self.compare_path(e, c, expected.1) {
            (next, Err(reason)) => (next, Err(reason)),
            (next, Ok(derived)) => if expected.0 != p.target || derived.backend != p.backend
                || derived.error != p.error {
                (next, Err(InvalidReason::Witness))
            } else {
                match next.selector_attempt(p.session, p.next, p.attempt, p.excluded@, derived) {
                    (last, Err(reason)) => (last, Err(reason)),
                    (last, Ok(_)) => (last, Ok(derived)),
                }
            },
        }
    }
}

impl<'a> Stage<'a> {
    fn compare_path(&mut self, e: &Envelope, c: &Computation, error: ErrorClass) -> (r: Result<
        DerivedResult,
        InvalidReason,
    >)
        requires
            old(self).wf(),
            e.shape_refusal() is None,
        ensures
            final(self).wf(),
            (final(self).model(), r) == old(self).model().compare_path(*e, *c, error),
            *final(final(self).original) == *final(old(self).original),
    {
        match &e.path {
            Path::Group(group) => self.compare_route(group, c),
            Path::Rejected(batch) => match self.batch(batch) {
                Ok(_) => Ok(DerivedResult { backend: 0, error, binding: None }),
                Err(reason) => Err(reason),
            },
        }
    }

    /// Compare a router attempt with the target and error that metadata derived.
    ///
    /// # Errors
    /// Any mismatch of path, target, return or selector attempt.
    fn compare_attempt(&mut self, e: &Envelope, c: &Computation, expected: (u64, ErrorClass)) -> (r: Result<
        DerivedResult,
        InvalidReason,
    >)
        requires
            old(self).wf(),
            e.shape_refusal() is None,
        ensures
            final(self).wf(),
            (final(self).model(), r) == old(self).model().compare_attempt(*e, *c, expected),
            *final(final(self).original) == *final(old(self).original),
    {
        let p = &e.prefix;
        let derived = match self.compare_path(e, c, expected.1) {
            Ok(derived) => derived,
            Err(reason) => return Err(reason),
        };
        if expected.0 != p.target || derived.backend != p.backend || derived.error != p.error {
            return Err(InvalidReason::Witness);
        }
        match self.selector_attempt(p.session, p.next, p.attempt, p.excluded.as_slice(), derived) {
            Ok(_) => Ok(derived),
            Err(reason) => Err(reason),
        }
    }
}

impl LiveModel {
    /// The group and error that retained metadata derives for a router attempt.
    pub open spec fn derive_route(self, epoch: Epoch, p: Prefix, matches: Seq<bool>) -> Result<
        (u64, ErrorClass),
        InvalidReason,
    > {
        match self.retained_metadata(epoch) {
            Some(tracker) => p.derived(tracker, matches),
            None => Err(InvalidReason::MissingBegin),
        }
    }

    /// Why a router attempt is refused before anything is staged, or what its
    /// target and error must be.
    pub open spec fn expected_route(self, e: Envelope, matches: Seq<bool>) -> Result<
        (u64, ErrorClass),
        InvalidReason,
    > {
        match e.shape_refusal() {
            Some(reason) => Err(reason),
            None => self.derive_route(e.epoch, e.prefix, matches),
        }
    }

    /// The state after a router attempt with this expected target and error was
    /// compared, its result, and what it derived.
    pub open spec fn router_route(
        self,
        e: Envelope,
        c: Computation,
        expected: (u64, ErrorClass),
        frame_bytes: usize,
        copy: Result<usize, InvalidReason>,
    ) -> (LiveModel, Progress, Option<DerivedResult>) {
        match self.plan(e.scope(frame_bytes), copy) {
            Err(reason) => {
                let (next, progress) = self.unentered(e.epoch, reason);
                (next, progress, None)
            },
            Ok(plan) => {
                let (stage, result) = self.staged(e.scope(frame_bytes), plan).compare_attempt(
                    e,
                    c,
                    expected,
                );
                stage.resolved(result)
            },
        }
    }
}

impl LiveState {
    fn derive_router_route(&self, epoch: Epoch, p: &Prefix, matches: &[bool]) -> (r: Result<
        (u64, ErrorClass),
        InvalidReason,
    >)
        requires
            self.wf(),
        ensures
            r == self.model().derive_route(epoch, *p, matches@),
    {
        match self.router_metadata(epoch) {
            Some(tracker) => p.derive(tracker, matches),
            None => Err(InvalidReason::MissingBegin),
        }
    }

    /// Compare router classification, its complete child path and retained
    /// selector attempt atomically. A late Group/return mismatch cannot retain
    /// a factor update, reservation, selector change or compared sequence.
    /// `matches` says of each read whether the retained networks of its group
    /// hold the read address.
    pub fn observe_router_route(
        &mut self,
        envelope: &Envelope,
        matches: &[bool],
        computation: &Computation,
        frame_bytes: usize,
    ) -> (r: (Progress, Option<DerivedResult>))
        requires
            old(self).wf(),
            old(self).model().accounted(),
        ensures
            final(self).wf(),
            final(self).model().accounted(),
            match old(self).model().expected_route(*envelope, matches@) {
                Err(reason) => (final(self).model(), r.0) == old(self).model().malformed(
                    envelope.epoch,
                    reason,
                ) && r.1 is None,
                Ok(expected) => exists|copy: Result<usize, InvalidReason>| #[trigger]
                    old(self).model().may_copy(envelope.scope(frame_bytes), copy) && (
                    final(self).model(),
                    r.0,
                    r.1,
                ) == old(self).model().router_route(
                    *envelope,
                    *computation,
                    expected,
                    frame_bytes,
                    copy,
                ),
            },
    {
        if let Err(reason) = envelope.validate() {
            return (self.invalidate(envelope.epoch, reason), None);
        }
        let expected = match self.derive_router_route(envelope.epoch, &envelope.prefix, matches) {
            Ok(expected) => expected,
            Err(reason) => return (self.invalidate(envelope.epoch, reason), None),
        };
        let previous = self.progress(envelope.epoch).compared_sequence;
        let sessions: [u64; 1] = [envelope.prefix.session];
        let scope = Scope {
            epoch: envelope.epoch,
            group: envelope.prefix.target,
            sequence: envelope.sequence,
            span: envelope.span,
            sessions: &sessions,
            frame_bytes,
        };
        assert(scope@ =~= envelope.scope(frame_bytes)) by {
            assert(scope.sessions@ =~= seq![envelope.prefix.session]);
        }
        match self.begin_caller(scope) {
            Ok(mut stage) => {
                let comparison = stage.compare_attempt(envelope, computation, expected);
                let verdict = match comparison {
                    Ok(_) => Ok(()),
                    Err(reason) => Err(reason),
                };
                let progress = stage.finish(verdict);
                let derived = match (progress.status, comparison) {
                    (Status::Comparing, Ok(derived)) => Some(derived),
                    _ => None,
                };
                (progress, derived)
            },
            Err(reason) => (
                Progress {
                    status: Status::Invalid(reason),
                    compared_sequence: previous,
                    transition: None,
                },
                None,
            ),
        }
    }
}

/// Whether a group of the router order takes the route: under the rule that takes
/// any, or because its networks hold the read address.
pub open spec fn takes(rule: Rule, matches: Seq<bool>, index: int) -> bool {
    rule is All || (0 <= index < matches.len() && matches[index])
}

#[verifier::rlimit(40)]
proof fn lemma_walked(p: Prefix, rule: Rule, matches: Seq<bool>, index: int)
    requires
        0 <= index <= p.groups@.len(),
        index <= p.reads@.len(),
        p.walked(rule, matches, index) is Ok,
    ensures
        ({
            let (group, error) = p.walked(rule, matches, index)->Ok_0;
            let last = p.reads@.len() - 1;
            &&& p.reads@.len() <= p.groups@.len()
            &&& forall|i: int|
                index <= i < p.reads@.len() ==> {
                    &&& (#[trigger] p.reads@[i]).group == p.groups@[i]
                    &&& p.reads@[i].matched == takes(rule, matches, i)
                    &&& rule is All ==> p.reads@[i].address is None
                    &&& i < last ==> !takes(rule, matches, i)
                }
            &&& error is Success ==> index <= last && takes(rule, matches, last) && group
                == p.groups@[last]
            &&& !(error is Success) ==> error is NoBackend && group == 0 && p.reads@.len()
                == p.groups@.len() && (index <= last ==> !takes(rule, matches, last))
        }),
    decreases p.groups@.len() - index,
{
    if index < p.groups@.len() {
        if !takes(rule, matches, index) {
            lemma_walked(p, rule, matches, index + 1);
        }
    }
}

/// A walk that is accepted read the groups in router order, each once, and found
/// the first one that takes the route: it read nothing after it, and where none
/// takes the route it read every group and found no backend.
pub proof fn law_walks_find_the_first_match(p: Prefix, rule: Rule, matches: Seq<bool>)
    requires
        p.walked(rule, matches, 0) is Ok,
    ensures
        ({
            let (group, error) = p.walked(rule, matches, 0)->Ok_0;
            let last = p.reads@.len() - 1;
            &&& p.reads@.len() <= p.groups@.len()
            &&& forall|i: int|
                0 <= i < p.reads@.len() ==> {
                    &&& (#[trigger] p.reads@[i]).group == p.groups@[i]
                    &&& p.reads@[i].matched == takes(rule, matches, i)
                    &&& rule is All ==> p.reads@[i].address is None
                    &&& i < last ==> !takes(rule, matches, i)
                }
            &&& error is Success ==> 0 <= last && takes(rule, matches, last) && group
                == p.groups@[last]
            &&& !(error is Success) ==> error is NoBackend && group == 0 && p.reads@.len()
                == p.groups@.len() && (0 <= last ==> !takes(rule, matches, last))
        }),
{
    lemma_walked(p, rule, matches, 0);
}

proof fn lemma_walk_owed(p: Prefix, rule: Rule, matches: Seq<bool>, index: int)
    requires
        0 <= index <= p.groups@.len(),
        p.reads@.len() <= p.groups@.len(),
        forall|i: int|
            index <= i < p.reads@.len() ==> {
                &&& (#[trigger] p.reads@[i]).group == p.groups@[i]
                &&& p.reads@[i].matched == takes(rule, matches, i)
                &&& rule is All ==> p.reads@[i].address is None
                &&& i < p.reads@.len() - 1 ==> !takes(rule, matches, i)
            },
        p.reads@.len() < p.groups@.len() ==> index < p.reads@.len() && takes(
            rule,
            matches,
            p.reads@.len() - 1,
        ),
    ensures
        p.walked(rule, matches, index) is Ok,
    decreases p.groups@.len() - index,
{
    if index < p.groups@.len() {
        assert(p.reads@[index].group == p.groups@[index]);
        if !takes(rule, matches, index) {
            lemma_walk_owed(p, rule, matches, index + 1);
        }
    }
}

/// Every capture that reads the groups in router order up to the first one that
/// takes the route, or all of them where none does, is accepted.
pub proof fn law_first_matches_are_accepted(p: Prefix, rule: Rule, matches: Seq<bool>)
    requires
        p.reads@.len() <= p.groups@.len(),
        forall|i: int|
            0 <= i < p.reads@.len() ==> {
                &&& (#[trigger] p.reads@[i]).group == p.groups@[i]
                &&& p.reads@[i].matched == takes(rule, matches, i)
                &&& rule is All ==> p.reads@[i].address is None
                &&& i < p.reads@.len() - 1 ==> !takes(rule, matches, i)
            },
        p.reads@.len() < p.groups@.len() ==> 0 < p.reads@.len() && takes(
            rule,
            matches,
            p.reads@.len() - 1,
        ),
    ensures
        p.walked(rule, matches, 0) is Ok,
{
    lemma_walk_owed(p, rule, matches, 0);
}

/// A listener's port is asked of the detector exactly where there is one. Its
/// group is the target; a port of no group, or no detector, finds no backend;
/// and a conflict is another error.
pub proof fn law_listeners_are_dispatched_by_port(p: Prefix, tracker: TrackerModel)
    requires
        p.dispatched(tracker) is Ok,
    ensures
        p.port_visited,
        p.reads@.len() == 0,
        p.detector_present == tracker.state.detector_present,
        p.listener is Some <==> tracker.state.detector_present,
        ({
            let (group, error) = p.dispatched(tracker)->Ok_0;
            &&& p.listener is None ==> group == 0 && error is NoBackend
            &&& p.listener matches Some(listener) ==> {
                let found = tracker.classify(
                    p.generation,
                    Seq::empty(),
                    texts::bytes(listener@),
                );
                &&& found is Ok
                &&& found->Ok_0 matches Classification::Group(id) ==> group == id && error is Success
                &&& found->Ok_0 is NoGroup ==> group == 0 && error is NoBackend
                &&& found->Ok_0 is Conflict ==> group == 0 && error is Other
                &&& !(found->Ok_0 is ObserverError)
            }
        }),
{
}

/// A derived route saw the committed rule, observer error and group order. An
/// observer's error is returned without a read; under the port rule only the
/// port decides; otherwise only the walk does, and no port or listener is read.
pub proof fn law_metadata_decides_the_target(p: Prefix, tracker: TrackerModel, matches: Seq<bool>)
    requires
        p.derived(tracker, matches) is Ok,
    ensures
        ({
            let (rule, observed) = tracker.route_header(p.generation)->Ok_0;
            let (group, error) = p.derived(tracker, matches)->Ok_0;
            &&& tracker.route_header(p.generation) is Ok
            &&& p.rule == rule
            &&& p.observer_error == observed
            &&& state::ids(tracker.state.groups) == p.groups@
            &&& observed != ErrorClass::Success ==> {
                &&& group == 0
                &&& error == observed
                &&& p.reads@.len() == 0
                &&& !p.port_visited
                &&& !p.detector_present
                &&& p.listener is None
            }
            &&& observed == ErrorClass::Success && rule is Port ==> p.dispatched(tracker) == Ok::<
                (u64, ErrorClass),
                InvalidReason,
            >((group, error))
            &&& observed == ErrorClass::Success && !(rule is Port) ==> {
                &&& !p.port_visited
                &&& !p.detector_present
                &&& p.listener is None
                &&& p.walked(rule, matches, 0) == Ok::<(u64, ErrorClass), InvalidReason>(
                    (group, error),
                )
            }
        }),
{
}

/// An accepted attempt went to the derived target and returned what was derived:
/// the group's route where there is one, and otherwise the derived error with no
/// backend. Its selector consumed that result as the attempt.
#[verifier::rlimit(40)]
pub proof fn law_attempts_return_what_was_derived(
    stage: StageModel,
    e: Envelope,
    c: Computation,
    expected: (u64, ErrorClass),
)
    requires
        stage.compare_attempt(e, c, expected).1 is Ok,
    ensures
        ({
            let p = e.prefix;
            let (after, result) = stage.compare_attempt(e, c, expected);
            let derived = result->Ok_0;
            &&& p.target == expected.0
            &&& p.backend == derived.backend
            &&& p.error == derived.error
            &&& e.path matches Path::Group(group) ==> stage.compare_route(*group, c).1 == Ok::<
                DerivedResult,
                InvalidReason,
            >(derived)
            &&& e.path matches Path::Rejected(batch) ==> {
                &&& stage.batch(batch).1 is Ok
                &&& derived.backend == 0
                &&& derived.error == expected.1
                &&& derived.binding is None
            }
            &&& stage.compare_path(e, c, expected.1).0.selector_attempt(
                p.session,
                p.next,
                p.attempt,
                p.excluded@,
                derived,
            ).1 is Ok
        }),
{
}

/// A well-formed attempt returns a backend exactly where it succeeds, and its path
/// is its own: the same owner, sequences and session, the same target, caller and
/// backend for a group, and for a rejection a single rejected route of no group.
pub proof fn law_paths_belong_to_their_attempt(e: Envelope)
    requires
        e.shape_refusal() is None,
    ensures
        e.prefix.backend == 0 <==> e.prefix.error != ErrorClass::Success,
        e.prefix.attempt == 1 || e.prefix.attempt == 2,
        e.prefix.next != 0,
        e.prefix.groups@.no_duplicates(),
        e.prefix.excluded@.no_duplicates(),
        e.prefix.generation == 0 ==> e.prefix.groups@.len() == 0,
        e.path matches Path::Group(group) ==> {
            &&& group.shape_refusal() is None
            &&& group.epoch == e.epoch
            &&& group.sequence == e.sequence
            &&& group.span == e.span
            &&& group.route.group == e.prefix.target
            &&& group.route.caller == e.prefix.caller
            &&& group.route.session == e.prefix.session
            &&& group.route.excluded_count == e.prefix.excluded@.len()
            &&& group.route.result.account == e.prefix.backend
        },
        e.path matches Path::Rejected(batch) ==> {
            &&& e.prefix.target == 0
            &&& e.prefix.backend == 0
            &&& e.span == 2
            &&& batch.epoch == e.epoch
            &&& batch.sequence == e.sequence
            &&& batch.events@.len() == 1
            &&& batch.events@[0] == (LiveEvent::RouteRejected {
                session: e.prefix.session,
                group: 0,
            })
        },
{
}

} // verus!
