//! Group-local Balance comparison. Physical order comes from the lifecycle
//! ledger, rates from native comparison, and attempt times from earlier
//! successful caller commits, never Go outputs.
use vstd::prelude::*;

use super::arithmetic;
use super::arithmetic::{AfterClock, Rate, Start};
use super::route;
use super::timing;
use super::timing::{Attempt, TimingModel};
use super::{Budget, Scope, ScopeModel, Stage, StageModel};
use crate::charge;
use crate::go_time::GoTime;
use crate::shadow::ledger;
use crate::shadow::live::native::StoredModel;
use crate::shadow::live::{Batch, LiveEvent, LiveModel, LiveState};
use crate::shadow::native;
use crate::shadow::native::{Entry, Evaluation};
use crate::shadow::native_compute::Computation;
use crate::shadow::{Epoch, Event, InvalidReason, Progress, Status};
use crate::{slices, texts};

verus! {

/// How long a failed attempt keeps its session from another one.
pub const FAILURE_COOLDOWN: i64 = 3_000_000_000;

/// The single actual balance clock followed by the whole-pair keyspace reads.
#[derive(Clone, Debug)]
pub struct Clock {
    /// Already read at the production balance clock site.
    pub now: GoTime,
    /// First whole-pair keyspace read.
    pub from_keyspace: String,
    /// Second whole-pair keyspace read.
    pub to_keyspace: String,
}

/// One actual invocation of the direct redirect backstop and its lifecycle child.
#[derive(Clone, Debug)]
pub struct Redirect {
    /// Fresh source keyspace read at the direct callback boundary.
    pub from_keyspace: String,
    /// Fresh destination keyspace read at the direct callback boundary.
    pub to_keyspace: String,
    /// Absent exactly when the direct keyspace backstop prevents the callback.
    pub callback: Option<bool>,
    /// Complete actual accepted/rejected child, retaining original identities.
    pub batch: Batch,
}

/// A visited physical element, including connections skipped before redirect.
#[derive(Clone, Debug)]
pub struct Visit {
    /// Actual visited identity, checked against the independent physical prefix.
    pub session: u64,
    /// Present only if closing/pending/cooldown checks allow redirectConn.
    pub redirect: Option<Redirect>,
}

/// One complete Group critical section, with one native Balance evaluation.
#[derive(Clone, Debug)]
pub struct Envelope {
    /// Complete owner incarnation, shared by every child.
    pub epoch: Epoch,
    /// First sequence belongs to the native evaluation.
    pub sequence: u64,
    /// Native evaluation, lifecycle events and exactly one final caller check.
    pub span: u64,
    /// Nonzero actual call identity, scoped by the contiguous owner sequence.
    pub caller: u64,
    /// Independently retained Group incarnation.
    pub group: u64,
    /// Full actual Go map iteration order; checked as a retained-set permutation.
    pub members: Vec<u64>,
    /// Actual native inputs and witnesses; its independently returned rate wins.
    pub evaluation: Box<Evaluation>,
    /// Absent exactly for the native zero-rate early return.
    pub clock: Option<Clock>,
    /// Actual ctx.Err results in execution order; true means cancellation.
    pub contexts: Vec<bool>,
    /// At most 64 actually visited physical elements, including skipped ones.
    pub visits: Vec<Visit>,
    /// Actual successful callback count, compared only after the whole scan.
    pub accepted: u16,
}

/// The sessions of some visits.
pub open spec fn visited(visits: Seq<Visit>) -> Seq<u64> {
    visits.map_values(|visit: Visit| visit.session)
}

/// Bytes of a pair of keyspaces.
pub open spec fn pair_bytes(from: String, to: String) -> nat {
    texts::bytes(from@).len() + texts::bytes(to@).len()
}

/// Whether one of a pair of keyspaces is too long.
pub open spec fn pair_exceeds(from: String, to: String) -> bool {
    texts::bytes(from@).len() > 512 || texts::bytes(to@).len() > 512
}

/// Bytes that the redirect of a visit read.
pub open spec fn visit_bytes(visit: Visit) -> nat {
    match visit.redirect {
        Some(redirect) => pair_bytes(redirect.from_keyspace, redirect.to_keyspace),
        None => 0,
    }
}

/// Reads that the redirect of a visit took.
pub open spec fn visit_reads(visit: Visit) -> nat {
    match visit.redirect {
        Some(redirect) => if redirect.callback is Some {
            3
        } else {
            2
        },
        None => 0,
    }
}

/// How many of the first visits redirected.
pub open spec fn redirect_count(visits: Seq<Visit>, count: int) -> nat
    decreases count,
{
    if count <= 0 {
        0
    } else {
        redirect_count(visits, count - 1) + if visits[count - 1].redirect is Some {
            1nat
        } else {
            0nat
        }
    }
}

/// Bytes that the redirects of the first visits read.
pub open spec fn redirect_bytes(visits: Seq<Visit>, count: int) -> nat
    decreases count,
{
    if count <= 0 {
        0
    } else {
        redirect_bytes(visits, count - 1) + visit_bytes(visits[count - 1])
    }
}

/// Reads that the redirects of the first visits took.
pub open spec fn redirect_reads(visits: Seq<Visit>, count: int) -> nat
    decreases count,
{
    if count <= 0 {
        0
    } else {
        redirect_reads(visits, count - 1) + visit_reads(visits[count - 1])
    }
}

impl Envelope {
    /// Bytes that the whole-pair read took.
    pub open spec fn clock_bytes(self) -> nat {
        match self.clock {
            Some(clock) => pair_bytes(clock.from_keyspace, clock.to_keyspace),
            None => 0,
        }
    }

    /// Whether the whole-pair read is too long.
    pub open spec fn clock_exceeds(self) -> bool {
        match self.clock {
            Some(clock) => pair_exceeds(clock.from_keyspace, clock.to_keyspace)
                || self.clock_bytes() > 65_536,
            None => false,
        }
    }

    /// Why the redirect of a visit is malformed, if it is.
    pub open spec fn redirect_refusal(self, index: int) -> Option<InvalidReason> {
        match self.visits@[index].redirect {
            None => None,
            Some(redirect) => {
                let next = self.sequence + 1 + redirect_count(self.visits@, index);
                if pair_exceeds(redirect.from_keyspace, redirect.to_keyspace) || self.clock_bytes()
                    + redirect_bytes(self.visits@, index + 1) > 65_536 {
                    Some(InvalidReason::Capacity)
                } else if redirect.batch.epoch != self.epoch {
                    Some(InvalidReason::Identity)
                } else if redirect.batch.sequence != next {
                    Some(InvalidReason::Sequence)
                } else if redirect.batch.events@.len() != 1
                    || redirect.batch.witness.accounts@.len() > 2 {
                    Some(InvalidReason::Witness)
                } else if next + 1 > u64::MAX {
                    Some(InvalidReason::Sequence)
                } else {
                    None
                }
            },
        }
    }

    /// Why the first visits are malformed, if they are.
    pub open spec fn visits_refusal(self, count: int) -> Option<InvalidReason>
        decreases count,
    {
        if count <= 0 {
            None
        } else {
            match self.visits_refusal(count - 1) {
                Some(reason) => Some(reason),
                None => {
                    let session = self.visits@[count - 1].session;
                    if session == 0 || visited(self.visits@).take(count - 1).contains(session) {
                        Some(InvalidReason::Identity)
                    } else {
                        self.redirect_refusal(count - 1)
                    }
                },
            }
        }
    }

    /// Reads that the caller took.
    pub open spec fn read_count(self) -> nat {
        self.contexts@.len() + redirect_reads(self.visits@, self.visits@.len() as int) + if self.clock is Some {
            2nat
        } else {
            0nat
        }
    }

    /// Why the envelope's shape is refused, if it is.
    pub open spec fn shape_refusal(self) -> Option<InvalidReason> {
        let total = self.visits@.len() as int;
        if self.epoch.process == 0 || self.epoch.owner == 0 || self.epoch.nonce == 0
            || self.sequence == 0 || self.caller == 0 || self.group == 0 || self.evaluation.epoch
            != self.epoch || self.evaluation.group != self.group {
            Some(InvalidReason::Identity)
        } else if self.evaluation.sequence != self.sequence {
            Some(InvalidReason::Sequence)
        } else if !(self.evaluation.entry is Balance) {
            Some(InvalidReason::Witness)
        } else if self.members@.len() > 64 || total > 64 || self.contexts@.len() > 65
            || self.accepted > 64 {
            Some(InvalidReason::Capacity)
        } else if !slices::identities(self.members@) {
            Some(InvalidReason::Identity)
        } else if self.sequence == u64::MAX {
            Some(InvalidReason::Sequence)
        } else if self.clock_exceeds() {
            Some(InvalidReason::Capacity)
        } else if let Some(reason) = self.visits_refusal(total) {
            Some(reason)
        } else if self.read_count() > 128 {
            Some(InvalidReason::Capacity)
        } else if redirect_count(self.visits@, total) + 2 != self.span {
            Some(InvalidReason::Sequence)
        } else {
            None
        }
    }

    proof fn lemma_visits_refusal_stays(self, from: int, to: int)
        requires
            from <= to,
            self.visits_refusal(from) is Some,
        ensures
            self.visits_refusal(to) == self.visits_refusal(from),
        decreases to - from,
    {
        if from < to {
            self.lemma_visits_refusal_stays(from, to - 1);
        }
    }

    fn refuse_redirect(&self, index: usize, next: u64, strings: usize) -> (r: Option<InvalidReason>)
        requires
            index < self.visits@.len() <= 64,
            strings <= 65_536,
            strings == self.clock_bytes() + redirect_bytes(self.visits@, index as int),
            next == self.sequence + 1 + redirect_count(self.visits@, index as int),
        ensures
            r == self.redirect_refusal(index as int),
    {
        match &self.visits[index].redirect {
            None => None,
            Some(redirect) => {
                let from = texts::length(&redirect.from_keyspace);
                let to = texts::length(&redirect.to_keyspace);
                if from > 512 || to > 512 || strings + from + to > 65_536 {
                    return Some(InvalidReason::Capacity);
                }
                let batch = &redirect.batch;
                if batch.epoch != self.epoch {
                    return Some(InvalidReason::Identity);
                }
                if batch.sequence != next {
                    return Some(InvalidReason::Sequence);
                }
                if batch.events.len() != 1 || batch.witness.accounts.len() > 2 {
                    return Some(InvalidReason::Witness);
                }
                if next == u64::MAX {
                    return Some(InvalidReason::Sequence);
                }
                None
            },
        }
    }

    fn refuse_visits(&self) -> (r: Option<InvalidReason>)
        requires
            self.visits@.len() <= 64,
            self.contexts@.len() <= 65,
            self.sequence < u64::MAX,
            !self.clock_exceeds(),
        ensures
            r == (match self.visits_refusal(self.visits@.len() as int) {
                Some(reason) => Some(reason),
                None => if self.read_count() > 128 {
                    Some(InvalidReason::Capacity)
                } else if redirect_count(self.visits@, self.visits@.len() as int) + 2 != self.span {
                    Some(InvalidReason::Sequence)
                } else {
                    None
                },
            }),
    {
        let ghost ids = visited(self.visits@);
        let mut next: u64 = self.sequence + 1;
        let mut strings: usize = match &self.clock {
            Some(clock) => texts::length(&clock.from_keyspace) + texts::length(&clock.to_keyspace),
            None => 0,
        };
        let mut reads: usize = self.contexts.len();
        if self.clock.is_some() {
            reads = reads + 2;
        }
        let ghost first = reads as nat;
        let mut sessions: Vec<u64> = Vec::new();
        let mut index: usize = 0;
        while index < self.visits.len()
            invariant
                index <= self.visits@.len() <= 64,
                ids == visited(self.visits@),
                sessions@ == ids.take(index as int),
                first <= 67,
                reads == first + redirect_reads(self.visits@, index as int),
                reads <= first + 3 * index,
                strings <= 65_536,
                strings == self.clock_bytes() + redirect_bytes(self.visits@, index as int),
                next == self.sequence + 1 + redirect_count(self.visits@, index as int),
                self.visits_refusal(index as int) is None,
            decreases self.visits@.len() - index,
        {
            let session = self.visits[index].session;
            assert(ids[index as int] == session);
            let refusal = if session == 0 || slices::holds(sessions.as_slice(), session) {
                Some(InvalidReason::Identity)
            } else {
                self.refuse_redirect(index, next, strings)
            };
            assert(refusal == self.visits_refusal(index + 1));
            if refusal.is_some() {
                proof {
                    self.lemma_visits_refusal_stays(index + 1, self.visits@.len() as int);
                }
                return refusal;
            }
            if let Some(redirect) = &self.visits[index].redirect {
                strings = strings + texts::length(&redirect.from_keyspace) + texts::length(
                    &redirect.to_keyspace,
                );
                reads = reads + if redirect.callback.is_some() {
                    3
                } else {
                    2
                };
                next = next + 1;
            }
            sessions.push(session);
            assert(sessions@ =~= ids.take(index + 1));
            index = index + 1;
        }
        if reads > 128 {
            return Some(InvalidReason::Capacity);
        }
        if (next - self.sequence).checked_add(1) != Some(self.span) {
            return Some(InvalidReason::Sequence);
        }
        None
    }

    /// Validate bounded populations and complete child identity/sequence layout.
    ///
    /// # Errors
    /// Rejects malformed captures before creating the affected Group clone.
    pub fn validate(&self) -> (r: Result<(), InvalidReason>)
        ensures
            r == (match self.shape_refusal() {
                Some(reason) => Err::<(), InvalidReason>(reason),
                None => Ok(()),
            }),
    {
        if self.epoch.process == 0 || self.epoch.owner == 0 || self.epoch.nonce == 0
            || self.sequence == 0 || self.caller == 0 || self.group == 0 || self.evaluation.epoch
            != self.epoch || self.evaluation.group != self.group {
            return Err(InvalidReason::Identity);
        }
        if self.evaluation.sequence != self.sequence {
            return Err(InvalidReason::Sequence);
        }
        if !matches!(self.evaluation.entry, Entry::Balance) {
            return Err(InvalidReason::Witness);
        }
        if self.members.len() > 64 || self.visits.len() > 64 || self.contexts.len() > 65
            || self.accepted > 64 {
            return Err(InvalidReason::Capacity);
        }
        if !slices::are_identities(self.members.as_slice()) {
            return Err(InvalidReason::Identity);
        }
        if self.sequence == u64::MAX {
            return Err(InvalidReason::Sequence);
        }
        if let Some(clock) = &self.clock {
            let from = texts::length(&clock.from_keyspace);
            let to = texts::length(&clock.to_keyspace);
            if from > 512 || to > 512 {
                return Err(InvalidReason::Capacity);
            }
        }
        match self.refuse_visits() {
            Some(reason) => Err(reason),
            None => Ok(()),
        }
    }
}

impl Envelope {
    /// Whether the captured scan visited, read and accepted this much.
    pub open spec fn scan_result(self, visits: nat, contexts: nat, accepted: nat) -> Result<
        (),
        InvalidReason,
    > {
        if visits == self.visits@.len() && contexts == self.contexts@.len() && accepted
            == self.accepted {
            Ok(())
        } else {
            Err(InvalidReason::Witness)
        }
    }

    fn finish_scan(&self, visits: usize, contexts: usize, accepted: u16) -> (r: Result<
        (),
        InvalidReason,
    >)
        ensures
            r == self.scan_result(visits as nat, contexts as nat, accepted as nat),
    {
        if visits != self.visits.len() || contexts != self.contexts.len() || accepted
            != self.accepted {
            return Err(InvalidReason::Witness);
        }
        Ok(())
    }
}

/// Whether a redirect was accepted, by its keyspaces and callback: the callback
/// runs exactly where the keyspaces are equal.
pub open spec fn callback_accepted(redirect: Redirect) -> Option<bool> {
    if redirect.from_keyspace@ == redirect.to_keyspace@ {
        redirect.callback
    } else if redirect.callback is Some {
        None
    } else {
        Some(false)
    }
}

/// Whether a mutation is the one that an accepted or refused redirect makes.
pub open spec fn redirects(batch: Batch, session: u64, from: u64, to: u64, accepted: bool) -> bool {
    &&& batch.events@.len() == 1
    &&& batch.events@[0] matches LiveEvent::Lifecycle { event, source, target } && source == from
        && target == to && match event {
        Event::Redirect { session: id, operation, target: at } => accepted && id == session
            && operation != 0 && at == to,
        Event::Rejected { session: id } => !accepted && id == session,
        _ => false,
    }
}

fn is_redirect(batch: &Batch, session: u64, from: u64, to: u64, accepted: bool) -> (r: bool)
    ensures
        r == redirects(*batch, session, from, to, accepted),
{
    if batch.events.len() != 1 {
        return false;
    }
    match batch.events[0] {
        LiveEvent::Lifecycle { event, source, target } => source == from && target == to
            && match event {
            Event::Redirect { session: id, operation, target: at } => accepted && id == session
                && operation != 0 && at == to,
            Event::Rejected { session: id } => !accepted && id == session,
            _ => false,
        },
        _ => false,
    }
}

/// One step of a scan over a physical order.
pub enum ScanStep {
    /// The scan ended or was refused.
    Stop(StageModel, Result<(), InvalidReason>),
    /// The scan goes on with this many accepted redirects.
    Go(StageModel, nat),
}

/// What a compared position of a scan leads to.
enum Visited {
    /// The scan ends with this result.
    Stop(Result<(), InvalidReason>),
    /// The scan goes on with so many accepted redirects.
    Go(u16),
}

impl StageModel {
    /// The staged scheduling history of the group.
    pub open spec fn timing(self) -> Option<TimingModel> {
        let groups = self.staged.native[self.epoch].groups;
        if groups.contains_key(self.group) {
            Some(groups[self.group].timing)
        } else {
            None
        }
    }

    /// The stage after the group's history was set.
    pub open spec fn with_stored(self, stored: StoredModel, bytes: usize) -> StageModel {
        StageModel {
            staged: LiveModel {
                native: self.staged.native.insert(
                    self.epoch,
                    self.staged.native[self.epoch].with_group(self.group, stored),
                ),
                native_bytes: bytes,
                ..self.staged
            },
            ..self
        }
    }

    /// The stage after an attempt was charged and recorded, or why it cannot be.
    pub open spec fn attempt_recorded(self, session: u64, attempt: Attempt, accepted: bool) -> (
        StageModel,
        Result<(), InvalidReason>,
    ) {
        match self.timing() {
            None => (self, Err(InvalidReason::Lifecycle)),
            Some(timing) => {
                let stored = self.staged.native[self.epoch].groups[self.group];
                let known = timing.attempts.contains_key(session);
                let growth = if known {
                    0
                } else {
                    charge::node_bytes::<(u64, Attempt)>()
                };
                let clones = self.ledger_clone + self.factor_charge() + growth;
                if !known && timing.attempts.len() >= self.staged.limits.sessions {
                    (self, Err(InvalidReason::Capacity))
                } else if clones > usize::MAX || !super::affordable(
                    self.frame_bytes as nat,
                    self.retained as nat,
                    clones as nat,
                ) || self.staged.native_bytes + growth > usize::MAX {
                    (self, Err(InvalidReason::Capacity))
                } else {
                    let budget = Budget::of(
                        self.frame_bytes as nat,
                        self.retained as nat,
                        clones as nat,
                    );
                    (
                        self.recorded(budget).with_stored(
                            StoredModel {
                                charge: (stored.charge + growth) as usize,
                                timing: TimingModel {
                                    last_accepted: if accepted {
                                        Some(attempt.time)
                                    } else {
                                        timing.last_accepted
                                    },
                                    attempts: timing.attempts.insert(session, attempt),
                                },
                                ..stored
                            },
                            (self.staged.native_bytes + growth) as usize,
                        ),
                        Ok(()),
                    )
                }
            },
        }
    }

    /// The stage after a redirect and its child were compared, and whether it
    /// was accepted.
    pub open spec fn compare_redirect(
        self,
        session: u64,
        from: u64,
        to: u64,
        now: GoTime,
        redirect: Redirect,
    ) -> (StageModel, Result<bool, InvalidReason>) {
        match callback_accepted(redirect) {
            None => (self, Err(InvalidReason::Witness)),
            Some(accepted) => if !redirects(redirect.batch, session, from, to, accepted) {
                (self, Err(InvalidReason::Witness))
            } else {
                match self.batch(redirect.batch) {
                    (next, Err(reason)) => (next, Err(reason)),
                    (next, Ok(_)) => if !next.part().sessions.contains_key(session) {
                        (next, Err(InvalidReason::Identity))
                    } else {
                        let attempt = Attempt {
                            time: now,
                            operation: next.part().sessions[session].redirect_watermark,
                            pending: accepted,
                            failed: !accepted,
                        };
                        match next.attempt_recorded(session, attempt, accepted) {
                            (last, Err(reason)) => (last, Err(reason)),
                            (last, Ok(_)) => (last, Ok(accepted)),
                        }
                    },
                }
            },
        }
    }

    /// Whether a visited connection is passed over: it is closing, awaits a
    /// redirect, or its last attempt failed too recently. A watermark that no
    /// recorded attempt explains cannot be given a time.
    pub open spec fn passes_over(self, session: u64, now: GoTime) -> Result<bool, InvalidReason> {
        let state = self.part().connection(session);
        match self.timing() {
            None => Err(InvalidReason::Lifecycle),
            Some(timing) => if state.closing || state.redirect_pending {
                Ok(true)
            } else if !self.part().sessions.contains_key(session) {
                Err(InvalidReason::Identity)
            } else {
                let mark = self.part().sessions[session].redirect_watermark;
                if timing.attempts.contains_key(session) {
                    let old = timing.attempts[session];
                    if old.operation != mark {
                        Err(InvalidReason::Lifecycle)
                    } else {
                        Ok(old.failed && old.time.difference(now) + FAILURE_COOLDOWN > 0)
                    }
                } else if mark != 0 {
                    Err(InvalidReason::Lifecycle)
                } else {
                    Ok(false)
                }
            },
        }
    }

    /// One step of the scan of an account's physical order.
    pub open spec fn scan_step(
        self,
        e: Envelope,
        from: u64,
        to: u64,
        now: GoTime,
        quota: i64,
        position: nat,
        accepted: nat,
    ) -> ScanStep {
        let part = self.part();
        let at = position as int;
        if !ledger::live(part.accounts, from) {
            ScanStep::Stop(self, Err(InvalidReason::Identity))
        } else if position >= part.accounts[from].order.len() {
            ScanStep::Stop(self, e.scan_result(position, position, accepted))
        } else if position >= e.contexts@.len() {
            ScanStep::Stop(self, Err(InvalidReason::Witness))
        } else if e.contexts@[at] || accepted >= quota {
            ScanStep::Stop(self, e.scan_result(position, position + 1, accepted))
        } else if position >= 64 {
            ScanStep::Stop(self, Err(InvalidReason::Capacity))
        } else if position >= e.visits@.len() || e.visits@[at].session
            != part.accounts[from].order[at] {
            ScanStep::Stop(self, Err(InvalidReason::Witness))
        } else {
            let visit = e.visits@[at];
            let state = part.connection(visit.session);
            if !state.present || state.closed || state.physical != from {
                ScanStep::Stop(self, Err(InvalidReason::Lifecycle))
            } else {
                match (self.passes_over(visit.session, now), visit.redirect) {
                    (Err(reason), _) => ScanStep::Stop(self, Err(reason)),
                    (Ok(true), None) => ScanStep::Go(self, accepted),
                    (Ok(false), Some(redirect)) => match self.compare_redirect(
                        visit.session,
                        from,
                        to,
                        now,
                        redirect,
                    ) {
                        (next, Err(reason)) => ScanStep::Stop(next, Err(reason)),
                        (next, Ok(issued)) => ScanStep::Go(
                            next,
                            accepted + if issued {
                                1nat
                            } else {
                                0nat
                            },
                        ),
                    },
                    _ => ScanStep::Stop(self, Err(InvalidReason::Witness)),
                }
            }
        }
    }

    /// The stage after the scan from a position on was compared.
    pub open spec fn scanned(
        self,
        e: Envelope,
        from: u64,
        to: u64,
        now: GoTime,
        quota: i64,
        position: nat,
        accepted: nat,
    ) -> (StageModel, Result<(), InvalidReason>)
        decreases 65 - position,
    {
        match self.scan_step(e, from, to, now, quota, position, accepted) {
            ScanStep::Stop(stage, result) => (stage, result),
            ScanStep::Go(stage, more) => if position < 64 {
                stage.scanned(e, from, to, now, quota, position + 1, more)
            } else {
                (stage, Err(InvalidReason::Capacity))
            },
        }
    }

    /// The two members that a decision names.
    pub open spec fn pair_of(e: Envelope, from: i16, to: i16) -> Option<(u64, u64)> {
        if 0 <= from < e.members@.len() && 0 <= to < e.members@.len() && e.members@[from as int]
            != e.members@[to as int] {
            Some((e.members@[from as int], e.members@[to as int]))
        } else {
            None
        }
    }

    /// The stage after a balance whose evaluation decided this rate and pair was
    /// compared.
    pub open spec fn compare_pair(self, e: Envelope, rate: Rate, from: i16, to: i16) -> (
        StageModel,
        Result<(), InvalidReason>,
    ) {
        match (e.clock, StageModel::pair_of(e, from, to), self.timing()) {
            (Some(clock), Some((source, target)), Some(timing)) => {
                let last = match timing.last_accepted {
                    Some(last) => last,
                    None => self.staged.native[self.epoch].coverage.zero_time,
                };
                match rate.outcome(
                    clock.from_keyspace@ == clock.to_keyspace@,
                    clock.now,
                    last,
                ) {
                    AfterClock::CrossKeyspace | AfterClock::Wait { .. } => (
                        self,
                        e.scan_result(0, 0, 0),
                    ),
                    AfterClock::DivideByZero => (self, Err(InvalidReason::Lifecycle)),
                    AfterClock::Scan { quota, .. } => self.scanned(
                        e,
                        source,
                        target,
                        clock.now,
                        quota,
                        0,
                        0,
                    ),
                }
            },
            (Some(_), Some(_), None) => (self, Err(InvalidReason::Lifecycle)),
            _ => (self, Err(InvalidReason::Witness)),
        }
    }

    /// The stage after a balance was compared: its members are the retained
    /// inventory in the evaluated order, the rate and pair are the computed
    /// ones, and the scan is what rate, clock, physical order and attempt
    /// history make of it.
    pub open spec fn compare_balance(self, e: Envelope, c: Computation) -> (
        StageModel,
        Result<(), InvalidReason>,
    ) {
        if !route::inventory(self.part(), e.group, e.members@) || !route::evaluates(
            *e.evaluation,
            e.members@,
        ) {
            (self, Err(InvalidReason::Witness))
        } else {
            match self.evaluation(*e.evaluation, c) {
                (next, Err(reason)) => (next, Err(reason)),
                (next, Ok(decision)) => if !(decision.entry is Balance) {
                    (next, Err(InvalidReason::Witness))
                } else if native::zero_bits(decision.rate.bits) {
                    if e.clock is Some {
                        (next, Err(InvalidReason::Witness))
                    } else {
                        (next, e.scan_result(0, 0, 0))
                    }
                } else {
                    next.compare_pair(
                        e,
                        Rate { interval: decision.rate.interval },
                        decision.from,
                        decision.to,
                    )
                },
            }
        }
    }
}

impl<'a> Stage<'a> {
    fn record_attempt(&mut self, session: u64, attempt: Attempt, accepted: bool) -> (r: Result<
        (),
        InvalidReason,
    >)
        requires
            old(self).wf(),
        ensures
            final(self).wf(),
            (final(self).model(), r) == old(self).model().attempt_recorded(
                session,
                attempt,
                accepted,
            ),
            *final(final(self).original) == *final(old(self).original),
    {
        let ghost before = self.model();
        let (known, count) = match self.staged.native.get(self.epoch) {
            Some(owner) => match owner.groups.get(self.group) {
                Some(stored) => (
                    stored.timing.attempts.contains_key(session),
                    stored.timing.attempts.len(),
                ),
                None => return Err(InvalidReason::Lifecycle),
            },
            None => return Err(InvalidReason::Lifecycle),
        };
        let growth: usize = if known {
            0
        } else {
            timing::attempt_charge()
        };
        if !known && count >= self.staged.limits.sessions {
            return Err(InvalidReason::Capacity);
        }
        let factor = self.factor_charge();
        let clones = match self.ledger_clone.checked_add(factor) {
            Some(sum) => match sum.checked_add(growth) {
                Some(clones) => clones,
                None => return Err(InvalidReason::Capacity),
            },
            None => return Err(InvalidReason::Capacity),
        };
        let budget = match Budget::new(self.frame_bytes, self.retained, clones) {
            Ok(budget) => budget,
            Err(reason) => return Err(reason),
        };
        let bytes = match self.staged.native_bytes.checked_add(growth) {
            Some(bytes) => bytes,
            None => return Err(InvalidReason::Capacity),
        };
        // Admission precedes the first possible allocation of the entry.
        self.record(budget);
        if let Some(owner) = self.staged.native.get_mut(self.epoch) {
            if let Some(stored) = owner.groups.get_mut(self.group) {
                stored.timing.attempts.insert(session, attempt);
                if accepted {
                    stored.timing.last_accepted = Some(attempt.time);
                }
                stored.charge = stored.charge + growth;
            }
        }
        self.staged.native_bytes = bytes;
        proof {
            let expected = before.attempt_recorded(session, attempt, accepted).0;
            assert(self.model().staged.native[self.epoch].groups
                =~= expected.staged.native[self.epoch].groups);
            assert(self.model().staged.native =~= expected.staged.native);
            assert(self.model().staged =~= expected.staged);
            assert(self.model() =~= expected);
            assert(self.model().sound());
        }
        Ok(())
    }

    fn compare_redirect(
        &mut self,
        session: u64,
        from: u64,
        to: u64,
        now: GoTime,
        redirect: &Redirect,
    ) -> (r: Result<bool, InvalidReason>)
        requires
            old(self).wf(),
        ensures
            final(self).wf(),
            (final(self).model(), r) == old(self).model().compare_redirect(
                session,
                from,
                to,
                now,
                *redirect,
            ),
            *final(final(self).original) == *final(old(self).original),
    {
        let same = redirect.from_keyspace == redirect.to_keyspace;
        let accepted = match (same, redirect.callback) {
            (true, Some(accepted)) => accepted,
            (false, None) => false,
            _ => return Err(InvalidReason::Witness),
        };
        if !is_redirect(&redirect.batch, session, from, to, accepted) {
            return Err(InvalidReason::Witness);
        }
        if let Err(reason) = self.batch(&redirect.batch) {
            return Err(reason);
        }
        let mark = match self.staged.core.owner(self.epoch.owner_key()) {
            Some(owner) => owner.ledger.caller_redirect_watermark(session),
            None => None,
        };
        let operation = match mark {
            Some(operation) => operation,
            None => return Err(InvalidReason::Identity),
        };
        let attempt = Attempt { time: now, operation, pending: accepted, failed: !accepted };
        if let Err(reason) = self.record_attempt(session, attempt, accepted) {
            return Err(reason);
        }
        Ok(accepted)
    }

    fn pass_over(&self, session: u64, now: GoTime) -> (r: Result<bool, InvalidReason>)
        requires
            self.wf(),
        ensures
            r == self.model().passes_over(session, now),
    {
        let owner = match self.staged.core.owner(self.epoch.owner_key()) {
            Some(owner) => owner,
            None => return Err(InvalidReason::Identity),
        };
        let previous = match self.staged.native.get(self.epoch) {
            Some(native) => match native.groups.get(self.group) {
                Some(stored) => match stored.timing.attempts.get(session) {
                    Some(attempt) => Some(*attempt),
                    None => None,
                },
                None => return Err(InvalidReason::Lifecycle),
            },
            None => return Err(InvalidReason::Lifecycle),
        };
        let state = owner.ledger.connection(session);
        if state.closing || state.redirect_pending {
            return Ok(true);
        }
        let mark = match owner.ledger.caller_redirect_watermark(session) {
            Some(mark) => mark,
            None => return Err(InvalidReason::Identity),
        };
        match previous {
            Some(old) => {
                // A prior untyped redirect cannot fabricate a known clock.
                if old.operation != mark {
                    return Err(InvalidReason::Lifecycle);
                }
                Ok(old.failed && old.time.plus_is_after(FAILURE_COOLDOWN, now))
            },
            None => {
                if mark != 0 {
                    return Err(InvalidReason::Lifecycle);
                }
                Ok(false)
            },
        }
    }

    /// Compare one position of a scan.
    #[verifier::spinoff_prover]
    fn scan_visit(
        &mut self,
        e: &Envelope,
        from: u64,
        to: u64,
        now: GoTime,
        quota: i64,
        position: usize,
        accepted: u16,
    ) -> (r: Visited)
        requires
            old(self).wf(),
            position <= 64,
            accepted <= position,
        ensures
            final(self).wf(),
            *final(final(self).original) == *final(old(self).original),
            match old(self).model().scan_step(
                *e,
                from,
                to,
                now,
                quota,
                position as nat,
                accepted as nat,
            ) {
                ScanStep::Stop(stage, result) => final(self).model() == stage && r == Visited::Stop(
                    result,
                ),
                ScanStep::Go(stage, more) => {
                    &&& final(self).model() == stage
                    &&& r == Visited::Go(more as u16)
                    &&& more <= position + 1
                    &&& position < 64
                },
            },
    {
        // The independent list may exceed the admitted visited subset.
        let owner = match self.staged.core.owner(self.epoch.owner_key()) {
            Some(owner) => owner,
            None => return Visited::Stop(Err(InvalidReason::Identity)),
        };
        let physical = match owner.ledger.caller_physical(from) {
            Some(physical) => physical,
            None => return Visited::Stop(Err(InvalidReason::Identity)),
        };
        if position >= physical.len() {
            // Deliberately late: no child or timing update survives a final
            // mismatch.
            return Visited::Stop(e.finish_scan(position, position, accepted));
        }
        if position >= e.contexts.len() {
            return Visited::Stop(Err(InvalidReason::Witness));
        }
        if e.contexts[position] || accepted as i64 >= quota {
            return Visited::Stop(e.finish_scan(position, position + 1, accepted));
        }
        if position >= 64 {
            return Visited::Stop(Err(InvalidReason::Capacity));
        }
        if position >= e.visits.len() {
            return Visited::Stop(Err(InvalidReason::Witness));
        }
        let visit = &e.visits[position];
        if visit.session != physical[position] {
            return Visited::Stop(Err(InvalidReason::Witness));
        }
        let state = owner.ledger.connection(visit.session);
        if !state.present || state.closed || state.physical != from {
            return Visited::Stop(Err(InvalidReason::Lifecycle));
        }
        let skip = match self.pass_over(visit.session, now) {
            Ok(skip) => skip,
            Err(reason) => return Visited::Stop(Err(reason)),
        };
        match (skip, &visit.redirect) {
            (true, None) => Visited::Go(accepted),
            (false, Some(redirect)) => match self.compare_redirect(
                visit.session,
                from,
                to,
                now,
                redirect,
            ) {
                Ok(true) => Visited::Go(accepted + 1),
                Ok(false) => Visited::Go(accepted),
                Err(reason) => Visited::Stop(Err(reason)),
            },
            _ => Visited::Stop(Err(InvalidReason::Witness)),
        }
    }

    #[verifier::spinoff_prover]
    fn scan_balance(&mut self, e: &Envelope, from: u64, to: u64, now: GoTime, quota: i64) -> (r: Result<
        (),
        InvalidReason,
    >)
        requires
            old(self).wf(),
        ensures
            final(self).wf(),
            (final(self).model(), r) == old(self).model().scanned(*e, from, to, now, quota, 0, 0),
            *final(final(self).original) == *final(old(self).original),
    {
        let ghost target = self.model().scanned(*e, from, to, now, quota, 0, 0);
        let ghost end = *final(self.original);
        let mut position: usize = 0;
        let mut accepted: u16 = 0;
        while position < 65
            invariant
                self.wf(),
                *final(self.original) == end,
                end == *final(old(self).original),
                position <= 64,
                accepted <= position,
                target == old(self).model().scanned(*e, from, to, now, quota, 0, 0),
                self.model().scanned(
                    *e,
                    from,
                    to,
                    now,
                    quota,
                    position as nat,
                    accepted as nat,
                ) == target,
            decreases 65 - position,
        {
            match self.scan_visit(e, from, to, now, quota, position, accepted) {
                Visited::Stop(result) => return result,
                Visited::Go(more) => {
                    accepted = more;
                },
            }
            position = position + 1;
        }
        Err(InvalidReason::Capacity)
    }

    fn compare_pair(&mut self, e: &Envelope, rate: Rate, from: i16, to: i16) -> (r: Result<
        (),
        InvalidReason,
    >)
        requires
            old(self).wf(),
            e.members@.len() <= 64,
        ensures
            final(self).wf(),
            (final(self).model(), r) == old(self).model().compare_pair(*e, rate, from, to),
            *final(final(self).original) == *final(old(self).original),
    {
        let clock = match &e.clock {
            Some(clock) => clock,
            None => return Err(InvalidReason::Witness),
        };
        if from < 0 || to < 0 || from as usize >= e.members.len() || to as usize >= e.members.len() {
            return Err(InvalidReason::Witness);
        }
        let source = e.members[from as usize];
        let target = e.members[to as usize];
        if source == target {
            return Err(InvalidReason::Witness);
        }
        let last = match self.staged.native.get(self.epoch) {
            Some(owner) => match owner.groups.get(self.group) {
                Some(stored) => match stored.timing.last_accepted {
                    Some(last) => last,
                    None => owner.coverage.zero_time,
                },
                None => return Err(InvalidReason::Lifecycle),
            },
            None => return Err(InvalidReason::Lifecycle),
        };
        let same = clock.from_keyspace == clock.to_keyspace;
        match rate.after_clock(same, clock.now, last) {
            AfterClock::CrossKeyspace | AfterClock::Wait { .. } => e.finish_scan(0, 0, 0),
            AfterClock::DivideByZero => Err(InvalidReason::Lifecycle),
            AfterClock::Scan { quota, .. } => self.scan_balance(
                e,
                source,
                target,
                clock.now,
                quota,
            ),
        }
    }

    /// Compare a Group Balance with what its evaluation, reads and retained
    /// history derive.
    ///
    /// # Errors
    /// Any mismatch of inventory, evaluation, clock, scan or children.
    pub fn compare_balance(&mut self, e: &Envelope, c: &Computation) -> (r: Result<
        (),
        InvalidReason,
    >)
        requires
            old(self).wf(),
            e.shape_refusal() is None,
        ensures
            final(self).wf(),
            (final(self).model(), r) == old(self).model().compare_balance(*e, *c),
            *final(final(self).original) == *final(old(self).original),
    {
        if !self.holds_inventory(e.group, &e.members) || !route::is_evaluated(
            &e.evaluation,
            &e.members,
        ) {
            return Err(InvalidReason::Witness);
        }
        let decision = match self.evaluation(&e.evaluation, c) {
            Ok(decision) => decision,
            Err(reason) => return Err(reason),
        };
        let rate = match decision.balance_rate() {
            Some(rate) => rate,
            None => return Err(InvalidReason::Witness),
        };
        match arithmetic::start(rate) {
            Start::NoRate => {
                if e.clock.is_some() {
                    return Err(InvalidReason::Witness);
                }
                e.finish_scan(0, 0, 0)
            },
            Start::ReadClock(rate) => {
                let (from, to, _) = decision.pair();
                self.compare_pair(e, rate, from, to)
            },
        }
    }
}

impl Envelope {
    /// The scope that the envelope is compared in.
    pub open spec fn scope(self, frame_bytes: usize) -> ScopeModel {
        ScopeModel {
            epoch: self.epoch,
            group: self.group,
            sequence: self.sequence,
            span: self.span,
            sessions: visited(self.visits@),
            frame_bytes,
        }
    }
}

impl LiveModel {
    /// The state after a well-formed Group Balance was compared, and its result.
    pub open spec fn group_balance(
        self,
        e: Envelope,
        c: Computation,
        frame_bytes: usize,
        copy: Result<usize, InvalidReason>,
    ) -> (LiveModel, Progress) {
        match self.plan(e.scope(frame_bytes), copy) {
            Err(reason) => self.unentered(e.epoch, reason),
            Ok(plan) => {
                let (stage, result) = self.staged(e.scope(frame_bytes), plan).compare_balance(e, c);
                stage.concluded(result)
            },
        }
    }
}

impl LiveState {
    /// Independently compare the full Group Balance and atomically commit its
    /// factor, lifecycle and timing history. This is a preparatory domain API;
    /// it grants no installed scheduling or transport capability.
    pub fn observe_group_balance(&mut self, envelope: &Envelope, computation: &Computation, frame_bytes: usize) -> (r:
        Progress)
        requires
            old(self).wf(),
            old(self).model().accounted(),
        ensures
            final(self).wf(),
            final(self).model().accounted(),
            envelope.shape_refusal() matches Some(reason) ==> (final(self).model(), r) == old(
                self,
            ).model().malformed(envelope.epoch, reason),
            envelope.shape_refusal() is None ==> exists|copy: Result<usize, InvalidReason>|
                #[trigger] old(self).model().may_copy(envelope.scope(frame_bytes), copy) && (
                final(self).model(),
                r,
            ) == old(self).model().group_balance(*envelope, *computation, frame_bytes, copy),
    {
        if let Err(reason) = envelope.validate() {
            return self.invalidate(envelope.epoch, reason);
        }
        let previous = self.progress(envelope.epoch).compared_sequence;
        let ghost ids = visited(envelope.visits@);
        let mut sessions: Vec<u64> = Vec::new();
        let mut index: usize = 0;
        while index < envelope.visits.len()
            invariant
                index <= envelope.visits@.len(),
                ids == visited(envelope.visits@),
                sessions@ == ids.take(index as int),
            decreases envelope.visits@.len() - index,
        {
            sessions.push(envelope.visits[index].session);
            assert(sessions@ =~= ids.take(index + 1));
            index = index + 1;
        }
        let scope = Scope {
            epoch: envelope.epoch,
            group: envelope.group,
            sequence: envelope.sequence,
            span: envelope.span,
            sessions: sessions.as_slice(),
            frame_bytes,
        };
        assert(scope@ =~= envelope.scope(frame_bytes)) by {
            assert(scope.sessions@ =~= ids);
        }
        match self.begin_caller(scope) {
            Ok(mut stage) => {
                let comparison = stage.compare_balance(envelope, computation);
                stage.finish(comparison)
            },
            Err(reason) => Progress {
                status: Status::Invalid(reason),
                compared_sequence: previous,
                transition: None,
            },
        }
    }
}

/// Whether a visit redirected and the callback took it.
pub open spec fn issued(visit: Visit) -> bool {
    visit.redirect matches Some(redirect) && redirect.callback == Some(true)
}

/// How many of the visits from one position up to another were redirected and
/// taken.
pub open spec fn issued_between(visits: Seq<Visit>, from: int, to: int) -> nat
    decreases to - from,
{
    if to <= from {
        0
    } else {
        issued_between(visits, from, to - 1) + if issued(visits[to - 1]) {
            1nat
        } else {
            0nat
        }
    }
}

proof fn lemma_issued_first(visits: Seq<Visit>, from: int, to: int)
    requires
        from < to,
    ensures
        issued_between(visits, from, to) == issued_between(visits, from + 1, to) + if issued(
            visits[from],
        ) {
            1nat
        } else {
            0nat
        },
    decreases to - from,
{
    if from + 1 < to {
        lemma_issued_first(visits, from, to - 1);
    } else {
        assert(issued_between(visits, from, from) == 0);
        assert(issued_between(visits, from + 1, to) == 0);
    }
}

/// What an accepted scan from a position on looks like.
spec fn covered(e: Envelope, quota: i64, position: int, accepted: nat) -> bool {
    let total = e.visits@.len() as int;
    &&& 0 <= position <= total <= 64
    &&& total <= e.contexts@.len() <= total + 1
    &&& forall|i: int| position <= i < total ==> !#[trigger] e.contexts@[i]
    &&& forall|i: int|
        position <= i < total ==> #[trigger] issued_between(e.visits@, position, i) + accepted
            < quota
    &&& e.accepted == accepted + issued_between(e.visits@, position, total)
    &&& e.contexts@.len() == total + 1 ==> e.contexts@[total] || e.accepted >= quota
}

#[verifier::spinoff_prover]
#[verifier::rlimit(40)]
proof fn lemma_scan_stops(
    stage: StageModel,
    e: Envelope,
    from: u64,
    to: u64,
    now: GoTime,
    quota: i64,
    position: nat,
    accepted: nat,
)
    ensures
        stage.scan_step(e, from, to, now, quota, position, accepted) matches ScanStep::Stop(
            last,
            result,
        ) ==> (result is Ok ==> {
            &&& position == e.visits@.len()
            &&& position <= e.contexts@.len() <= position + 1
            &&& accepted == e.accepted
            &&& e.contexts@.len() == position + 1 ==> e.contexts@[position as int] || accepted
                >= quota
            &&& e.contexts@.len() == position ==> ledger::live(last.part().accounts, from)
                && last.part().accounts[from].order.len() <= position
        }),
{
}

#[verifier::spinoff_prover]
#[verifier::rlimit(40)]
proof fn lemma_scan_goes_on(
    stage: StageModel,
    e: Envelope,
    from: u64,
    to: u64,
    now: GoTime,
    quota: i64,
    position: nat,
    accepted: nat,
)
    ensures
        stage.scan_step(e, from, to, now, quota, position, accepted) matches ScanStep::Go(
            next,
            more,
        ) ==> {
            &&& position < 64
            &&& position < e.visits@.len()
            &&& position < e.contexts@.len()
            &&& !e.contexts@[position as int]
            &&& accepted < quota
            &&& more == accepted + if issued(e.visits@[position as int]) {
                1nat
            } else {
                0nat
            }
        },
{
}

proof fn lemma_covered_before(e: Envelope, quota: i64, position: int, accepted: nat, more: nat)
    requires
        0 <= position < e.visits@.len(),
        position < e.contexts@.len(),
        !e.contexts@[position],
        accepted < quota,
        more == accepted + if issued(e.visits@[position]) {
            1nat
        } else {
            0nat
        },
        covered(e, quota, position + 1, more),
    ensures
        covered(e, quota, position, accepted),
{
    let total = e.visits@.len() as int;
    assert(issued_between(e.visits@, position, position) == 0);
    assert forall|i: int| position <= i < total implies #[trigger] issued_between(
        e.visits@,
        position,
        i,
    ) + accepted < quota by {
        if i > position {
            lemma_issued_first(e.visits@, position, i);
            assert(issued_between(e.visits@, position + 1, i) + more < quota);
        }
    }
    lemma_issued_first(e.visits@, position, total);
    assert forall|i: int| position <= i < total implies !#[trigger] e.contexts@[i] by {}
}

#[verifier::spinoff_prover]
#[verifier::rlimit(40)]
proof fn lemma_scanned(
    stage: StageModel,
    e: Envelope,
    from: u64,
    to: u64,
    now: GoTime,
    quota: i64,
    position: nat,
    accepted: nat,
)
    requires
        position <= 64,
        stage.scanned(e, from, to, now, quota, position, accepted).1 is Ok,
    ensures
        covered(e, quota, position as int, accepted),
        e.contexts@.len() == e.visits@.len() ==> ({
            let last = stage.scanned(e, from, to, now, quota, position, accepted).0.part();
            ledger::live(last.accounts, from) && last.accounts[from].order.len()
                <= e.visits@.len()
        }),
    decreases 65 - position,
{
    lemma_scan_stops(stage, e, from, to, now, quota, position, accepted);
    lemma_scan_goes_on(stage, e, from, to, now, quota, position, accepted);
    let step = stage.scan_step(e, from, to, now, quota, position, accepted);
    if step is Go {
        let next = step->Go_0;
        let more = step->Go_1;
        lemma_scanned(next, e, from, to, now, quota, position + 1, more);
        assert(covered(e, quota, (position + 1) as int, more));
        lemma_covered_before(e, quota, position as int, accepted, more);
    } else {
        assert(issued_between(e.visits@, position as int, position as int) == 0);
    }
}

/// An accepted scan made every visit before a cancellation was read and while
/// fewer redirects than the quota had been taken; it counts exactly the
/// redirects that were taken; and it ended because the physical order was
/// exhausted, or after one more context read because that read was a
/// cancellation or the quota was used up.
pub proof fn law_scans_use_up_their_quota(
    stage: StageModel,
    e: Envelope,
    from: u64,
    to: u64,
    now: GoTime,
    quota: i64,
)
    requires
        stage.scanned(e, from, to, now, quota, 0, 0).1 is Ok,
    ensures
        e.accepted == issued_between(e.visits@, 0, e.visits@.len() as int),
        forall|i: int| 0 <= i < e.visits@.len() ==> !#[trigger] e.contexts@[i],
        forall|i: int|
            0 <= i < e.visits@.len() ==> #[trigger] issued_between(e.visits@, 0, i) < quota,
        e.contexts@.len() == e.visits@.len() || e.contexts@.len() == e.visits@.len() + 1,
        e.contexts@.len() == e.visits@.len() + 1 ==> e.contexts@.last() || e.accepted >= quota,
        e.contexts@.len() == e.visits@.len() ==> ({
            let last = stage.scanned(e, from, to, now, quota, 0, 0).0.part();
            ledger::live(last.accounts, from) && last.accounts[from].order.len()
                <= e.visits@.len()
        }),
{
    lemma_scanned(stage, e, from, to, now, quota, 0, 0);
    assert forall|i: int| 0 <= i < e.visits@.len() implies #[trigger] issued_between(
        e.visits@,
        0,
        i,
    ) < quota by {
        assert(issued_between(e.visits@, 0, i) + 0nat < quota);
    }
}

/// A scan goes on past a position only where the visit is the one that the
/// account's physical order has there, the connection is open on that account,
/// and it was redirected exactly where it may be: not while it closes, awaits a
/// redirect, or cools down after a failure.
#[verifier::rlimit(40)]
pub proof fn law_scans_follow_the_physical_order(
    stage: StageModel,
    e: Envelope,
    from: u64,
    to: u64,
    now: GoTime,
    quota: i64,
    position: nat,
    accepted: nat,
)
    requires
        stage.scan_step(e, from, to, now, quota, position, accepted) is Go,
    ensures
        ({
            let visit = e.visits@[position as int];
            let part = stage.part();
            let state = part.connection(visit.session);
            &&& visit.session == part.accounts[from].order[position as int]
            &&& state.present
            &&& !state.closed
            &&& state.physical == from
            &&& state.closing || state.redirect_pending ==> visit.redirect is None
            &&& !state.closing && !state.redirect_pending ==> {
                let attempts = stage.timing()->0.attempts;
                &&& !attempts.contains_key(visit.session) ==> visit.redirect is Some
                &&& attempts.contains_key(visit.session) ==> {
                    let last = attempts[visit.session];
                    &&& !last.failed ==> visit.redirect is Some
                    &&& last.failed ==> (visit.redirect is None <==> now.difference(last.time)
                        < 3_000_000_000)
                }
            }
        }),
{
    let visit = e.visits@[position as int];
    let attempts = stage.timing()->0.attempts;
    if attempts.contains_key(visit.session) {
        let last = attempts[visit.session];
        assert(last.time.difference(now) == -now.difference(last.time));
    }
}

/// A redirect is taken exactly where the keyspaces read at the callback are
/// equal and the callback took it; the callback runs exactly where they are
/// equal. Its one lifecycle event redirects the session to the target, or
/// rejects it, and the attempt is kept with the balance clock.
#[verifier::rlimit(40)]
pub proof fn law_redirects_are_the_callbacks(
    stage: StageModel,
    session: u64,
    from: u64,
    to: u64,
    now: GoTime,
    redirect: Redirect,
)
    requires
        stage.compare_redirect(session, from, to, now, redirect).1 is Ok,
    ensures
        ({
            let (after, result) = stage.compare_redirect(session, from, to, now, redirect);
            let accepted = result->Ok_0;
            &&& redirect.callback is Some <==> redirect.from_keyspace@ == redirect.to_keyspace@
            &&& accepted <==> redirect.callback == Some(true)
            &&& redirect.batch.events@.len() == 1
            &&& accepted ==> (redirect.batch.events@[0] matches LiveEvent::Lifecycle {
                event: Event::Redirect { session: id, target: at, operation },
                source,
                target,
            } && id == session && at == to && source == from && target == to && operation != 0)
            &&& !accepted ==> (redirect.batch.events@[0] matches LiveEvent::Lifecycle {
                event: Event::Rejected { session: id },
                source,
                target,
            } && id == session && source == from && target == to)
            &&& stage.batch(redirect.batch).1 is Ok
            &&& after.timing() matches Some(timing) && timing.attempts.contains_key(session) && {
                let kept = timing.attempts[session];
                &&& kept.time == now
                &&& kept.pending == accepted
                &&& kept.failed == !accepted
                &&& accepted ==> timing.last_accepted == Some(now)
                &&& !accepted ==> timing.last_accepted == stage.batch(
                    redirect.batch,
                ).0.timing()->0.last_accepted
            }
        }),
{
    let next = stage.batch(redirect.batch).0;
    let (after, result) = stage.compare_redirect(session, from, to, now, redirect);
    let accepted = result->Ok_0;
    let attempt = Attempt {
        time: now,
        operation: next.part().sessions[session].redirect_watermark,
        pending: accepted,
        failed: !accepted,
    };
    assert(next.attempt_recorded(session, attempt, accepted) == (after, Ok::<(), InvalidReason>(())));
    assert(after.staged.native.contains_key(after.epoch));
    assert(after.timing() is Some);
}

/// An accepted balance names the retained members in the order in which they
/// were evaluated. One whose rate is zero reads no clock and visits nothing;
/// any other reads one clock and decides with it about a pair of different
/// members, and visits nothing where their keyspaces differ.
#[verifier::rlimit(40)]
pub proof fn law_balances_follow_their_evaluation(stage: StageModel, e: Envelope, c: Computation)
    requires
        stage.compare_balance(e, c).1 is Ok,
    ensures
        route::inventory(stage.part(), e.group, e.members@),
        stage.evaluation(*e.evaluation, c).1 is Ok,
        ({
            let decision = stage.evaluation(*e.evaluation, c).1->Ok_0;
            &&& decision.entry is Balance
            &&& e.clock is None <==> native::zero_bits(decision.rate.bits)
            &&& e.clock is None ==> e.visits@.len() == 0 && e.contexts@.len() == 0 && e.accepted
                == 0
            &&& e.clock matches Some(clock) ==> {
                &&& 0 <= decision.from < e.members@.len()
                &&& 0 <= decision.to < e.members@.len()
                &&& e.members@[decision.from as int] != e.members@[decision.to as int]
                &&& clock.from_keyspace@ != clock.to_keyspace@ ==> e.visits@.len() == 0
                    && e.contexts@.len() == 0 && e.accepted == 0
            }
        }),
{
}

proof fn lemma_redirects_are_counted(visits: Seq<Visit>, count: int)
    requires
        0 <= count <= visits.len(),
    ensures
        redirect_count(visits, count) == visits.take(count).filter(
            |visit: Visit| visit.redirect is Some,
        ).len(),
    decreases count,
{
    reveal(Seq::filter);
    if count > 0 {
        lemma_redirects_are_counted(visits, count - 1);
        assert(visits.take(count).drop_last() =~= visits.take(count - 1));
        assert(visits.take(count).last() == visits[count - 1]);
    } else {
        assert(visits.take(0).len() == 0);
    }
}

proof fn lemma_visits_accepted(e: Envelope, count: int, at: int)
    requires
        0 <= at < count,
        e.visits_refusal(count) is None,
    ensures
        e.visits_refusal(at + 1) is None,
    decreases count - at,
{
    if at + 1 < count {
        lemma_visits_accepted(e, count - 1, at);
    }
}

/// An accepted envelope names no session twice. Its redirects take contiguous
/// sequences after the evaluation's, one each, with one event; and it spans the
/// evaluation, the redirects and the balance itself.
#[verifier::rlimit(40)]
pub proof fn law_balances_span_their_redirects(e: Envelope)
    requires
        e.shape_refusal() is None,
    ensures
        e.evaluation.sequence == e.sequence,
        e.evaluation.epoch == e.epoch,
        e.evaluation.group == e.group,
        e.evaluation.entry is Balance,
        e.members@.no_duplicates(),
        !e.members@.contains(0),
        e.visits@.len() <= 64,
        e.span == e.visits@.filter(|visit: Visit| visit.redirect is Some).len() + 2,
        forall|i: int| 0 <= i < e.visits@.len() ==> (#[trigger] e.visits@[i]).session != 0,
        forall|i: int, j: int|
            0 <= i < j < e.visits@.len() ==> (#[trigger] e.visits@[i]).session != (
            #[trigger] e.visits@[j]).session,
        forall|i: int|
            0 <= i < e.visits@.len() ==> ((#[trigger] e.visits@[i]).redirect matches Some(redirect)
                ==> {
                &&& redirect.batch.epoch == e.epoch
                &&& redirect.batch.events@.len() == 1
                &&& redirect.batch.witness.accounts@.len() <= 2
                &&& redirect.batch.sequence == e.sequence + 1 + e.visits@.take(i).filter(
                    |visit: Visit| visit.redirect is Some,
                ).len()
            }),
{
    let total = e.visits@.len() as int;
    lemma_redirects_are_counted(e.visits@, total);
    assert(e.visits@.take(total) =~= e.visits@);
    assert forall|i: int| 0 <= i < e.visits@.len() implies (#[trigger] e.visits@[i]).session != 0 by {
        lemma_visits_accepted(e, total, i);
    }
    assert forall|i: int, j: int| 0 <= i < j < e.visits@.len() implies (
    #[trigger] e.visits@[i]).session != (#[trigger] e.visits@[j]).session by {
        lemma_visits_accepted(e, total, j);
        let before = visited(e.visits@).take(j);
        assert(before[i] == e.visits@[i].session);
        assert(before.contains(before[i]));
    }
    assert forall|i: int| 0 <= i < e.visits@.len() implies (
    (#[trigger] e.visits@[i]).redirect matches Some(redirect) ==> {
        &&& redirect.batch.epoch == e.epoch
        &&& redirect.batch.events@.len() == 1
        &&& redirect.batch.witness.accounts@.len() <= 2
        &&& redirect.batch.sequence == e.sequence + 1 + e.visits@.take(i).filter(
            |visit: Visit| visit.redirect is Some,
        ).len()
    }) by {
        lemma_visits_accepted(e, total, i);
        lemma_redirects_are_counted(e.visits@, i);
        assert(e.redirect_refusal(i) is None);
    }
}

/// A pair is scanned with the quota that its rate, the clock and the last
/// accepted redirect give, or before any with the owner's zero time; where they
/// say to wait, nothing is visited.
#[verifier::rlimit(40)]
pub proof fn law_pairs_wait_their_turn(stage: StageModel, e: Envelope, rate: Rate, from: i16, to: i16)
    requires
        stage.compare_pair(e, rate, from, to).1 is Ok,
    ensures
        e.clock is Some,
        stage.timing() is Some,
        ({
            let clock = e.clock->0;
            let last = if stage.timing()->0.last_accepted is Some {
                stage.timing()->0.last_accepted->0
            } else {
                stage.staged.native[stage.epoch].coverage.zero_time
            };
            let same = clock.from_keyspace@ == clock.to_keyspace@;
            match rate.outcome(same, clock.now, last) {
                AfterClock::Scan { quota, .. } => stage.compare_pair(e, rate, from, to)
                    == stage.scanned(
                    e,
                    e.members@[from as int],
                    e.members@[to as int],
                    clock.now,
                    quota,
                    0,
                    0,
                ),
                _ => e.visits@.len() == 0 && e.accepted == 0 && stage.compare_pair(
                    e,
                    rate,
                    from,
                    to,
                ).0 == stage,
            }
        }),
{
}

} // verus!
