//! What a stage retains when it is committed, and that nothing of it remains
//! when it is not.
use vstd::prelude::*;

use super::laws::{peaks_rise, same_history};
use super::metadata::Boundary as MetadataBoundary;
use super::selection;
use super::selection::{Boundary, BoundaryEvent, DerivedResult, SelectionModel};
use super::selector_state::closed_kept;
use super::timing::Attempt;
use super::{balance, finish, metadata, route, router_route};
use super::{LiveModel, Plan, ScopeModel, StageModel};
use crate::go_time::GoTime;
use crate::shadow::live::native::HISTORY_LIMIT;
use crate::shadow::live::retention;
use crate::shadow::live::{Batch, SelectorKey};
use crate::shadow::native::{Coverage, Evaluation};
use crate::shadow::native_compute::Computation;
use crate::shadow::{Epoch, InvalidReason, OwnerKey, Progress};

verus! {

impl StageModel {
    /// The selectors that the stage created.
    pub open spec fn created(self) -> Set<SelectorKey> {
        self.staged.selectors.dom().difference(self.original.selectors.dom())
    }

    /// The stage's bytes are exactly what the retained history, the copies and
    /// the created selectors are charged, and stay within the history limit.
    pub open spec fn charged(self) -> bool {
        &&& self.original.charged()
        &&& self.original.native.contains_key(self.epoch)
        &&& self.staged.native.contains_key(self.epoch)
        &&& self.retained == self.original.native_bytes
        &&& self.original_factor == self.original.native[self.epoch].charge_of(self.group)
        &&& self.original.native[self.epoch].groups.contains_key(self.group)
            ==> self.staged.native[self.epoch].groups.contains_key(self.group)
        &&& self.staged.selectors.dom().finite()
        &&& forall|key: SelectorKey| #[trigger]
            self.original.selectors.contains_key(key) && key.epoch == self.epoch
                && self.sessions.contains(key.session) ==> self.staged.selectors.contains_key(key)
        &&& self.grown == self.created().len() * selection::stored_bytes()
        &&& self.grown <= self.ledger_clone
        &&& self.staged.native_bytes == self.retained + self.ledger_clone + self.factor_charge()
        &&& self.staged.native_bytes <= HISTORY_LIMIT
    }

    /// The stage is of the same scope as another, and over the same history, with
    /// peaks that only rose and the same closed selectors.
    pub open spec fn follows(self, before: StageModel) -> bool {
        &&& same_history(self.original, before.original)
        &&& peaks_rise(before.original, self.original)
        &&& closed_kept(before.staged.selectors, self.staged.selectors)
        &&& forall|key: SelectorKey| #[trigger]
            self.staged.selectors.contains_key(key) ==> before.staged.selectors.contains_key(key)
                || key.epoch == self.epoch && self.sessions.contains(key.session)
        &&& self.epoch == before.epoch
        &&& self.group == before.group
        &&& self.sessions == before.sessions
        &&& self.last_sequence == before.last_sequence
        &&& self.retained == before.retained
        &&& self.original_factor == before.original_factor
    }
}

/// A fresh stage is charged as its plan says.
pub proof fn lemma_fresh(m: LiveModel, scope: ScopeModel, plan: Plan, copy: Result<usize, InvalidReason>)
    requires
        m.charged(),
        m.plan(scope, copy) == Ok::<Plan, InvalidReason>(plan),
    ensures
        m.staged(scope, plan).charged(),
{
    let s = m.staged(scope, plan);
    assert(s.staged.selectors.dom().subset_of(m.selectors.dom()));
    vstd::set_lib::lemma_set_subset_finite(m.selectors.dom(), s.staged.selectors.dom());
    assert(s.created() =~= Set::empty());
    assert(same_history(s.original, m));
}

/// A child mutation keeps a stage's scope and charges.
pub proof fn lemma_batch(s: StageModel, batch: Batch)
    ensures
        s.batch(batch).0.follows(s),
        s.charged() ==> s.batch(batch).0.charged(),
        s.charged() ==> s.batch(batch).0.factor_charge() == s.factor_charge(),
{
    let n = s.batch(batch).0;
    retention::lemma_observe_staged(s.staged, batch, s.epoch, s.group);
    if s.charged() {
        assert(n.created() =~= s.created());
    }
}

/// A child evaluation keeps a stage's scope and charges.
pub proof fn lemma_evaluation(s: StageModel, e: Evaluation, c: Computation)
    ensures
        s.evaluation(e, c).0.follows(s),
        s.charged() ==> s.evaluation(e, c).0.charged(),
{
    let n = s.evaluation(e, c).0;
    if s.charged() && s.failed is None && s.evaluated(e, c).0 != s {
        let budget = super::Budget::of(
            s.frame_bytes as nat,
            s.retained as nat,
            (2 * s.factor_charge() + s.ledger_clone) as nat,
        );
        retention::lemma_native_staged(s.staged, e, c, budget.decode);
        assert(n.created() =~= s.created());
    }
}

proof fn lemma_with_selector(s: StageModel, key: SelectorKey, selector: SelectionModel)
    requires
        s.staged.selectors.contains_key(key),
        s.staged.selectors[key].closed ==> selector == s.staged.selectors[key],
    ensures
        s.with_selector(key, selector).follows(s),
        s.charged() ==> s.with_selector(key, selector).charged(),
{
    let n = s.with_selector(key, selector);
    assert(n.staged.selectors.dom() =~= s.staged.selectors.dom());
    assert(n.created() =~= s.created());
}

proof fn lemma_selector_created(s: StageModel, session: u64, event: BoundaryEvent)
    requires
        s.sessions.contains(session),
        s.factor_charge() == s.original_factor,
    ensures
        ({
            let key = SelectorKey { epoch: s.epoch, session };
            let n = s.selector_created(key, event).0;
            &&& n.follows(s)
            &&& s.charged() ==> n.charged()
            &&& s.selector_created(key, event).1 is Ok ==> n.staged.selectors.contains_key(key)
        }),
{
    let key = SelectorKey { epoch: s.epoch, session };
    let n = s.selector_created(key, event).0;
    if s.charged() && n != s {
        let bytes = selection::stored_bytes();
        assert(!s.original.selectors.contains_key(key));
        assert(n.staged.selectors.dom() =~= s.staged.selectors.dom().insert(key));
        assert(n.created() =~= s.created().insert(key));
        assert(s.created().finite());
        assert(n.created().len() == s.created().len() + 1);
        assert((s.created().len() + 1) * bytes == s.created().len() * bytes + bytes)
            by (nonlinear_arith);
    }
}

proof fn lemma_selector_boundary(s: StageModel, boundary: Boundary)
    requires
        s.sessions.contains(boundary.session),
        s.factor_charge() == s.original_factor,
    ensures
        s.selector_boundary(boundary).0.follows(s),
        s.charged() ==> s.selector_boundary(boundary).0.charged(),
{
    let key = SelectorKey { epoch: s.epoch, session: boundary.session };
    lemma_selector_created(s, boundary.session, boundary.event);
    let (next, result) = s.selector_created(key, boundary.event);
    if result is Ok {
        lemma_with_selector(next, key, next.staged.selectors[key].crossed(boundary.event).0);
    }
}

proof fn lemma_selector_attempt(
    s: StageModel,
    session: u64,
    next: u64,
    ordinal: u8,
    excluded: Seq<u64>,
    derived: DerivedResult,
)
    ensures
        s.selector_attempt(session, next, ordinal, excluded, derived).0.follows(s),
        s.charged() ==> s.selector_attempt(session, next, ordinal, excluded, derived).0.charged(),
{
    let key = SelectorKey { epoch: s.epoch, session };
    if s.sessions.contains(session) && s.staged.selectors.contains_key(key) {
        lemma_with_selector(
            s,
            key,
            s.staged.selectors[key].attempted(next, ordinal, excluded, derived).0,
        );
    }
}

proof fn lemma_attempt_recorded(s: StageModel, session: u64, attempt: Attempt, accepted: bool)
    ensures
        s.attempt_recorded(session, attempt, accepted).0.follows(s),
        s.charged() ==> s.attempt_recorded(session, attempt, accepted).0.charged(),
{
    let n = s.attempt_recorded(session, attempt, accepted).0;
    assert(n.created() =~= s.created());
}

proof fn lemma_compare_redirect(
    s: StageModel,
    session: u64,
    from: u64,
    to: u64,
    now: GoTime,
    redirect: balance::Redirect,
)
    ensures
        s.compare_redirect(session, from, to, now, redirect).0.follows(s),
        s.charged() ==> s.compare_redirect(session, from, to, now, redirect).0.charged(),
{
    lemma_batch(s, redirect.batch);
    let next = s.batch(redirect.batch).0;
    if let Some(accepted) = balance::callback_accepted(redirect) {
        let attempt = Attempt {
            time: now,
            operation: next.part().sessions[session].redirect_watermark,
            pending: accepted,
            failed: !accepted,
        };
        lemma_attempt_recorded(next, session, attempt, accepted);
    }
}

proof fn lemma_follows_on(a: StageModel, b: StageModel, c: StageModel)
    requires
        b.follows(a),
        c.follows(b),
    ensures
        c.follows(a),
{
}

/// The stage that a scan step leaves.
spec fn stepped(step: balance::ScanStep) -> StageModel {
    match step {
        balance::ScanStep::Stop(stage, _) => stage,
        balance::ScanStep::Go(stage, _) => stage,
    }
}

proof fn lemma_scan_step(
    s: StageModel,
    e: balance::Envelope,
    from: u64,
    to: u64,
    now: GoTime,
    quota: i64,
    position: nat,
    accepted: nat,
)
    ensures
        ({
            let n = stepped(s.scan_step(e, from, to, now, quota, position, accepted));
            n.follows(s) && (s.charged() ==> n.charged())
        }),
{
    assert(s.follows(s));
    if position < e.visits@.len() {
        let session = e.visits@[position as int].session;
        if let Some(redirect) = e.visits@[position as int].redirect {
            lemma_compare_redirect(s, session, from, to, now, redirect);
            let n = stepped(s.scan_step(e, from, to, now, quota, position, accepted));
            assert(n == s || n == s.compare_redirect(session, from, to, now, redirect).0);
        }
    }
}

#[verifier::spinoff_prover]
proof fn lemma_scanned(
    s: StageModel,
    e: balance::Envelope,
    from: u64,
    to: u64,
    now: GoTime,
    quota: i64,
    position: nat,
    accepted: nat,
)
    requires
        position <= 64,
    ensures
        s.scanned(e, from, to, now, quota, position, accepted).0.follows(s),
        s.charged() ==> s.scanned(e, from, to, now, quota, position, accepted).0.charged(),
    decreases 65 - position,
{
    lemma_scan_step(s, e, from, to, now, quota, position, accepted);
    match s.scan_step(e, from, to, now, quota, position, accepted) {
        balance::ScanStep::Stop(_, _) => {},
        balance::ScanStep::Go(next, more) => {
            if position < 64 {
                lemma_scanned(next, e, from, to, now, quota, position + 1, more);
                lemma_follows_on(
                    s,
                    next,
                    next.scanned(e, from, to, now, quota, position + 1, more).0,
                );
            }
        },
    }
}

proof fn lemma_compare_balance(s: StageModel, e: balance::Envelope, c: Computation)
    ensures
        s.compare_balance(e, c).0.follows(s),
        s.charged() ==> s.compare_balance(e, c).0.charged(),
{
    lemma_evaluation(s, *e.evaluation, c);
    let (next, result) = s.evaluation(*e.evaluation, c);
    if let (Ok(decision), Some(clock)) = (result, e.clock) {
        if let Some((source, target)) = StageModel::pair_of(e, decision.from, decision.to) {
            if let Some(timing) = next.timing() {
                let last = match timing.last_accepted {
                    Some(last) => last,
                    None => next.staged.native[next.epoch].coverage.zero_time,
                };
                let rate = super::arithmetic::Rate { interval: decision.rate.interval };
                if let super::arithmetic::AfterClock::Scan { quota, .. } = rate.outcome(
                    clock.from_keyspace@ == clock.to_keyspace@,
                    clock.now,
                    last,
                ) {
                    lemma_scanned(next, e, source, target, clock.now, quota, 0, 0);
                }
            }
        }
    }
}

proof fn lemma_compare_route(s: StageModel, e: route::Envelope, c: Computation)
    ensures
        s.compare_route(e, c).0.follows(s),
        s.charged() ==> s.compare_route(e, c).0.charged(),
{
    let children = e.children@;
    if children.len() > 0 {
        if let route::Child::Evaluation(native) = children[0] {
            lemma_evaluation(s, *native, c);
        }
    }
    let next = s.route_selection(e, c).0;
    assert(next.follows(s));
    let first = if e.route.members@.len() == 0 {
        0int
    } else {
        1int
    };
    if children.len() > first {
        if let route::Child::Batch(batch) = children[first] {
            lemma_batch(next, batch);
        }
    }
}

proof fn lemma_compare_finish(s: StageModel, e: finish::Envelope)
    ensures
        s.compare_finish(e).0.follows(s),
        s.charged() ==> s.compare_finish(e).0.charged(),
{
    let key = SelectorKey { epoch: s.epoch, session: e.session };
    if s.staged.selectors.contains_key(key) {
        let selector = s.staged.selectors[key];
        if let (Some(reason), false) = (
            selector.tracker.finish_refusal(e.backend),
            selector.closed,
        ) {
            lemma_with_selector(
                s,
                key,
                SelectionModel { tracker: selector.tracker.poisoned(reason), ..selector },
            );
        }
    }
    lemma_batch(s, e.created);
}

proof fn lemma_compare_attempt(
    s: StageModel,
    e: router_route::Envelope,
    c: Computation,
    expected: (u64, selection::ErrorClass),
)
    ensures
        s.compare_attempt(e, c, expected).0.follows(s),
        s.charged() ==> s.compare_attempt(e, c, expected).0.charged(),
{
    match e.path {
        router_route::Path::Group(group) => lemma_compare_route(s, *group, c),
        router_route::Path::Rejected(batch) => lemma_batch(s, batch),
    }
    let p = e.prefix;
    let (next, result) = s.compare_path(e, c, expected.1);
    if let Ok(derived) = result {
        lemma_selector_attempt(next, p.session, p.next, p.attempt, p.excluded@, derived);
    }
}

proof fn lemma_compare_metadata(s: StageModel, event: metadata::Event, parses: bool)
    ensures
        s.compare_metadata(event, parses).0.follows(s),
        s.charged() ==> s.compare_metadata(event, parses).0.charged(),
{
    let n = s.compare_metadata(event, parses).0;
    assert(n.created() =~= s.created());
}

/// A charged stage always has its bytes, except where its metadata exceed the
/// history limit.
pub proof fn law_commit_has_its_bytes(s: StageModel)
    requires
        s.charged(),
    ensures
        s.metadata is None ==> s.commit_bytes() is Some,
        s.commit_bytes() matches Some(bytes) ==> bytes <= HISTORY_LIMIT,
{
    retention::lemma_group_is_charged(s.original, s.epoch, s.group);
}

/// A finished stage, committed or discarded, leaves the retained bytes exactly
/// what the retained histories are charged.
pub proof fn law_finish_keeps_charges(s: StageModel, result: Result<(), InvalidReason>)
    requires
        s.charged(),
    ensures
        s.finished(result).charged(),
{
    law_commit_has_its_bytes(s);
    let n = s.finished(result);
    if s.verdict(result) is None {
        let original = s.original;
        let groups = s.staged.native[s.epoch].groups;
        if groups.contains_key(s.group) {
            retention::lemma_with_group(original.native, s.epoch, s.group, groups[s.group]);
            assert(n.native.dom() =~= original.native.dom());
        }
        let all = original.selectors.dom();
        assert(n.selectors.dom() =~= all + s.created());
        assert(s.created().finite());
        vstd::set_lib::lemma_set_disjoint_lens(all, s.created());
        let bytes = selection::stored_bytes();
        assert((all.len() + s.created().len()) * bytes == all.len() * bytes + s.created().len()
            * bytes) by (nonlinear_arith);
        if let Some(tracker) = s.metadata {
            let charges = retention::metadata_charges(original.metadata);
            assert(charges.dom() =~= original.metadata.dom());
            retention::lemma_total_insert(
                charges,
                s.epoch,
                metadata::stored::stored_bytes(tracker),
            );
            assert(retention::metadata_charges(n.metadata) =~= charges.insert(
                s.epoch,
                metadata::stored::stored_bytes(tracker),
            ));
            assert(n.metadata.dom() =~= original.metadata.dom().insert(s.epoch));
        }
    }
}

/// Every history, ledger and compared sequence is what it was.
pub open spec fn history_kept(m: LiveModel, n: LiveModel) -> bool {
    &&& retention::same_retention(n, m)
    &&& n.groups == m.groups
    &&& forall|key: OwnerKey| #[trigger]
        m.core.owners.contains_key(key) ==> {
            &&& n.core.owners.contains_key(key)
            &&& n.core.owners[key].epoch == m.core.owners[key].epoch
            &&& n.core.owners[key].ledger == m.core.owners[key].ledger
            &&& n.core.owners[key].sequence == m.core.owners[key].sequence
        }
}

/// What is promised of every caller: the retained bytes stay exact, and a caller
/// that does not qualify leaves every history as it was.
pub open spec fn all_or_nothing(m: LiveModel, n: LiveModel, progress: Progress) -> bool {
    &&& m.charged() ==> n.charged()
    &&& progress.status is Invalid ==> history_kept(m, n)
}

/// What holds of every call: recorded peaks only rise, and closed selectors are
/// kept as they are.
pub open spec fn only_grows(m: LiveModel, n: LiveModel) -> bool {
    peaks_rise(m, n) && closed_kept(m.selectors, n.selectors)
}

proof fn lemma_unentered(m: LiveModel, scope: ScopeModel, reason: InvalidReason)
    ensures
        only_grows(m, m.unentered(scope.epoch, reason).0),
        all_or_nothing(
            m,
            m.unentered(scope.epoch, reason).0,
            m.unentered(scope.epoch, reason).1,
        ),
{
    retention::law_invalidate_keeps_charges(m, scope.epoch, reason);
}

proof fn lemma_concluded(
    m: LiveModel,
    scope: ScopeModel,
    plan: Plan,
    copy: Result<usize, InvalidReason>,
    s: StageModel,
    result: Result<(), InvalidReason>,
)
    requires
        m.plan(scope, copy) == Ok::<Plan, InvalidReason>(plan),
        s.follows(m.staged(scope, plan)),
        m.charged() ==> s.charged(),
    ensures
        all_or_nothing(m, s.concluded(result).0, s.concluded(result).1),
        only_grows(m, s.concluded(result).0),
{
    if m.charged() {
        law_finish_keeps_charges(s, result);
    }
    assert(same_history(m.staged(scope, plan).original, m));
    assert(same_history(s.original, m));
    let n = s.finished(result);
    if s.verdict(result) is None {
        assert(n.progress(s.epoch).status is Comparing);
        let fresh = m.staged(scope, plan).staged.selectors;
        assert forall|key: SelectorKey| #[trigger] m.selectors.contains_key(key)
            && m.selectors[key].closed implies n.selectors.contains_key(key) && n.selectors[key]
            == m.selectors[key] by {
            if s.staged.selectors.contains_key(key) {
                assert(fresh.contains_key(key));
            }
        }
    }
}

/// A Group Route commits its evaluation, mutation and sequence together or not
/// at all.
/// Recorded peaks only rise, and closed selectors are kept as they are.
pub proof fn law_group_route_is_whole(
    m: LiveModel,
    e: route::Envelope,
    c: Computation,
    frame_bytes: usize,
    copy: Result<usize, InvalidReason>,
)
    ensures
        ({
            let (n, progress, _) = m.group_route(e, c, frame_bytes, copy);
            all_or_nothing(m, n, progress) && only_grows(m, n)
        }),
{
    let scope = e.scope(frame_bytes);
    match m.plan(scope, copy) {
        Err(reason) => lemma_unentered(m, scope, reason),
        Ok(plan) => {
            let s = m.staged(scope, plan);
            if m.charged() {
                lemma_fresh(m, scope, plan, copy);
            }
            lemma_compare_route(s, e, c);
            let (stage, result) = s.compare_route(e, c);
            lemma_concluded(m, scope, plan, copy, stage, super::verdict_of(result));
        },
    }
}

/// A Group Route of a selector commits the route and the selector's attempt
/// together or not at all.
/// Recorded peaks only rise, and closed selectors are kept as they are.
pub proof fn law_selector_route_is_whole(
    m: LiveModel,
    e: route::Envelope,
    c: Computation,
    next: u64,
    ordinal: u8,
    excluded: Seq<u64>,
    frame_bytes: usize,
    copy: Result<usize, InvalidReason>,
)
    ensures
        ({
            let (n, progress, _) = m.selector_group_route(
                e,
                c,
                next,
                ordinal,
                excluded,
                frame_bytes,
                copy,
            );
            all_or_nothing(m, n, progress) && only_grows(m, n)
        }),
{
    let scope = e.scope(frame_bytes);
    match m.plan(scope, copy) {
        Err(reason) => lemma_unentered(m, scope, reason),
        Ok(plan) => {
            let s = m.staged(scope, plan);
            if m.charged() {
                lemma_fresh(m, scope, plan, copy);
            }
            lemma_compare_route(s, e, c);
            let (routed, derived) = s.compare_route(e, c);
            if let Ok(derived) = derived {
                lemma_selector_attempt(routed, e.route.session, next, ordinal, excluded, derived);
            }
            let (stage, result) = s.selector_route(e, c, next, ordinal, excluded);
            lemma_concluded(m, scope, plan, copy, stage, super::verdict_of(result));
        },
    }
}

/// A Group Balance commits its evaluation, redirects, attempt times and sequence
/// together or not at all.
/// Recorded peaks only rise, and closed selectors are kept as they are.
pub proof fn law_group_balance_is_whole(
    m: LiveModel,
    e: balance::Envelope,
    c: Computation,
    frame_bytes: usize,
    copy: Result<usize, InvalidReason>,
)
    ensures
        ({
            let (n, progress) = m.group_balance(e, c, frame_bytes, copy);
            all_or_nothing(m, n, progress) && only_grows(m, n)
        }),
{
    let scope = e.scope(frame_bytes);
    match m.plan(scope, copy) {
        Err(reason) => lemma_unentered(m, scope, reason),
        Ok(plan) => {
            let s = m.staged(scope, plan);
            if m.charged() {
                lemma_fresh(m, scope, plan, copy);
            }
            lemma_compare_balance(s, e, c);
            let (stage, result) = s.compare_balance(e, c);
            lemma_concluded(m, scope, plan, copy, stage, result);
        },
    }
}

/// A selector boundary commits the selector, its charge and the sequence
/// together or not at all.
/// Recorded peaks only rise, and closed selectors are kept as they are.
pub proof fn law_boundary_is_whole(
    m: LiveModel,
    boundary: Boundary,
    frame_bytes: usize,
    copy: Result<usize, InvalidReason>,
)
    ensures
        ({
            let (n, progress) = m.boundary_observed(boundary, frame_bytes, copy);
            all_or_nothing(m, n, progress) && only_grows(m, n)
        }),
{
    let scope = boundary.scope(frame_bytes);
    match m.plan(scope, copy) {
        Err(reason) => lemma_unentered(m, scope, reason),
        Ok(plan) => {
            let s = m.staged(scope, plan);
            if m.charged() {
                lemma_fresh(m, scope, plan, copy);
            }
            assert(s.sessions[0] == boundary.session);
            lemma_selector_boundary(s, boundary);
            let (stage, result) = s.selector_boundary(boundary);
            lemma_concluded(m, scope, plan, copy, stage, result);
        },
    }
}

/// A Finish commits the selector's binding and the Created child together or not
/// at all.
/// Recorded peaks only rise, and closed selectors are kept as they are.
pub proof fn law_selector_finish_is_whole(
    m: LiveModel,
    e: finish::Envelope,
    frame_bytes: usize,
    copy: Result<usize, InvalidReason>,
)
    ensures
        ({
            let (n, progress) = m.finish_observed(e, frame_bytes, copy);
            all_or_nothing(m, n, progress) && only_grows(m, n)
        }),
{
    let scope = e.scope(frame_bytes);
    match m.plan(scope, copy) {
        Err(reason) => lemma_unentered(m, scope, reason),
        Ok(plan) => {
            let s = m.staged(scope, plan);
            if m.charged() {
                lemma_fresh(m, scope, plan, copy);
            }
            lemma_compare_finish(s, e);
            let (stage, result) = s.compare_finish(e);
            lemma_concluded(m, scope, plan, copy, stage, result);
        },
    }
}

/// A router attempt commits the route, the selector's attempt and the sequence
/// together or not at all.
/// Recorded peaks only rise, and closed selectors are kept as they are.
pub proof fn law_router_route_is_whole(
    m: LiveModel,
    e: router_route::Envelope,
    c: Computation,
    expected: (u64, selection::ErrorClass),
    frame_bytes: usize,
    copy: Result<usize, InvalidReason>,
)
    ensures
        ({
            let (n, progress, _) = m.router_route(e, c, expected, frame_bytes, copy);
            all_or_nothing(m, n, progress) && only_grows(m, n)
        }),
{
    let scope = e.scope(frame_bytes);
    match m.plan(scope, copy) {
        Err(reason) => lemma_unentered(m, scope, reason),
        Ok(plan) => {
            let s = m.staged(scope, plan);
            if m.charged() {
                lemma_fresh(m, scope, plan, copy);
            }
            lemma_compare_attempt(s, e, c, expected);
            let (stage, result) = s.compare_attempt(e, c, expected);
            lemma_concluded(m, scope, plan, copy, stage, super::verdict_of(result));
        },
    }
}

/// A metadata frame commits the tracker, its charge and the sequence together or
/// not at all.
/// Recorded peaks only rise, and closed selectors are kept as they are.
pub proof fn law_router_metadata_is_whole(
    m: LiveModel,
    boundary: MetadataBoundary,
    parses: bool,
    frame_bytes: usize,
    copy: Result<usize, InvalidReason>,
)
    ensures
        ({
            let (n, progress) = m.router_metadata_observed(boundary, parses, frame_bytes, copy);
            all_or_nothing(m, n, progress) && only_grows(m, n)
        }),
{
    let scope = boundary.scope(frame_bytes);
    match m.plan(scope, copy) {
        Err(reason) => lemma_unentered(m, scope, reason),
        Ok(plan) => {
            let s = m.staged(scope, plan);
            if m.charged() {
                lemma_fresh(m, scope, plan, copy);
            }
            lemma_compare_metadata(s, boundary.event, parses);
            let (stage, result) = s.compare_metadata(boundary.event, parses);
            lemma_concluded(m, scope, plan, copy, stage, result);
        },
    }
}

proof fn lemma_published(m: LiveModel, epoch: Epoch, tracker: Option<metadata::tracker::TrackerModel>)
    requires
        m.charged(),
    ensures
        m.metadata_published(epoch, tracker).charged(),
{
    if let Some(tracker) = tracker {
        match m.prefix_refusal(epoch, tracker) {
            Some(reason) => retention::law_invalidate_keeps_charges(m, epoch, reason),
            None => {
                let n = m.metadata_committed(epoch, tracker);
                let charges = retention::metadata_charges(m.metadata);
                let bytes = metadata::stored::stored_bytes(tracker);
                assert(charges.dom() =~= m.metadata.dom());
                retention::lemma_total_insert(charges, epoch, bytes);
                assert(retention::metadata_charges(n.metadata) =~= charges.insert(epoch, bytes));
                assert(n.metadata.dom() =~= m.metadata.dom().insert(epoch));
            },
        }
    }
}

/// Group lifecycle and native records that also extend the metadata keep the
/// retained bytes exact.
pub proof fn law_metadata_prefix_keeps_charges(
    m: LiveModel,
    batch: Batch,
    e: Evaluation,
    c: Computation,
    frame_bytes: usize,
)
    requires
        m.charged(),
    ensures
        m.metadata_batch(batch, frame_bytes).charged(),
        m.metadata_native(e, c, frame_bytes).charged(),
{
    retention::law_observe_keeps_charges(m, batch);
    let (state, prepared) = m.metadata_prepared(batch.epoch, frame_bytes);
    assert(retention::same_retention(state, m));
    retention::law_observe_keeps_charges(state, batch);
    if let Ok(Some(tracker)) = prepared {
        let stepped = super::metadata_state::group_events(
            tracker,
            batch.events@,
            batch.events@.len() as int,
        );
        match stepped {
            Ok(next) => lemma_published(state.observe(batch), batch.epoch, Some(next)),
            Err(reason) => retention::law_invalidate_keeps_charges(state, batch.epoch, reason),
        }
    } else if let Err(reason) = prepared {
        retention::law_invalidate_keeps_charges(state, batch.epoch, reason);
    }
    let (state, prepared) = if e.entry is Config {
        m.metadata_prepared(e.epoch, frame_bytes)
    } else {
        (m, Ok(None))
    };
    assert(retention::same_retention(state, m));
    let stepped = match prepared {
        Ok(Some(tracker)) => match tracker.native_init(e.group) {
            Ok(next) => Ok(Some(next)),
            Err(reason) => Err(reason),
        },
        other => other,
    };
    match stepped {
        Err(reason) => retention::law_invalidate_keeps_charges(state, e.epoch, reason),
        Ok(tracker) => {
            let extra = match tracker {
                Some(tracker) => metadata::stored::stored_bytes(tracker),
                None => 0,
            };
            let staging = 32 * frame_bytes + extra;
            if staging <= usize::MAX {
                retention::law_native_keeps_charges(state, e, c, staging as usize);
                lemma_published(
                    state.observe_native(e, c, staging as usize).0,
                    e.epoch,
                    tracker,
                );
            } else {
                retention::law_invalidate_keeps_charges(state, e.epoch, InvalidReason::Capacity);
            }
        },
    }
}

/// A notice, a prelude and a retained prefix of the metadata only raise the
/// recorded peaks and keep every closed selector.
pub proof fn law_records_only_grow(
    m: LiveModel,
    epoch: Epoch,
    reason: InvalidReason,
    coverage: Coverage,
    tracker: metadata::tracker::TrackerModel,
)
    ensures
        only_grows(m, m.invalidated(epoch, reason)),
        only_grows(m, m.installed(coverage)),
        only_grows(m, m.metadata_committed(epoch, tracker)),
{
}

/// An evaluation only raises the recorded peaks and keeps every closed selector.
pub proof fn law_native_only_grows(m: LiveModel, e: Evaluation, c: Computation, staging: usize)
    ensures
        only_grows(m, m.observe_native(e, c, staging).0),
{
    let n = m.compare_native(e, c, staging).0;
    assert(only_grows(m, n));
}

proof fn lemma_prepared_grows(m: LiveModel, epoch: Epoch, frame_bytes: usize)
    ensures
        only_grows(m, m.metadata_prepared(epoch, frame_bytes).0),
{
}

proof fn lemma_published_grows(m: LiveModel, epoch: Epoch, tracker: Option<metadata::tracker::TrackerModel>)
    ensures
        only_grows(m, m.metadata_published(epoch, tracker)),
{
}

proof fn lemma_grows_on(a: LiveModel, b: LiveModel, c: LiveModel)
    requires
        only_grows(a, b),
        only_grows(b, c),
    ensures
        only_grows(a, c),
{
}

/// A mutation that may extend the metadata only raises the recorded peaks and keeps
/// every closed selector.
pub proof fn law_metadata_batch_only_grows(m: LiveModel, batch: Batch, frame_bytes: usize)
    ensures
        only_grows(m, m.metadata_batch(batch, frame_bytes)),
{
    law_observe_only_grows(m, batch);
    let (state, prepared) = m.metadata_prepared(batch.epoch, frame_bytes);
    lemma_prepared_grows(m, batch.epoch, frame_bytes);
    law_observe_only_grows(state, batch);
    let seen = state.observe(batch);
    lemma_grows_on(m, state, seen);
    if let Ok(Some(tracker)) = prepared {
        if let Ok(next) = super::metadata_state::group_events(
            tracker,
            batch.events@,
            batch.events@.len() as int,
        ) {
            lemma_published_grows(seen, batch.epoch, Some(next));
            lemma_grows_on(m, seen, seen.metadata_published(batch.epoch, Some(next)));
        }
    }
}

/// An evaluation that may extend the metadata only raises the recorded peaks and
/// keeps every closed selector.
pub proof fn law_metadata_native_only_grows(m: LiveModel, e: Evaluation, c: Computation, frame_bytes: usize)
    ensures
        only_grows(m, m.metadata_native(e, c, frame_bytes)),
{
    let (state, prepared) = if e.entry is Config {
        m.metadata_prepared(e.epoch, frame_bytes)
    } else {
        (m, Ok(None))
    };
    lemma_prepared_grows(m, e.epoch, frame_bytes);
    assert(only_grows(m, state));
    let stepped = match prepared {
        Ok(Some(tracker)) => match tracker.native_init(e.group) {
            Ok(next) => Ok(Some(next)),
            Err(reason) => Err(reason),
        },
        other => other,
    };
    if let Ok(tracker) = stepped {
        let extra = match tracker {
            Some(tracker) => metadata::stored::stored_bytes(tracker),
            None => 0,
        };
        let staging = 32 * frame_bytes + extra;
        if staging <= usize::MAX {
            let seen = state.observe_native(e, c, staging as usize).0;
            law_native_only_grows(state, e, c, staging as usize);
            lemma_grows_on(m, state, seen);
            lemma_published_grows(seen, e.epoch, tracker);
            lemma_grows_on(m, seen, seen.metadata_published(e.epoch, tracker));
        }
    }
}

/// A captured mutation only raises the recorded peaks and keeps every closed
/// selector.
pub proof fn law_observe_only_grows(m: LiveModel, batch: Batch)
    ensures
        only_grows(m, m.observe(batch)),
{
    retention::lemma_observe_staged(m, batch, batch.epoch, 0);
    lemma_run_peaks(m, batch, batch.events@.len() as int);
}

proof fn lemma_run_peaks(m: LiveModel, batch: Batch, count: int)
    ensures
        m.run(batch, count).0.native_peak == m.native_peak,
        m.run(batch, count).0.caller_peak == m.caller_peak,
    decreases count,
{
    if count > 0 {
        lemma_run_peaks(m, batch, count - 1);
    }
}

} // verus!
