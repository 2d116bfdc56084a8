//! Balance rounds of a group compared as one caller.
use control_router::go_time::GoTime;
use control_router::shadow::live::caller::arithmetic::{start, AfterClock, Start};
use control_router::shadow::live::caller::balance::{Clock, Envelope, Redirect, Visit};
use control_router::shadow::live::caller::timing::{attempt_charge, Attempt};
use control_router::shadow::live::caller::Scope;
use control_router::shadow::live::native::{HISTORY_LIMIT, STAGE_OVERHEAD};
use control_router::shadow::live::{
    AccountWitness, Batch, ConnectionState, LiveEvent, LiveState, Witness,
};
use control_router::shadow::native::{
    Account, Advice, BalanceRate, ClockSite, Configuration, Coverage, Entry, Evaluation, Factor,
    FactorWidth, GoArch, Origin, Read,
};
use control_router::shadow::native_compute::{
    Computation, ComputedAdvice, ComputedPair, Row,
};
use control_router::shadow::{Epoch, Event, InvalidReason, Limits, Status};
use std::collections::BTreeMap;

fn connection_factors() -> Vec<FactorWidth> {
    vec![
        FactorWidth {
            factor: Factor::Status,
            bits: 1,
        },
        FactorWidth {
            factor: Factor::Connection,
            bits: 16,
        },
    ]
}
/// Status and connection scoring of the fixtures: a healthy backend scores its
/// connection count.
fn compute(e: &Evaluation) -> Computation {
    Computation {
        order: connection_factors(),
        windows: vec![Vec::new(), Vec::new()],
        used: vec![0; e.accounts.len()],
        rows: e
            .accounts
            .iter()
            .map(|account| {
                let status = u64::from(!account.healthy);
                let count = u64::try_from(account.score_count).unwrap_or(0);
                Row {
                    score: status << 16 | count,
                    parts: vec![status, count],
                    routeable: account.healthy,
                }
            })
            .collect(),
        advice: Vec::new(),
        asked: Vec::new(),
        pair: None,
        preferred: Vec::new(),
        ticket: 0,
        history_bytes: 0,
    }
}
fn must<T, E: std::fmt::Debug>(result: Result<T, E>) -> T {
    result.unwrap_or_else(|error| unreachable!("fixture: {error:?}"))
}
fn some<T>(value: Option<T>) -> T {
    value.unwrap_or_else(|| unreachable!("fixture"))
}
fn life(event: Event) -> LiveEvent {
    LiveEvent::Lifecycle {
        event,
        source: 0,
        target: 0,
    }
}
fn batch(epoch: Epoch, sequence: u64, events: Vec<LiveEvent>, witness: Witness) -> Batch {
    Batch {
        epoch,
        sequence,
        events,
        witness,
    }
}
fn account(score: i64, physical: bool) -> AccountWitness {
    AccountWitness {
        id: 9,
        score,
        physical: u64::from(physical),
        head: if physical { 10 } else { 0 },
        tail: if physical { 10 } else { 0 },
    }
}
/// The first configuration of a group.
fn configured(epoch: Epoch) -> Evaluation {
    Evaluation {
        epoch,
        sequence: 3,
        group: 2,
        policy: 3,
        config: 4,
        resource: 0,
        evaluation: 1,
        entry: Entry::Config,
        configuration: Configuration {
            balance: "connection".into(),
            routing: "idlest".into(),
            label: String::new(),
            self_label: String::new(),
            rates: [0; 6],
            count_ratio: 1.2_f64.to_bits(),
        },
        factors: connection_factors(),
        accounts: Vec::new(),
        reads: Vec::new(),
        sorted: Vec::new(),
        advice: Vec::new(),
        returned: Vec::new(),
        from: -1,
        to: -1,
        balance_count: 0,
        reason: None,
    }
}
fn setup(limits: Limits) -> (LiveState, Evaluation) {
    let epoch = Epoch {
        process: 41,
        owner: 1,
        nonce: 43,
    };
    let zero = some(GoTime::new(0, 0, 1, None));
    let mut state = LiveState::new(limits);
    must(state.install_native(Coverage {
        epoch,
        origin: Origin { synthetic: false, baseline: 0 },
        zero_time: zero,
        go_arch: GoArch::Arm64,
    }));
    for (sequence, event) in [(1, life(Event::Begin)), (2, LiveEvent::GroupCreated(2))] {
        assert_eq!(
            state
                .observe(&batch(epoch, sequence, vec![event], Witness::default()))
                .status,
            Status::Comparing
        );
    }
    let mut e = configured(epoch);
    assert_eq!(state.observe_native(&e, &compute(&e), 4096).compared_sequence, 3);
    assert_eq!(
        state
            .observe(&batch(
                epoch,
                4,
                vec![life(Event::Account { id: 9, group: 2 })],
                Witness {
                    accounts: vec![account(0, false)],
                    ..Witness::default()
                }
            ))
            .status,
        Status::Comparing
    );
    e.sequence = 5;
    e.evaluation = 2;
    e.entry = Entry::Routeable;
    e.accounts.push(Account {
        account: 9,
        seen: 31,
        id: "backend".into(),
        addr: "backend:4000".into(),
        keyspace: String::new(),
        ip: String::new(),
        cluster: String::new(),
        label: String::new(),
        label_present: false,
        status_port: 0,
        physical: 0,
        score_count: 0,
        healthy: true,
        local: false,
        parts: vec![0, 0],
        packed: 0,
        routeable: true,
        routeability_seen: true,
    });
    e.sorted = vec![0];
    e.returned = vec![0];
    for site in [ClockSite::MetricCadence, ClockSite::StatusSnapshot] {
        e.reads.push(Read::Clock {
            site,
            ordinal: 0,
            time: zero,
        });
    }
    (state, e)
}
/// Retain the history of another owner, of `bytes` in its window, and give the
/// charge of its group.
fn fill(state: &mut LiveState, bytes: usize, staging: usize) -> usize {
    let epoch = Epoch {
        process: 41,
        owner: 7,
        nonce: 43,
    };
    let coverage = Coverage {
        epoch,
        origin: Origin { synthetic: false, baseline: 0 },
        zero_time: some(GoTime::new(0, 0, 1, None)),
        go_arch: GoArch::Arm64,
    };
    assert_eq!(state.install_native(coverage), Ok(()));
    for (sequence, event) in [
        (
            1,
            LiveEvent::Lifecycle {
                event: Event::Begin,
                source: 0,
                target: 0,
            },
        ),
        (2, LiveEvent::GroupCreated(2)),
    ] {
        assert_eq!(
            state
                .observe(&Batch {
                    epoch,
                    sequence,
                    events: vec![event],
                    witness: Witness::default()
                })
                .status,
            Status::Comparing
        );
    }
    let mut e = configured(epoch);
    let mut c = compute(&e);
    c.history_bytes = bytes;
    assert_eq!(state.observe_native(&e, &c, staging).compared_sequence, 3);
    some(state.native_group(epoch, 2)).charge
}
/// Retain the history of another owner until `total` bytes are retained.
fn ballast(state: &mut LiveState, total: usize) {
    let mut probe = LiveState::new(Limits::default());
    let charge = fill(&mut probe, 0, 0);
    let bytes = total - state.native_retained_bytes() - probe.native_retained_bytes();
    let staging = (charge + bytes).saturating_sub(STAGE_OVERHEAD);
    assert_eq!(fill(state, bytes, staging), charge + bytes);
    assert_eq!(state.native_retained_bytes(), total);
}
/// Committed scheduling history of one group.
#[derive(Clone, Debug, PartialEq)]
struct History {
    last_accepted: Option<GoTime>,
    attempts: BTreeMap<u64, Attempt>,
}
/// Observe one lifecycle event about an account with the outputs of a separate
/// mirror.
fn happen(state: &mut LiveState, epoch: Epoch, event: Event, endpoint: u64) {
    let captured = between(event, endpoint, 0);
    let session = captured.session().unwrap_or(0);
    let mut ledger = some(state.ledger(epoch)).fork_caller(2, &[session]);
    let before = ledger.connection(session);
    must(ledger.apply(event));
    let progress = state.observe(&Batch {
        epoch,
        sequence: state.progress(epoch).compared_sequence + 1,
        events: vec![captured],
        witness: Witness {
            accounts: vec![some(ledger.compact_account(endpoint))],
            session,
            before,
            after: ledger.connection(session),
            predecessor: if matches!(event, Event::Rehydrate { .. }) {
                ledger.predecessor(session)
            } else {
                0
            },
        },
    });
    assert_eq!(progress.status, Status::Comparing);
}
/// A lifecycle event before the balance caller begins.
fn later_event(state: &mut LiveState, e: &mut Envelope, event: Event) {
    let captured = match event {
        Event::Redirect { target, .. } => between(event, 9, target),
        Event::RemoveAccount(id) => between(event, id, 0),
        _ => between(event, 9, 0),
    };
    let session = captured.session().unwrap_or(0);
    let mut ledger = some(state.ledger(e.epoch)).fork_caller(e.group, &[session]);
    let before = ledger.connection(session);
    must(ledger.apply(event));
    let accounts = match event {
        Event::Redirect { target, .. } => vec![9, target],
        Event::RemoveAccount(id) => vec![id],
        _ => vec![9],
    };
    let progress = state.observe(&Batch {
        epoch: e.epoch,
        sequence: e.sequence,
        events: vec![captured],
        witness: Witness {
            accounts: accounts
                .into_iter()
                .map(|id| some(ledger.compact_account(id)))
                .collect(),
            session,
            before,
            after: ledger.connection(session),
            predecessor: 0,
        },
    });
    assert_eq!(progress.status, Status::Comparing);
    e.sequence += 1;
    e.evaluation.sequence += 1;
}
/// Connection balancing at 50 migrations a second from the fuller backend.
fn computed(e: &Evaluation) -> Computation {
    let mut computation = compute(e);
    if e.accounts.len() > 1 {
        let near = |bits: u64, rate: f64| (f64::from_bits(bits) - rate).abs() < 1e-9;
        computation.advice = vec![
            ComputedAdvice {
                position: 1,
                factor: Factor::Status,
                advice: 2,
                rate_matches: near(e.advice[0].count, 1.0),
            },
            ComputedAdvice {
                position: 1,
                factor: Factor::Connection,
                advice: 2,
                rate_matches: near(e.advice[1].count, 50.0),
            },
        ];
        computation.pair = Some(ComputedPair {
            position: 1,
            factor: Factor::Connection,
            rate: BalanceRate {
                bits: 50_f64.to_bits(),
                interval: 20_000_000,
            },
            rate_matches: near(e.balance_count, 50.0),
        });
    }
    computation
}
fn now(nanos: i64) -> GoTime {
    some(GoTime::new(63_000_000_000, 0, 1, Some(nanos)))
}
fn between(event: Event, source: u64, target: u64) -> LiveEvent {
    LiveEvent::Lifecycle {
        event,
        source,
        target,
    }
}
fn fixture(order: &[u64]) -> (LiveState, Envelope) {
    let (mut state, mut configuration) = setup(Limits::default());
    let epoch = configuration.epoch;
    happen(&mut state, epoch, Event::Account { id: 19, group: 2 }, 19);
    for &session in order {
        happen(
            &mut state,
            epoch,
            Event::Rehydrate {
                session,
                account: 9,
            },
            9,
        );
    }
    configuration.sequence = state.progress(epoch).compared_sequence + 1;
    let mut evaluation = configuration.clone();
    configuration.config += 1;
    configuration.configuration.rates[0] = 1_f64.to_bits();
    configuration.configuration.rates[5] = 50_f64.to_bits();
    configuration.entry = Entry::Config;
    configuration.accounts.clear();
    configuration.reads.clear();
    configuration.sorted.clear();
    configuration.returned.clear();
    assert_eq!(
        state.observe_native(&configuration, &compute(&configuration), 4096).status,
        Status::Comparing
    );
    evaluation.config = configuration.config;
    evaluation.configuration = configuration.configuration.clone();
    evaluation.sequence = configuration.sequence + 1;
    evaluation.evaluation = 3;
    evaluation.entry = Entry::Balance;
    let mut destination = evaluation.accounts[0].clone();
    destination.account = 19;
    destination.id = "destination".into();
    destination.addr = "destination:4000".into();
    evaluation.accounts[0].physical = must(i64::try_from(order.len()));
    evaluation.accounts[0].score_count = must(i64::try_from(order.len()));
    evaluation.accounts[0].parts[1] = must(u64::try_from(order.len()));
    evaluation.accounts[0].packed = must(u64::try_from(order.len()));
    evaluation.accounts[0].routeability_seen = false;
    evaluation.accounts[0].routeable = false;
    evaluation.accounts.push(destination);
    evaluation.sorted = vec![1, 0];
    evaluation.returned.clear();
    evaluation.from = 0;
    evaluation.to = 1;
    evaluation.reason = Some(Factor::Connection);
    evaluation.balance_count = 50_f64.to_bits();
    evaluation.advice = vec![
        Advice {
            from: 0,
            to: 1,
            factor: Factor::Status,
            advice: 2,
            count: 1_f64.to_bits(),
        },
        Advice {
            from: 0,
            to: 1,
            factor: Factor::Connection,
            advice: 2,
            count: 50_f64.to_bits(),
        },
    ];
    (
        state,
        Envelope {
            epoch,
            sequence: configuration.sequence + 1,
            span: 2,
            caller: 70,
            group: 2,
            members: vec![9, 19],
            evaluation: Box::new(evaluation),
            clock: Some(Clock {
                now: now(10_000_000_000),
                from_keyspace: String::new(),
                to_keyspace: String::new(),
            }),
            contexts: vec![],
            visits: vec![],
            accepted: 0,
        },
    )
}

// Fixture witnesses are generated from a separate lifecycle mirror and are
// never used to initialize the observer under test.
fn redirects(state: &LiveState, e: &mut Envelope, rows: &[(u64, Option<bool>)]) {
    let sessions: Vec<_> = rows.iter().map(|r| r.0).collect();
    let mut ledger = some(state.ledger(e.epoch))
        .fork_caller(e.group, &sessions);
    let mut sequence = e.sequence + 1;
    e.visits.clear();
    e.accepted = 0;
    for &(session, callback) in rows {
        let redirect = callback.map(|accepted| {
            let before = ledger.connection(session);
            let event = if accepted {
                e.accepted += 1;
                Event::Redirect {
                    session,
                    operation: sequence + 100,
                    target: 19,
                }
            } else {
                Event::Rejected { session }
            };
            must(ledger.apply(event));
            let batch = Batch {
                epoch: e.epoch,
                sequence,
                events: vec![between(event, 9, 19)],
                witness: Witness {
                    accounts: vec![
                        some(ledger.compact_account(9)),
                        some(ledger.compact_account(19)),
                    ],
                    session,
                    before,
                    after: ledger.connection(session),
                    predecessor: 0,
                },
            };
            sequence += 1;
            Redirect {
                from_keyspace: String::new(),
                to_keyspace: String::new(),
                callback: Some(accepted),
                batch,
            }
        });
        e.visits.push(Visit { session, redirect });
    }
    e.span = sequence - e.sequence + 1;
}
/// Committed scheduling history of the group.
fn timing(state: &LiveState, e: &Envelope) -> History {
    let timing = &some(state.native_group(e.epoch, e.group)).timing;
    History {
        last_accepted: timing.last_accepted,
        attempts: (0..timing.attempts.len())
            .map(|i| (timing.attempts.key_at(i), *timing.attempts.value_at(i)))
            .collect(),
    }
}
fn next(state: &LiveState, e: &Envelope, nanos: i64) -> Envelope {
    let mut next = e.clone();
    next.sequence = state.progress(e.epoch).compared_sequence + 1;
    next.evaluation.sequence = next.sequence;
    next.evaluation.evaluation += 1;
    next.caller += 1;
    next.span = 2;
    next.visits.clear();
    next.contexts.clear();
    next.accepted = 0;
    next.clock
        .as_mut()
        .unwrap_or_else(|| unreachable!("clock"))
        .now = now(nanos);
    next
}

#[test]
fn physical_prefix_skips_and_refusals_do_not_consume_quota() {
    let (mut state, mut e) = fixture(&[12, 10, 11]);
    later_event(&mut state, &mut e, Event::Closing { session: 12, operation: 1, });
    redirects(
        &state,
        &mut e,
        &[(12, None), (10, Some(false)), (11, Some(true))],
    );
    e.contexts = vec![false; 3];
    assert_eq!(
        state.observe_group_balance(&e, &computed(&e.evaluation), 8192).status,
        Status::Comparing,
        "BALANCE_PHYSICAL_SKIP_REFUSAL_QUOTA"
    );
    let history = timing(&state, &e);
    assert_eq!(
        history.last_accepted,
        Some(now(10_000_000_000)),
        "BALANCE_ACCEPTED_WATERMARK"
    );
    assert!(
        !history.attempts.contains_key(&12),
        "BALANCE_SKIP_NO_ATTEMPT_CLOCK"
    );
    assert!(history.attempts[&10].failed && !history.attempts[&10].pending);
    assert!(!history.attempts[&11].failed && history.attempts[&11].pending);
}

#[test]
fn context_is_read_before_quota_stop_but_never_after_list_exhaustion() {
    for remaining in [false, true] {
        for forged in [false, true] {
            let (mut state, mut e) = fixture(&[12, 10, 11]);
            if remaining {
                redirects(&state, &mut e, &[(12, Some(true))]);
            } else {
                for session in [12, 10] {
                    later_event(&mut state, &mut e, Event::Closing { session, operation: 1, });
                }
                redirects(&state, &mut e, &[(12, None), (10, None), (11, Some(true))]);
            }
            e.contexts = vec![false; if remaining { 2 } else { 3 }];
            if forged {
                if remaining {
                    e.contexts.pop();
                } else {
                    e.contexts.push(false);
                }
            }
            let got = state.observe_group_balance(&e, &computed(&e.evaluation), 8192);
            assert_eq!(
                got.status,
                if forged {
                    Status::Invalid(InvalidReason::Witness)
                } else {
                    Status::Comparing
                },
                "BALANCE_CONTEXT_NIL_QUOTA_ORDER remaining={remaining} forged={forged}"
            );
        }
    }
}

#[test]
fn cancellation_stops_before_visit_and_cannot_hide_an_extra_read() {
    for extra in [false, true] {
        let (mut state, mut e) = fixture(&[12, 10, 11]);
        e.contexts = if extra { vec![true, false] } else { vec![true] };
        let got = state.observe_group_balance(&e, &computed(&e.evaluation), 8192);
        assert_eq!(
            got.status,
            if extra {
                Status::Invalid(InvalidReason::Witness)
            } else {
                Status::Comparing
            },
            "BALANCE_CONTEXT_CANCEL_EXACT"
        );
        assert!(timing(&state, &e).attempts.is_empty());
    }
}

#[test]
fn cooldown_uses_attempt_time_and_strict_monotonic_expiry() {
    for offset in [-1_i64, 0, 1] {
        let (mut state, mut e) = fixture(&[12, 10, 11]);
        redirects(
            &state,
            &mut e,
            &[(12, Some(false)), (10, Some(false)), (11, Some(false))],
        );
        e.contexts = vec![false; 3];
        assert_eq!(
            state.observe_group_balance(&e, &computed(&e.evaluation), 8192).status,
            Status::Comparing
        );
        assert_eq!(
            timing(&state, &e).last_accepted,
            None,
            "BALANCE_REFUSAL_NO_GROUP_WATERMARK"
        );
        let before = timing(&state, &e);
        let mut later = next(&state, &e, 13_000_000_000 + offset);
        let result = (offset >= 0).then_some(false);
        redirects(
            &state,
            &mut later,
            &[(12, result), (10, result), (11, result)],
        );
        later.contexts = vec![false; 3];
        assert_eq!(
            state.observe_group_balance(&later, &computed(&later.evaluation), 8192).status,
            Status::Comparing,
            "BALANCE_COOLDOWN_EQUAL_ELIGIBLE"
        );
        if offset < 0 {
            assert_eq!(
                timing(&state, &e),
                before,
                "BALANCE_COOLDOWN_SKIP_PRESERVES_HISTORY"
            );
        } else {
            assert_eq!(
                timing(&state, &e).attempts[&12].time,
                now(13_000_000_000 + offset)
            );
        }
    }
}

#[test]
fn whole_pair_and_direct_backstop_have_distinct_reads_and_history() {
    for direct in [false, true] {
        for extra_callback in [false, true] {
            let (mut state, mut e) = fixture(&[12, 10, 11]);
            if direct {
                redirects(
                    &state,
                    &mut e,
                    &[(12, Some(false)), (10, Some(false)), (11, Some(false))],
                );
                e.contexts = vec![false; 3];
                for visit in &mut e.visits {
                    let redirect = visit
                        .redirect
                        .as_mut()
                        .unwrap_or_else(|| unreachable!("redirect"));
                    redirect.to_keyspace = "other".into();
                    redirect.callback = extra_callback.then_some(false);
                }
            } else {
                e.clock
                    .as_mut()
                    .unwrap_or_else(|| unreachable!("clock"))
                    .to_keyspace = "other".into();
                if extra_callback {
                    e.contexts.push(false);
                }
            }
            assert_eq!(
                state.observe_group_balance(&e, &computed(&e.evaluation), 8192).status,
                if extra_callback {
                    Status::Invalid(InvalidReason::Witness)
                } else {
                    Status::Comparing
                },
                "BALANCE_DIRECT_KEYSPACE_BACKSTOP"
            );
            if !extra_callback {
                let history = timing(&state, &e);
                assert_eq!(history.attempts.len(), if direct { 3 } else { 0 });
                assert_eq!(history.last_accepted, None);
            }
        }
    }
}

#[test]
fn final_mismatch_rolls_back_factor_lifecycle_and_timing_together() {
    let (mut state, mut e) = fixture(&[12, 10, 11]);
    let before = some(state.view(e.epoch));
    let history = timing(&state, &e);
    let retained = state.native_retained_bytes();
    redirects(&state, &mut e, &[(12, Some(true))]);
    e.contexts = vec![false, false];
    e.accepted = 0;
    let result = state.observe_group_balance(&e, &computed(&e.evaluation), 8192);
    assert_eq!(timing(&state, &e), history, "BALANCE_FINAL_ROLLBACK_TIMING");
    assert_eq!(
        (result.status, result.compared_sequence),
        (Status::Invalid(InvalidReason::Witness), e.sequence - 1),
        "BALANCE_FINAL_ROLLBACK_PREFIX"
    );
    assert_eq!(
        some(state.view(e.epoch)).accounts,
        before.accounts,
        "BALANCE_FINAL_ROLLBACK_LEDGER"
    );
    assert_eq!(timing(&state, &e), history, "BALANCE_FINAL_ROLLBACK_TIMING");
    assert_eq!(
        state.native_retained_bytes(),
        retained,
        "BALANCE_FINAL_ROLLBACK_CHARGE"
    );
    let mut factor = some(state.native_group(e.epoch, e.group)).state.duplicate();
    assert!(
        factor.apply(&e.evaluation, &computed(&e.evaluation)).is_ok(),
        "BALANCE_FINAL_ROLLBACK_FACTOR"
    );
}

#[test]
fn physical_order_and_complete_native_inventory_are_independent() {
    for fault in 0..4 {
        let (mut state, mut e) = fixture(&[12, 10, 11]);
        redirects(&state, &mut e, &[(12, Some(true))]);
        e.contexts = vec![false, false];
        match fault {
            0 => redirects(&state, &mut e, &[(10, Some(true))]),
            1 => {
                e.members.remove(0);
            }
            2 => e.members.swap(0, 1),
            _ => e.members[1] = 99,
        }
        assert_eq!(
            state.observe_group_balance(&e, &computed(&e.evaluation), 8192).status,
            Status::Invalid(InvalidReason::Witness),
            "BALANCE_INDEPENDENT_PHYSICAL_AND_INVENTORY"
        );
        assert_eq!(state.progress(e.epoch).compared_sequence, e.sequence - 1);
    }
}

fn terminal(state: &LiveState, e: &Envelope, session: u64, success: bool) -> Batch {
    let mut ledger = some(state.ledger(e.epoch))
        .fork_caller(e.group, &[session]);
    let before = ledger.connection(session);
    let operation = some(ledger.caller_redirect_watermark(session));
    let event = Event::Redirected {
        session,
        operation,
        success,
    };
    must(ledger.apply(event));
    Batch {
        epoch: e.epoch,
        sequence: state.progress(e.epoch).compared_sequence + 1,
        events: vec![between(event, 9, 19)],
        witness: Witness {
            accounts: vec![
                some(ledger.compact_account(9)),
                some(ledger.compact_account(19)),
            ],
            session,
            before,
            after: ledger.connection(session),
            predecessor: if success {
                ledger.predecessor(session)
            } else {
                0
            },
        },
    }
}

#[test]
fn failed_terminal_retains_original_attempt_clock_and_group_watermark() {
    let (mut state, mut e) = fixture(&[12, 10, 11]);
    redirects(&state, &mut e, &[(12, Some(true))]);
    e.contexts = vec![false, false];
    assert_eq!(
        state.observe_group_balance(&e, &computed(&e.evaluation), 8192).status,
        Status::Comparing
    );
    let batch = terminal(&state, &e, 12, false);
    assert_eq!(state.observe(&batch).status, Status::Comparing);
    let history = timing(&state, &e);
    assert!(
        history.attempts[&12].failed && !history.attempts[&12].pending,
        "BALANCE_TERMINAL_FAILURE_PHASE"
    );
    assert_eq!(
        history.attempts[&12].time,
        now(10_000_000_000),
        "BALANCE_TERMINAL_PRESERVES_ATTEMPT_CLOCK"
    );
    assert_eq!(
        history.last_accepted,
        Some(now(10_000_000_000)),
        "BALANCE_TERMINAL_PRESERVES_GROUP_CLOCK"
    );
    let mut later = next(&state, &e, 12_999_999_999);
    redirects(
        &state,
        &mut later,
        &[(12, None), (10, Some(false)), (11, Some(false))],
    );
    later.contexts = vec![false; 3];
    assert_eq!(
        state.observe_group_balance(&later, &computed(&later.evaluation), 8192).status,
        Status::Comparing,
        "BALANCE_FAILED_TERMINAL_NEXT_SCAN"
    );
    let mut replay = batch.clone();
    replay.sequence = state.progress(e.epoch).compared_sequence + 1;
    replay.witness.before = ConnectionState {
        present: true,
        physical: 9,
        score_owner: 9,
        ..ConnectionState::default()
    };
    replay.witness.after = replay.witness.before;
    replay.witness.accounts = vec![
        some(some(state.ledger(e.epoch)).compact_account(9)),
        some(some(state.ledger(e.epoch)).compact_account(19)),
    ];
    assert_eq!(state.observe(&replay).status, Status::Comparing);
    assert_eq!(
        timing(&state, &e).attempts[&12],
        history.attempts[&12],
        "BALANCE_LATE_TERMINAL_NO_REWRITE"
    );
}

#[test]
fn config_update_preserves_committed_time_history() {
    let (mut state, mut e) = fixture(&[12, 10, 11]);
    redirects(
        &state,
        &mut e,
        &[(12, Some(false)), (10, Some(false)), (11, Some(false))],
    );
    e.contexts = vec![false; 3];
    assert_eq!(
        state.observe_group_balance(&e, &computed(&e.evaluation), 8192).status,
        Status::Comparing
    );
    let history = timing(&state, &e);
    let mut config = e.evaluation.as_ref().clone();
    config.sequence = state.progress(e.epoch).compared_sequence + 1;
    config.evaluation += 1;
    config.config += 1;
    config.entry = Entry::Config;
    config.accounts.clear();
    config.reads.clear();
    config.sorted.clear();
    config.advice.clear();
    config.returned.clear();
    config.from = -1;
    config.to = -1;
    config.reason = None;
    config.balance_count = 0;
    assert_eq!(
        state.observe_native(&config, &compute(&config), 4096).status,
        Status::Comparing
    );
    assert_eq!(
        timing(&state, &e),
        history,
        "BALANCE_CONFIG_RETAINS_GROUP_HISTORY"
    );
}

#[test]
fn timing_retained_and_clone_charge_survive_sibling_group_commit() {
    let (mut state, mut e) = fixture(&[12, 10, 11]);
    redirects(
        &state,
        &mut e,
        &[(12, Some(false)), (10, Some(false)), (11, Some(false))],
    );
    e.contexts = vec![false; 3];
    let (mut reference, mut no_attempts) = fixture(&[12, 10, 11]);
    no_attempts.contexts = vec![true];
    assert_eq!(
        reference.observe_group_balance(&no_attempts, &computed(&no_attempts.evaluation), 8192).status,
        Status::Comparing
    );
    let before = reference.native_retained_bytes();
    assert_eq!(
        state.observe_group_balance(&e, &computed(&e.evaluation), 8192).status,
        Status::Comparing
    );
    assert_eq!(
        state.native_retained_bytes(),
        before + 3 * attempt_charge(),
        "BALANCE_TIMING_RETAINED_CHARGED"
    );
    let history = timing(&state, &e);
    let retained = state.native_retained_bytes();
    let sequence = state.progress(e.epoch).compared_sequence + 1;
    // A router-only final check cannot replace an unrelated Group's timing.
    let transaction = must(state.begin_caller(Scope {
        epoch: e.epoch,
        group: 0,
        sequence,
        span: 1,
        sessions: &[],
        frame_bytes: 8192,
    }));
    assert_eq!(transaction.finish(Ok(())).status, Status::Comparing);
    assert_eq!(
        timing(&state, &e),
        history,
        "BALANCE_UNVISITED_GROUP_TIME_PRESERVED"
    );
    assert_eq!(state.native_retained_bytes(), retained);
    let sequence = state.progress(e.epoch).compared_sequence + 1;
    let clone = some(state.native_group(e.epoch, 2)).charge;
    let ledger = must(
        some(state.ledger(e.epoch))
            .caller_clone_charge(2, &[12]),
    );
    let transaction = must(state.begin_caller(Scope {
        epoch: e.epoch,
        group: 2,
        sequence,
        span: 1,
        sessions: &[12],
        frame_bytes: 8192,
    }));
    assert_eq!(transaction.finish(Ok(())).status, Status::Comparing);
    assert_eq!(
        timing(&state, &e),
        history,
        "BALANCE_TIMING_CLONE_COPIES_HISTORY"
    );
    assert!(
        some(state.caller_peak_budget()).clones >= ledger + clone,
        "BALANCE_TIMING_CLONE_CHARGED"
    );
}

#[test]
fn timing_growth_is_admitted_at_exact_shared_budget_and_rejected_at_plus_one() {
    let order: Vec<_> = (10..41).collect();
    let (mut probe, mut sample) = fixture(&order);
    let ledger_charge = must(
        some(probe.ledger(sample.epoch))
            .caller_clone_charge(2, &order),
    );
    let rows: Vec<_> = order.iter().map(|id| (*id, Some(false))).collect();
    redirects(&probe, &mut sample, &rows);
    sample.contexts = vec![false; order.len()];
    assert_eq!(
        probe.observe_group_balance(&sample, &computed(&sample.evaluation), 8192).status,
        Status::Comparing
    );
    assert_eq!(
        some(probe.caller_peak_budget()).clones,
        ledger_charge + some(probe.native_group(sample.epoch, 2)).charge,
        "BALANCE_TIMING_GROWTH_CHARGED"
    );
    let headroom =
        HISTORY_LIMIT - some(probe.caller_peak_budget()).peak;
    for extra in [0, 1] {
        let (mut state, mut e) = fixture(&order);
        redirects(&state, &mut e, &rows);
        e.contexts = vec![false; order.len()];
        let total = state.native_retained_bytes() + headroom + extra;
        ballast(&mut state, total);
        let retained = state.native_retained_bytes();
        let got = state.observe_group_balance(&e, &computed(&e.evaluation), 8192);
        if extra == 0 {
            assert_eq!(got.status, Status::Comparing, "BALANCE_TIMING_BUDGET_EQUAL");
            assert_eq!(
                some(state.caller_peak_budget()).peak,
                HISTORY_LIMIT
            );
        } else {
            assert_eq!(
                (got.status, got.compared_sequence),
                (Status::Invalid(InvalidReason::Capacity), e.sequence - 1),
                "BALANCE_TIMING_BUDGET_PLUS_ONE"
            );
            assert!(
                timing(&state, &e).attempts.is_empty(),
                "BALANCE_CAPACITY_ROLLS_BACK_TIMING"
            );
            assert_eq!(state.native_retained_bytes(), retained);
        }
    }
}

#[test]
fn caller_read_and_visit_caps_include_skipped_connections() {
    for extra in [0, 1] {
        let order: Vec<_> = (10..43 + extra).collect();
        let (mut state, mut e) = fixture(&order);
        let skipped = must(usize::try_from(2 + extra));
        for &session in order.iter().take(skipped) {
            later_event(&mut state, &mut e, Event::Closing { session, operation: 1, });
        }
        let rows: Vec<_> = order
            .iter()
            .enumerate()
            .map(|(i, id)| (*id, (i >= skipped).then_some(false)))
            .collect();
        redirects(&state, &mut e, &rows);
        e.contexts = vec![false; order.len()];
        assert_eq!(
            state.observe_group_balance(&e, &computed(&e.evaluation), 8192).status,
            if extra == 0 {
                Status::Comparing
            } else {
                Status::Invalid(InvalidReason::Capacity)
            },
            "BALANCE_READ_CAP_EQUAL_PLUS_ONE"
        );
    }
    for extra in [0, 1] {
        let order: Vec<_> = (10..74 + extra).collect();
        let (mut state, mut e) = fixture(&order);
        for &session in &order {
            later_event(&mut state, &mut e, Event::Closing { session, operation: 1, });
        }
        // No separate fixture fork: the producer's attempted 65th visit is
        // intentionally malformed and must fail before begin_caller cloning.
        e.visits = order
            .iter()
            .map(|id| Visit {
                session: *id,
                redirect: None,
            })
            .collect();
        e.contexts = vec![false; order.len()];
        assert_eq!(
            state.observe_group_balance(&e, &computed(&e.evaluation), 8192).status,
            if extra == 0 {
                Status::Comparing
            } else {
                Status::Invalid(InvalidReason::Capacity)
            },
            "BALANCE_VISIT_CAP_EQUAL_PLUS_ONE"
        );
    }
}

#[test]
fn pending_skips_and_independent_recent_group_watermark_control_next_round() {
    let (mut state, mut e) = fixture(&[12, 10, 11]);
    redirects(&state, &mut e, &[(12, Some(true))]);
    e.contexts = vec![false, false];
    assert_eq!(
        state.observe_group_balance(&e, &computed(&e.evaluation), 8192).status,
        Status::Comparing
    );
    let batch = terminal(&state, &e, 12, false);
    assert_eq!(state.observe(&batch).status, Status::Comparing);
    let history = timing(&state, &e);
    let mut later = next(&state, &e, 10_000_000_000);
    // Native comparison accepts the legacy scalar tolerance; the enclosing
    // caller must still use the independently computed exact50/s slow branch.
    later.evaluation.balance_count = 50_f64.to_bits() + 1;
    later.evaluation.advice[1].count = later.evaluation.balance_count;
    redirects(&state, &mut later, &[(12, None), (10, Some(true))]);
    later.contexts = vec![false; 3];
    assert_eq!(
        state.observe_group_balance(&later, &computed(&later.evaluation), 8192).status,
        Status::Invalid(InvalidReason::Witness),
        "BALANCE_COMPUTED_RATE_AND_RETAINED_WATERMARK"
    );
    assert_eq!(timing(&state, &e), history);
}

#[test]
fn exact_zero_rate_rejects_every_extra_caller_read() {
    for extra in [false, true] {
        let (mut state, mut e) = fixture(&[12, 10, 11]);
        later_event(&mut state, &mut e, Event::RemoveAccount(19));
        e.members.pop();
        e.evaluation.accounts.pop();
        e.evaluation.accounts[0].seen = 0;
        e.evaluation.accounts[0].parts.clear();
        e.evaluation.accounts[0].packed = 0;
        e.evaluation.sorted.clear();
        e.evaluation.reads.clear();
        e.evaluation.advice.clear();
        e.evaluation.from = -1;
        e.evaluation.to = -1;
        e.evaluation.reason = None;
        e.evaluation.balance_count = 0;
        if !extra {
            e.clock = None;
        }
        assert_eq!(
            state.observe_group_balance(&e, &computed(&e.evaluation), 8192).status,
            if extra {
                Status::Invalid(InvalidReason::Witness)
            } else {
                Status::Comparing
            },
            "BALANCE_ZERO_RATE_NO_CLOCK_OR_READS"
        );
    }
}

#[test]
fn pending_session_is_skipped_without_changing_its_attempt_history() {
    let (mut state, mut e) = fixture(&[12, 10, 11, 13, 14]);
    later_event(&mut state, &mut e, Event::Redirect { session: 12, operation: 1, target: 19, });
    e.evaluation.accounts[0].score_count = 4;
    e.evaluation.accounts[0].parts[1] = 4;
    e.evaluation.accounts[0].packed = 4;
    e.evaluation.accounts[1].score_count = 1;
    e.evaluation.accounts[1].parts[1] = 1;
    e.evaluation.accounts[1].packed = 1;
    redirects(&state, &mut e, &[(12, None), (10, Some(true))]);
    e.contexts = vec![false; 3];
    assert_eq!(
        state.observe_group_balance(&e, &computed(&e.evaluation), 8192).status,
        Status::Comparing,
        "BALANCE_PENDING_SKIP_NO_QUOTA"
    );
    assert!(
        !timing(&state, &e).attempts.contains_key(&12),
        "BALANCE_PENDING_SKIP_NO_CLOCK"
    );
    let batch = terminal(&state, &e, 12, false);
    assert_eq!(state.observe(&batch).status, Status::Comparing);
    let mut later = next(&state, &e, 20_000_000_000);
    // Account counts remain 4/1: one earlier pending redirect failed and the
    // newly accepted session10 is now pending. Session12's original attempt
    // clock was never captured, so its failed phase cannot be qualified.
    redirects(
        &state,
        &mut later,
        &[
            (12, Some(false)),
            (10, None),
            (11, Some(false)),
            (13, Some(false)),
            (14, Some(false)),
        ],
    );
    later.contexts = vec![false; 5];
    assert_eq!(
        state.observe_group_balance(&later, &computed(&later.evaluation), 8192).status,
        Status::Invalid(InvalidReason::Lifecycle),
        "BALANCE_MISSING_ATTEMPT_HISTORY_REJECTED"
    );
}

#[test]
fn dropped_and_late_failed_children_preserve_original_timing() {
    for dropped in [false, true] {
        let (mut state, mut e) = fixture(&[12, 10, 11]);
        redirects(
            &state,
            &mut e,
            &[(12, Some(false)), (10, Some(false)), (11, Some(false))],
        );
        e.contexts = vec![false; 3];
        let before = timing(&state, &e);
        if dropped {
            let mut transaction = must(state.begin_caller(Scope {
                epoch: e.epoch,
                group: e.group,
                sequence: e.sequence,
                span: e.span,
                sessions: &[12, 10, 11],
                frame_bytes: 8192,
            }));
            must(transaction.compare_balance(&e, &computed(&e.evaluation)));
            assert_eq!(
                timing(&transaction.staged, &e).attempts.len(),
                3
            );
            drop(transaction);
        } else {
            e.visits[1]
                .redirect
                .as_mut()
                .unwrap_or_else(|| unreachable!("redirect"))
                .batch
                .witness
                .accounts[0]
                .score = 999;
            assert_eq!(
                state.observe_group_balance(&e, &computed(&e.evaluation), 8192).status,
                Status::Invalid(InvalidReason::Witness)
            );
        }
        assert_eq!(
            timing(&state, &e),
            before,
            "BALANCE_UNFINISHED_TIMING_ROLLBACK"
        );
        assert_eq!(state.progress(e.epoch).compared_sequence, e.sequence - 1);
    }
}

#[test]
fn sibling_group_factor_commit_does_not_replace_timing() {
    let (mut state, mut e) = fixture(&[12, 10, 11]);
    redirects(
        &state,
        &mut e,
        &[(12, Some(false)), (10, Some(false)), (11, Some(false))],
    );
    e.contexts = vec![false; 3];
    assert_eq!(
        state.observe_group_balance(&e, &computed(&e.evaluation), 8192).status,
        Status::Comparing
    );
    let before = timing(&state, &e);
    let sequence = state.progress(e.epoch).compared_sequence + 1;
    assert_eq!(
        state
            .observe(&Batch {
                epoch: e.epoch,
                sequence,
                events: vec![LiveEvent::GroupCreated(6)],
                witness: Witness::default()
            })
            .status,
        Status::Comparing
    );
    let mut config = e.evaluation.as_ref().clone();
    config.group = 6;
    config.sequence = sequence + 1;
    config.evaluation = 1;
    config.entry = Entry::Config;
    config.accounts.clear();
    config.reads.clear();
    config.sorted.clear();
    config.advice.clear();
    config.returned.clear();
    config.from = -1;
    config.to = -1;
    config.reason = None;
    config.balance_count = 0;
    let mut transaction = must(state.begin_caller(Scope {
        epoch: e.epoch,
        group: 6,
        sequence: config.sequence,
        span: 2,
        sessions: &[],
        frame_bytes: 8192,
    }));
    must(transaction.evaluation(&config, &compute(&config)));
    assert_eq!(transaction.finish(Ok(())).status, Status::Comparing);
    assert!(
        state.native_group(e.epoch, 2).is_some(),
        "BALANCE_SIBLING_COMMIT_PRESERVES_TIMING"
    );
    assert_eq!(
        timing(&state, &e),
        before,
        "BALANCE_SIBLING_COMMIT_PRESERVES_TIMING"
    );
    let sibling = &some(state.native_group(e.epoch, 6)).timing;
    assert_eq!((sibling.last_accepted, sibling.attempts.len()), (None, 0));
}

#[test]
fn actual_close_retires_pending_time_and_late_terminal_preserves_it() {
    let (mut state, mut e) = fixture(&[12, 10, 11]);
    redirects(&state, &mut e, &[(12, Some(true))]);
    e.contexts = vec![false, false];
    assert_eq!(
        state.observe_group_balance(&e, &computed(&e.evaluation), 8192).status,
        Status::Comparing
    );
    let before = timing(&state, &e);
    let mut mirror = some(state.ledger(e.epoch)).fork_caller(2, &[12]);
    let before_close = mirror.connection(12);
    must(mirror.apply(Event::Closed(12)));
    let close = Batch {
        epoch: e.epoch,
        sequence: state.progress(e.epoch).compared_sequence + 1,
        events: vec![between(Event::Closed(12), 9, 19)],
        witness: Witness {
            accounts: vec![
                some(mirror.compact_account(9)),
                some(mirror.compact_account(19)),
            ],
            session: 12,
            before: before_close,
            after: mirror.connection(12),
            predecessor: 0,
        },
    };
    assert_eq!(state.observe(&close).status, Status::Comparing);
    assert!(
        !timing(&state, &e).attempts[&12].pending,
        "BALANCE_CLOSE_RETIRES_PENDING_TIME"
    );
    let closed = timing(&state, &e);
    assert_eq!(closed.attempts[&12].time, before.attempts[&12].time);
    assert_eq!(closed.last_accepted, before.last_accepted);
    let late = terminal(&state, &e, 12, false);
    assert_eq!(state.observe(&late).status, Status::Comparing);
    assert_eq!(
        timing(&state, &e),
        closed,
        "BALANCE_LATE_CLOSED_TERMINAL_PRESERVES_TIME"
    );
}

fn native_rate_fixture() -> (
    LiveState,
    Evaluation,
    Evaluation,
) {
    let (mut state, mut configuration) = setup(Limits::default());
    let epoch = configuration.epoch;
    happen(&mut state, epoch, Event::Account { id: 19, group: 2 }, 19);
    for session in 10..13 {
        happen(
            &mut state,
            epoch,
            Event::Rehydrate {
                session,
                account: 9,
            },
            9,
        );
    }
    configuration.sequence = state.progress(epoch).compared_sequence + 1;
    let mut evaluation = configuration.clone();
    configuration.config += 1;
    configuration.configuration.rates[0] = 1_f64.to_bits();
    configuration.configuration.rates[5] = 50_f64.to_bits();
    configuration.entry = Entry::Config;
    configuration.accounts.clear();
    configuration.reads.clear();
    configuration.sorted.clear();
    configuration.returned.clear();
    evaluation.config = configuration.config;
    evaluation.configuration = configuration.configuration.clone();
    evaluation.sequence = configuration.sequence + 1;
    evaluation.evaluation = 3;
    evaluation.entry = Entry::Balance;
    let mut destination = evaluation.accounts[0].clone();
    destination.account = 19;
    destination.id = "destination".into();
    destination.addr = "destination:4000".into();
    evaluation.accounts[0].physical = 3;
    evaluation.accounts[0].score_count = 3;
    evaluation.accounts[0].parts[1] = 3;
    evaluation.accounts[0].packed = 3;
    evaluation.accounts[0].routeability_seen = false;
    evaluation.accounts[0].routeable = false;
    evaluation.accounts.push(destination);
    evaluation.sorted = vec![1, 0];
    evaluation.returned.clear();
    evaluation.from = 0;
    evaluation.to = 1;
    evaluation.reason = Some(Factor::Connection);
    evaluation.balance_count = 50_f64.to_bits() + 1;
    evaluation.advice = vec![
        Advice {
            from: 0,
            to: 1,
            factor: Factor::Status,
            advice: 2,
            count: 1_f64.to_bits(),
        },
        Advice {
            from: 0,
            to: 1,
            factor: Factor::Connection,
            advice: 2,
            count: evaluation.balance_count,
        },
    ];
    (state, configuration, evaluation)
}

#[test]
fn tolerated_native_rate_witness_cannot_replace_independent_caller_rate() {
    let (mut state, configuration, evaluation) = native_rate_fixture();
    let epoch = configuration.epoch;
    let original = state.native_retained_bytes();
    let mut transaction = state
        .begin_caller(Scope {
            epoch,
            group: 2,
            sequence: configuration.sequence,
            span: 3,
            sessions: &[10, 11, 12],
            frame_bytes: 4096,
        })
        .unwrap_or_else(|e| unreachable!("{e:?}"));
    let configured = transaction
        .evaluation(&configuration, &compute(&configuration))
        .unwrap_or_else(|e| unreachable!("{e:?}"));
    assert!(
        configured.balance_rate().is_none(),
        "CALLER_CONFIG_IS_NOT_BALANCE_RATE"
    );
    let decision = transaction
        .evaluation(&evaluation, &computed(&evaluation))
        .unwrap_or_else(|e| unreachable!("{e:?}"));
    assert_eq!(decision.pair(), (0, 1, Some(Factor::Connection)));
    assert!(decision.returned().is_empty());
    assert_eq!(decision.entry(), Entry::Balance);
    let now = some(GoTime::new(63_000_000_000, 0, 1, None));
    // A recent NONZERO watermark is essential: no elapsed time means exact
    // 50/s waits, while 50+1ULP takes the fast branch regardless of watermark.
    let independent = match start(
        decision
            .balance_rate()
            .unwrap_or_else(|| unreachable!("balance")),
    ) {
        Start::ReadClock(rate) => rate.after_clock(true, now, now),
        Start::NoRate => unreachable!("positive independent rate"),
    };
    // This deliberately forged caller result matches the slightly perturbed
    // Go scalar witness. It differs discretely from the independent native50/s
    // result even though the legacy scalar comparison accepts the perturbation.
    let forged_caller_result = AfterClock::Scan {
        interval: 19_999_999,
        quota: 1,
    };
    let final_check = if independent == forged_caller_result {
        Ok(())
    } else {
        Err(InvalidReason::Witness)
    };
    let progress = transaction.finish(final_check);
    assert_eq!(
        (progress.status, progress.compared_sequence),
        (
            Status::Invalid(InvalidReason::Witness),
            configuration.sequence - 1
        ),
        "CALLER_FINAL_REJECTS_TOLERATED_RATE_SUBSTITUTION"
    );
    assert_eq!(state.native_retained_bytes(), original);
}
