//! Private caller stages over one owner interval.
use control_router::go_time::GoTime;
use control_router::shadow::live::caller::{
    Budget, Scope, DECODE_MULTIPLIER, MAX_CALLER_FRAME,
};
use control_router::shadow::live::native::{HISTORY_LIMIT, STAGE_OVERHEAD};
use control_router::shadow::live::{
    AccountWitness, Batch, ConnectionState, LiveEvent, LiveState, Witness,
};
use control_router::shadow::native::{
    Account, ClockSite, Configuration, Coverage, Entry, Evaluation, Factor, FactorWidth, GoArch,
    Origin, Read,
};
use control_router::shadow::native_compute::{Computation, Row};
use control_router::shadow::{Epoch, Event, InvalidReason, Limits, Status};

fn connection_factors() -> Vec<FactorWidth> {
    vec![
        FactorWidth {
            factor: Factor::Status,
            bits: 1,
        },
        FactorWidth {
            factor: Factor::Connection,
            bits: 16,
        },
    ]
}
/// Status and connection scoring of the fixtures: a healthy backend scores its
/// connection count.
fn compute(e: &Evaluation) -> Computation {
    Computation {
        order: connection_factors(),
        windows: vec![Vec::new(), Vec::new()],
        used: vec![0; e.accounts.len()],
        rows: e
            .accounts
            .iter()
            .map(|account| {
                let status = u64::from(!account.healthy);
                let count = u64::try_from(account.score_count).unwrap_or(0);
                Row {
                    score: status << 16 | count,
                    parts: vec![status, count],
                    routeable: account.healthy,
                }
            })
            .collect(),
        advice: Vec::new(),
        asked: Vec::new(),
        pair: None,
        preferred: Vec::new(),
        ticket: 0,
        history_bytes: 0,
    }
}
fn must<T, E: std::fmt::Debug>(result: Result<T, E>) -> T {
    result.unwrap_or_else(|error| unreachable!("fixture: {error:?}"))
}
fn some<T>(value: Option<T>) -> T {
    value.unwrap_or_else(|| unreachable!("fixture"))
}
fn life(event: Event) -> LiveEvent {
    LiveEvent::Lifecycle {
        event,
        source: 0,
        target: 0,
    }
}
fn batch(epoch: Epoch, sequence: u64, events: Vec<LiveEvent>, witness: Witness) -> Batch {
    Batch {
        epoch,
        sequence,
        events,
        witness,
    }
}
fn account(score: i64, physical: bool) -> AccountWitness {
    AccountWitness {
        id: 9,
        score,
        physical: u64::from(physical),
        head: if physical { 10 } else { 0 },
        tail: if physical { 10 } else { 0 },
    }
}
/// The first configuration of a group.
fn configured(epoch: Epoch) -> Evaluation {
    Evaluation {
        epoch,
        sequence: 3,
        group: 2,
        policy: 3,
        config: 4,
        resource: 0,
        evaluation: 1,
        entry: Entry::Config,
        configuration: Configuration {
            balance: "connection".into(),
            routing: "idlest".into(),
            label: String::new(),
            self_label: String::new(),
            rates: [0; 6],
            count_ratio: 1.2_f64.to_bits(),
        },
        factors: connection_factors(),
        accounts: Vec::new(),
        reads: Vec::new(),
        sorted: Vec::new(),
        advice: Vec::new(),
        returned: Vec::new(),
        from: -1,
        to: -1,
        balance_count: 0,
        reason: None,
    }
}
fn setup(limits: Limits) -> (LiveState, Evaluation) {
    let epoch = Epoch {
        process: 41,
        owner: 1,
        nonce: 43,
    };
    let zero = some(GoTime::new(0, 0, 1, None));
    let mut state = LiveState::new(limits);
    must(state.install_native(Coverage {
        epoch,
        origin: Origin { synthetic: false, baseline: 0 },
        zero_time: zero,
        go_arch: GoArch::Arm64,
    }));
    for (sequence, event) in [(1, life(Event::Begin)), (2, LiveEvent::GroupCreated(2))] {
        assert_eq!(
            state
                .observe(&batch(epoch, sequence, vec![event], Witness::default()))
                .status,
            Status::Comparing
        );
    }
    let mut e = configured(epoch);
    assert_eq!(state.observe_native(&e, &compute(&e), 4096).compared_sequence, 3);
    assert_eq!(
        state
            .observe(&batch(
                epoch,
                4,
                vec![life(Event::Account { id: 9, group: 2 })],
                Witness {
                    accounts: vec![account(0, false)],
                    ..Witness::default()
                }
            ))
            .status,
        Status::Comparing
    );
    e.sequence = 5;
    e.evaluation = 2;
    e.entry = Entry::Routeable;
    e.accounts.push(Account {
        account: 9,
        seen: 31,
        id: "backend".into(),
        addr: "backend:4000".into(),
        keyspace: String::new(),
        ip: String::new(),
        cluster: String::new(),
        label: String::new(),
        label_present: false,
        status_port: 0,
        physical: 0,
        score_count: 0,
        healthy: true,
        local: false,
        parts: vec![0, 0],
        packed: 0,
        routeable: true,
        routeability_seen: true,
    });
    e.sorted = vec![0];
    e.returned = vec![0];
    for site in [ClockSite::MetricCadence, ClockSite::StatusSnapshot] {
        e.reads.push(Read::Clock {
            site,
            ordinal: 0,
            time: zero,
        });
    }
    (state, e)
}
/// Retain the history of another owner, of `bytes` in its window, and give the
/// charge of its group.
fn fill(state: &mut LiveState, bytes: usize, staging: usize) -> usize {
    let epoch = Epoch {
        process: 41,
        owner: 7,
        nonce: 43,
    };
    let coverage = Coverage {
        epoch,
        origin: Origin { synthetic: false, baseline: 0 },
        zero_time: some(GoTime::new(0, 0, 1, None)),
        go_arch: GoArch::Arm64,
    };
    assert_eq!(state.install_native(coverage), Ok(()));
    for (sequence, event) in [
        (
            1,
            LiveEvent::Lifecycle {
                event: Event::Begin,
                source: 0,
                target: 0,
            },
        ),
        (2, LiveEvent::GroupCreated(2)),
    ] {
        assert_eq!(
            state
                .observe(&Batch {
                    epoch,
                    sequence,
                    events: vec![event],
                    witness: Witness::default()
                })
                .status,
            Status::Comparing
        );
    }
    let mut e = configured(epoch);
    let mut c = compute(&e);
    c.history_bytes = bytes;
    assert_eq!(state.observe_native(&e, &c, staging).compared_sequence, 3);
    some(state.native_group(epoch, 2)).charge
}
/// Retain the history of another owner until `total` bytes are retained.
fn ballast(state: &mut LiveState, total: usize) {
    let mut probe = LiveState::new(Limits::default());
    let charge = fill(&mut probe, 0, 0);
    let bytes = total - state.native_retained_bytes() - probe.native_retained_bytes();
    let staging = (charge + bytes).saturating_sub(STAGE_OVERHEAD);
    assert_eq!(fill(state, bytes, staging), charge + bytes);
    assert_eq!(state.native_retained_bytes(), total);
}
fn scope<'a>(e: &Evaluation, span: u64, sessions: &'a [u64]) -> Scope<'a> {
    Scope {
        epoch: e.epoch,
        group: e.group,
        sequence: e.sequence,
        span,
        sessions,
        frame_bytes: 4096,
    }
}
fn reserve(e: &Evaluation, sequence: u64) -> Batch {
    batch(
        e.epoch,
        sequence,
        vec![
            life(Event::Open(10)),
            life(Event::Reserve {
                session: 10,
                operation: 1,
                account: 9,
            }),
        ],
        Witness {
            accounts: vec![account(1, false)],
            session: 10,
            ..Witness::default()
        },
    )
}
fn created(e: &Evaluation, sequence: u64) -> Batch {
    batch(
        e.epoch,
        sequence,
        vec![life(Event::Created {
            session: 10,
            operation: 1,
            success: true,
        })],
        Witness {
            accounts: vec![account(1, true)],
            session: 10,
            after: ConnectionState {
                present: true,
                physical: 9,
                score_owner: 9,
                ..ConnectionState::default()
            },
            ..Witness::default()
        },
    )
}
fn later(e: &Evaluation) -> Evaluation {
    let mut next = e.clone();
    next.sequence += 4;
    next.evaluation += 1;
    next.accounts[0].score_count = 1;
    next.accounts[0].physical = 1;
    next.accounts[0].parts[1] = 1;
    next.accounts[0].packed = 1;
    next
}

#[test]
fn final_caller_failure_rolls_back_all_successful_children() {
    for good in [false, true] {
        let (mut state, e) = setup(Limits::default());
        let before = some(state.view(e.epoch));
        let retained = state.native_retained_bytes();
        let next = later(&e);
        let mut transaction = must(state.begin_caller(scope(&e, 6, &[10])));
        must(transaction.evaluation(&e, &compute(&e)));
        must(transaction.batch(&reserve(&e, 6)));
        must(transaction.batch(&created(&e, 8)));
        must(transaction.evaluation(&next, &compute(&next)));
        assert_eq!(transaction.staged.totals(e.epoch), Some((1, 1)));
        let mut consumed = some(transaction.staged.native_group(e.epoch, 2)).state.duplicate();
        assert!(
            consumed.apply(&e, &compute(&e)).is_err(),
            "fixture must advance factor history twice"
        );
        let progress = transaction.finish(if good {
            Ok(())
        } else {
            Err(InvalidReason::Witness)
        });
        let after = some(state.view(e.epoch));
        if good {
            assert_eq!(progress.status, Status::Comparing);
            assert_eq!(
                progress.compared_sequence, 10,
                "CALLER_STAGE_COMMIT_FINAL_PREFIX"
            );
            assert_eq!(
                state.totals(e.epoch),
                Some((1, 1)),
                "CALLER_STAGE_COMMIT_CHILDREN"
            );
            let mut consumed = some(state.native_group(e.epoch, 2)).state.duplicate();
            assert!(
                consumed.apply(&e, &compute(&e)).is_err(),
                "CALLER_STAGE_COMMIT_FACTOR_HISTORY"
            );
        } else {
            assert_eq!(
                (progress.status, progress.compared_sequence),
                (Status::Invalid(InvalidReason::Witness), 4),
                "CALLER_STAGE_ROLLBACK_ALL_CHILDREN"
            );
            assert_eq!(
                after.accounts, before.accounts,
                "CALLER_STAGE_ROLLBACK_ALL_CHILDREN"
            );
            assert_eq!(
                state.native_retained_bytes(),
                retained,
                "CALLER_STAGE_ROLLBACK_ALL_CHILDREN"
            );
            let mut ledger = some(state.ledger(e.epoch)).fork_caller(2, &[10]);
            assert!(
                ledger.apply(Event::Open(10)).is_ok(),
                "CALLER_STAGE_ROLLBACK_ALL_CHILDREN"
            );
            let mut history = some(state.native_group(e.epoch, 2)).state.duplicate();
            assert!(history.apply(&e, &compute(&e)).is_ok(), "CALLER_STAGE_ROLLBACK_ALL_CHILDREN");
            assert!(history.apply(&next, &compute(&next)).is_ok(), "CALLER_STAGE_ROLLBACK_ALL_CHILDREN");
        }
    }
}

#[test]
fn late_child_failure_and_dropped_stage_preserve_original_history() {
    for fault in 0..3 {
        let (mut state, e) = setup(Limits::default());
        let before = some(state.view(e.epoch)).accounts;
        let mut transaction = must(state.begin_caller(scope(&e, 6, &[10])));
        must(transaction.evaluation(&e, &compute(&e)));
        must(transaction.batch(&reserve(&e, 6)));
        if fault == 0 {
            let mut bad = created(&e, 8);
            bad.witness.accounts[0].score = 999;
            assert_eq!(transaction.batch(&bad), Err(InvalidReason::Witness));
            assert_eq!(
                transaction.batch(&created(&e, 8)),
                Err(InvalidReason::Witness),
                "CALLER_STAGE_CHILD_FAILURE_STICKY"
            );
        } else if fault == 1 {
            must(transaction.batch(&created(&e, 8)));
            let mut bad = later(&e);
            bad.accounts[0].packed = 999;
            assert_eq!(
                transaction.evaluation(&bad, &compute(&bad)).err(),
                Some(InvalidReason::Witness)
            );
        }
        if fault == 2 {
            drop(transaction);
        } else {
            assert_eq!(
                transaction.finish(Ok(())).status,
                Status::Invalid(InvalidReason::Witness),
                "CALLER_STAGE_FAILURE_NOT_REPAIRED_BY_FINISH"
            );
        }
        assert_eq!(
            some(state.view(e.epoch)).accounts,
            before,
            "CALLER_STAGE_FAILED_CHILD_ROLLBACK"
        );
        assert_eq!(state.progress(e.epoch).compared_sequence, 4);
        let mut history = some(state.native_group(e.epoch, 2)).state.duplicate();
        assert!(history.apply(&e, &compute(&e)).is_ok(), "CALLER_STAGE_FAILED_CHILD_FACTOR_ROLLBACK");
    }
}

fn add_omitted(state: &mut LiveState, e: &Evaluation) {
    let extra = AccountWitness {
        id: 19,
        score: 0,
        physical: 0,
        head: 0,
        tail: 0,
    };
    for (sequence, event, witness) in [
        (5, LiveEvent::GroupCreated(6), Witness::default()),
        (
            6,
            life(Event::Account { id: 19, group: 6 }),
            Witness {
                accounts: vec![extra],
                ..Witness::default()
            },
        ),
        (
            7,
            life(Event::Open(90)),
            Witness {
                session: 90,
                ..Witness::default()
            },
        ),
        (
            8,
            LiveEvent::SelectionDone(90),
            Witness {
                session: 90,
                ..Witness::default()
            },
        ),
    ] {
        assert_eq!(
            state
                .observe(&batch(e.epoch, sequence, vec![event], witness))
                .status,
            Status::Comparing
        );
    }
}
#[test]
fn partial_fork_keeps_original_population_and_session_tombstones() {
    for event in [
        Event::Open(10),
        Event::Rehydrate {
            session: 10,
            account: 9,
        },
    ] {
        let (mut state, mut e) = setup(Limits {
            sessions: 1,
            accounts: 2,
            ..Limits::default()
        });
        add_omitted(&mut state, &e);
        e.sequence = 9;
        let witness = if matches!(event, Event::Rehydrate { .. }) {
            Witness {
                session: 10,
                accounts: vec![account(1, true)],
                after: ConnectionState {
                    present: true,
                    physical: 9,
                    score_owner: 9,
                    ..ConnectionState::default()
                },
                ..Witness::default()
            }
        } else {
            Witness {
                session: 10,
                ..Witness::default()
            }
        };
        let mut transaction = must(state.begin_caller(scope(&e, 2, &[10])));
        assert_eq!(
            transaction.batch(&batch(e.epoch, 9, vec![life(event)], witness)),
            Err(InvalidReason::Capacity),
            "CALLER_STAGE_POPULATION_ORIGINAL_TOTALS"
        );
        assert_eq!(transaction.finish(Ok(())).compared_sequence, 8);
    }
    // At equality a new session succeeds; its append must retain the original
    // per-account vector bound, even though most session identities are omitted.
    let (mut state, mut e) = setup(Limits {
        sessions: 2,
        accounts: 2,
        ..Limits::default()
    });
    add_omitted(&mut state, &e);
    e.sequence = 9;
    let before = some(state.view(e.epoch)).accounts;
    let mut transaction = must(state.begin_caller(scope(&e, 4, &[10])));
    must(transaction.batch(&reserve(&e, 9)));
    must(transaction.batch(&created(&e, 11)));
    assert_eq!(
        transaction.finish(Ok(())).status,
        Status::Comparing,
        "CALLER_STAGE_POPULATION_EQUAL"
    );
    let after = some(state.view(e.epoch)).accounts;
    assert_eq!(
        before[1], after[1],
        "CALLER_STAGE_OMITTED_ACCOUNT_PRESERVED"
    );
    e.sequence = 13;
    let mut transaction = must(state.begin_caller(scope(&e, 2, &[90])));
    assert_eq!(
        transaction.batch(&batch(
            e.epoch,
            13,
            vec![life(Event::Open(90))],
            Witness::default()
        )),
        Err(InvalidReason::Identity),
        "CALLER_STAGE_TOMBSTONE_NOT_NEW"
    );
    drop(transaction);
}

#[test]
fn parent_budget_counts_both_factor_copies_at_exact_limit() {
    for extra in [0, 1] {
        let (mut state, e) = setup(Limits::default());
        let mut request = scope(&e, 2, &[]);
        request.frame_bytes = MAX_CALLER_FRAME;
        let ledger = must(some(state.ledger(e.epoch)).caller_clone_charge(2, &[]));
        let factor = some(state.native_group(e.epoch, 2)).charge;
        ballast(
            &mut state,
            HISTORY_LIMIT
                - DECODE_MULTIPLIER * MAX_CALLER_FRAME
                - ledger
                - 2 * factor
                - STAGE_OVERHEAD
                + extra,
        );
        let before = state.native_retained_bytes();
        let mut transaction = must(state.begin_caller(request));
        if extra == 0 {
            must(transaction.evaluation(&e, &compute(&e)));
            assert_eq!(
                transaction.finish(Ok(())).status,
                Status::Comparing,
                "CALLER_STAGE_BUDGET_EQUAL"
            );
            let budget = some(state.caller_peak_budget());
            assert_eq!(
                budget.peak, HISTORY_LIMIT,
                "CALLER_STAGE_NESTED_CLONE_CHARGED"
            );
            assert_eq!(budget.clones, ledger + 2 * factor);
            assert_eq!(
                budget.decode + budget.retained + budget.clones + budget.fixed,
                budget.peak
            );
        } else {
            assert_eq!(
                transaction.evaluation(&e, &compute(&e)).err(),
                Some(InvalidReason::Capacity),
                "CALLER_STAGE_BUDGET_PLUS_ONE"
            );
            assert_eq!(transaction.finish(Ok(())).compared_sequence, 4);
            assert_eq!(state.native_retained_bytes(), before);
        }
    }
    assert!(Budget::new(MAX_CALLER_FRAME, 0, 0).is_ok());
    for frame in [0, 4, MAX_CALLER_FRAME + 1, usize::MAX] {
        assert_eq!(
            Budget::new(frame, 0, 0),
            Err(InvalidReason::Capacity),
            "CALLER_STAGE_PREFIX_INCLUSIVE_BOUND"
        );
    }
    assert_eq!(Budget::new(5, usize::MAX, 1), Err(InvalidReason::Capacity));
}

#[test]
fn scope_identity_sequence_population_and_escaping_events_fail_closed() {
    for fault in 0..7 {
        let (mut state, e) = setup(Limits::default());
        let many = [1; 65];
        let mut s = scope(&e, 1, &[]);
        let expected = match fault {
            0 => {
                s.sequence += 1;
                InvalidReason::Sequence
            }
            1 => {
                s.span = 0;
                InvalidReason::Sequence
            }
            2 => {
                s.span = 262;
                InvalidReason::Sequence
            }
            3 => {
                s.group = 99;
                InvalidReason::Identity
            }
            4 => {
                s.sessions = &[0];
                InvalidReason::Identity
            }
            5 => {
                s.sessions = &[1, 1];
                InvalidReason::Identity
            }
            _ => {
                s.sessions = &many;
                InvalidReason::Capacity
            }
        };
        assert!(
            matches!(state.begin_caller(s), Err(reason) if reason == expected),
            "CALLER_STAGE_SCOPE_REJECTED"
        );
        assert_eq!(state.progress(e.epoch).compared_sequence, 4);
    }
    let (mut state, e) = setup(Limits::default());
    let transaction = must(state.begin_caller(scope(&e, 2, &[])));
    assert_eq!(
        transaction.finish(Ok(())).status,
        Status::Invalid(InvalidReason::Sequence),
        "CALLER_STAGE_MISSING_CHILD_SPAN"
    );
    for fault in 0..3 {
        let (mut state, e) = setup(Limits::default());
        let mut transaction = must(state.begin_caller(scope(&e, 2, &[])));
        let event = match fault {
            0 => life(Event::Open(10)),
            1 => life(Event::Account { id: 19, group: 2 }),
            _ => LiveEvent::GroupCreated(99),
        };
        assert!(
            transaction
                .batch(&batch(e.epoch, 5, vec![event], Witness::default()))
                .is_err(),
            "CALLER_STAGE_ESCAPING_EVENT"
        );
    }
}

#[test]
fn router_only_stage_does_not_create_group_or_native_state() {
    let (mut state, e) = setup(Limits::default());
    let group = some(state.native_group(e.epoch, 2)).charge;
    let accounts = some(state.view(e.epoch)).accounts;
    let retained = state.native_retained_bytes();
    let mut s = scope(&e, 1, &[]);
    s.group = 0;
    let transaction = must(state.begin_caller(s));
    assert_eq!(transaction.finish(Ok(())).compared_sequence, 5);
    assert_eq!(some(state.native_group(e.epoch, 2)).charge, group);
    assert_eq!(some(state.view(e.epoch)).accounts, accounts);
    assert_eq!(state.native_retained_bytes(), retained);
    assert!(
        state.native_group(e.epoch, 0).is_none(),
        "CALLER_STAGE_NO_FAKE_GROUP"
    );
}

#[test]
fn complete_child_cross_product_has_one_final_sequence_and_strict_limits() {
    for fault in 0..3 {
        let (mut state, mut e) = setup(Limits::default());
        let mut transaction = must(state.begin_caller(scope(&e, 261, &[])));
        for _ in 0..4 {
            must(transaction.evaluation(&e, &compute(&e)));
            e.sequence += 1;
            e.evaluation += 1;
        }
        if fault == 1 {
            assert_eq!(
                transaction.evaluation(&e, &compute(&e)).err(),
                Some(InvalidReason::Capacity),
                "CALLER_STAGE_NATIVE_CHILD_PLUS_ONE"
            );
            assert_eq!(transaction.finish(Ok(())).compared_sequence, 4);
            continue;
        }
        for _ in 0..64 {
            must(transaction.batch(&batch(
                e.epoch,
                e.sequence,
                vec![life(Event::Watermark); 4],
                Witness::default(),
            )));
            e.sequence += 4;
        }
        if fault == 2 {
            assert_eq!(
                transaction.batch(&batch(
                    e.epoch,
                    e.sequence,
                    vec![life(Event::Watermark)],
                    Witness::default()
                )),
                Err(InvalidReason::Capacity),
                "CALLER_STAGE_LIFECYCLE_CHILD_PLUS_ONE"
            );
            assert_eq!(transaction.finish(Ok(())).compared_sequence, 4);
        } else {
            let progress = transaction.finish(Ok(()));
            assert_eq!(
                (progress.status, progress.compared_sequence),
                (Status::Comparing, 265),
                "CALLER_STAGE_FULL_SPAN_261"
            );
        }
    }
}

#[test]
fn omitted_live_sessions_still_allow_append_to_original_physical_list_limit() {
    let (mut state, mut e) = setup(Limits {
        sessions: 3,
        accounts: 2,
        ..Limits::default()
    });
    add_omitted(&mut state, &e);
    assert_eq!(state.observe(&reserve(&e, 9)).status, Status::Comparing);
    assert_eq!(state.observe(&created(&e, 11)).status, Status::Comparing);
    e.sequence = 12;
    let mut transaction = must(state.begin_caller(scope(&e, 2, &[11])));
    must(transaction.batch(&batch(
        e.epoch,
        12,
        vec![life(Event::Rehydrate {
            session: 11,
            account: 9,
        })],
        Witness {
            accounts: vec![AccountWitness {
                id: 9,
                score: 2,
                physical: 2,
                head: 10,
                tail: 11,
            }],
            session: 11,
            predecessor: 10,
            after: ConnectionState {
                present: true,
                physical: 9,
                score_owner: 9,
                ..ConnectionState::default()
            },
            ..Witness::default()
        },
    )));
    assert_eq!(
        transaction.finish(Ok(())).status,
        Status::Comparing,
        "CALLER_STAGE_PHYSICAL_ORIGINAL_LIMIT"
    );
    assert_eq!(
        some(state.ledger(e.epoch)).connection(10).physical,
        9,
        "CALLER_STAGE_OMITTED_LIVE_SESSION_PRESERVED"
    );
    assert_eq!(
        some(state.view(e.epoch)).accounts[0].physical_order,
        [10, 11]
    );
}

#[test]
fn affected_account_population_is_bounded_before_any_clone() {
    for extra in [0, 1] {
        let (mut state, mut e) = setup(Limits::default());
        for id in 100..163 + extra {
            let progress = state.observe(&batch(
                e.epoch,
                e.sequence,
                vec![life(Event::Account { id, group: 2 })],
                Witness {
                    accounts: vec![AccountWitness {
                        id,
                        ..AccountWitness::default()
                    }],
                    ..Witness::default()
                },
            ));
            assert_eq!(progress.status, Status::Comparing);
            e.sequence += 1;
        }
        let result = state.begin_caller(scope(&e, 1, &[]));
        if extra == 0 {
            assert_eq!(
                must(result).finish(Ok(())).status,
                Status::Comparing,
                "CALLER_STAGE_ACCOUNTS_EQUAL"
            );
        } else {
            assert!(
                matches!(result, Err(InvalidReason::Capacity)),
                "CALLER_STAGE_ACCOUNTS_PLUS_ONE"
            );
        }
    }
}
