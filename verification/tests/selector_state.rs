//! Selector histories staged with their owner interval.
use control_router::go_time::GoTime;
use control_router::shadow::live::caller::selection::{
    Binding, Boundary, BoundaryEvent, DerivedResult, ErrorClass, StoredSelection,
};
use control_router::shadow::live::caller::Scope;
use control_router::shadow::live::native::{HISTORY_LIMIT, STAGE_OVERHEAD};
use control_router::shadow::live::{
    AccountWitness, Batch, LiveEvent, LiveState, Witness,
};
use control_router::shadow::native::{
    Account, ClockSite, Configuration, Coverage, Entry, Evaluation, Factor, FactorWidth, GoArch,
    Origin, Read,
};
use control_router::shadow::native_compute::{Computation, Row};
use control_router::shadow::{Epoch, Event, InvalidReason, Limits, Status};

fn connection_factors() -> Vec<FactorWidth> {
    vec![
        FactorWidth {
            factor: Factor::Status,
            bits: 1,
        },
        FactorWidth {
            factor: Factor::Connection,
            bits: 16,
        },
    ]
}
/// Status and connection scoring of the fixtures: a healthy backend scores its
/// connection count.
fn compute(e: &Evaluation) -> Computation {
    Computation {
        order: connection_factors(),
        windows: vec![Vec::new(), Vec::new()],
        used: vec![0; e.accounts.len()],
        rows: e
            .accounts
            .iter()
            .map(|account| {
                let status = u64::from(!account.healthy);
                let count = u64::try_from(account.score_count).unwrap_or(0);
                Row {
                    score: status << 16 | count,
                    parts: vec![status, count],
                    routeable: account.healthy,
                }
            })
            .collect(),
        advice: Vec::new(),
        asked: Vec::new(),
        pair: None,
        preferred: Vec::new(),
        ticket: 0,
        history_bytes: 0,
    }
}
fn must<T, E: std::fmt::Debug>(result: Result<T, E>) -> T {
    result.unwrap_or_else(|error| unreachable!("fixture: {error:?}"))
}
fn some<T>(value: Option<T>) -> T {
    value.unwrap_or_else(|| unreachable!("fixture"))
}
fn life(event: Event) -> LiveEvent {
    LiveEvent::Lifecycle {
        event,
        source: 0,
        target: 0,
    }
}
fn batch(epoch: Epoch, sequence: u64, events: Vec<LiveEvent>, witness: Witness) -> Batch {
    Batch {
        epoch,
        sequence,
        events,
        witness,
    }
}
fn account(score: i64, physical: bool) -> AccountWitness {
    AccountWitness {
        id: 9,
        score,
        physical: u64::from(physical),
        head: if physical { 10 } else { 0 },
        tail: if physical { 10 } else { 0 },
    }
}
/// The first configuration of a group.
fn configured(epoch: Epoch) -> Evaluation {
    Evaluation {
        epoch,
        sequence: 3,
        group: 2,
        policy: 3,
        config: 4,
        resource: 0,
        evaluation: 1,
        entry: Entry::Config,
        configuration: Configuration {
            balance: "connection".into(),
            routing: "idlest".into(),
            label: String::new(),
            self_label: String::new(),
            rates: [0; 6],
            count_ratio: 1.2_f64.to_bits(),
        },
        factors: connection_factors(),
        accounts: Vec::new(),
        reads: Vec::new(),
        sorted: Vec::new(),
        advice: Vec::new(),
        returned: Vec::new(),
        from: -1,
        to: -1,
        balance_count: 0,
        reason: None,
    }
}
fn setup(limits: Limits) -> (LiveState, Evaluation) {
    let epoch = Epoch {
        process: 41,
        owner: 1,
        nonce: 43,
    };
    let zero = some(GoTime::new(0, 0, 1, None));
    let mut state = LiveState::new(limits);
    must(state.install_native(Coverage {
        epoch,
        origin: Origin { synthetic: false, baseline: 0 },
        zero_time: zero,
        go_arch: GoArch::Arm64,
    }));
    for (sequence, event) in [(1, life(Event::Begin)), (2, LiveEvent::GroupCreated(2))] {
        assert_eq!(
            state
                .observe(&batch(epoch, sequence, vec![event], Witness::default()))
                .status,
            Status::Comparing
        );
    }
    let mut e = configured(epoch);
    assert_eq!(state.observe_native(&e, &compute(&e), 4096).compared_sequence, 3);
    assert_eq!(
        state
            .observe(&batch(
                epoch,
                4,
                vec![life(Event::Account { id: 9, group: 2 })],
                Witness {
                    accounts: vec![account(0, false)],
                    ..Witness::default()
                }
            ))
            .status,
        Status::Comparing
    );
    e.sequence = 5;
    e.evaluation = 2;
    e.entry = Entry::Routeable;
    e.accounts.push(Account {
        account: 9,
        seen: 31,
        id: "backend".into(),
        addr: "backend:4000".into(),
        keyspace: String::new(),
        ip: String::new(),
        cluster: String::new(),
        label: String::new(),
        label_present: false,
        status_port: 0,
        physical: 0,
        score_count: 0,
        healthy: true,
        local: false,
        parts: vec![0, 0],
        packed: 0,
        routeable: true,
        routeability_seen: true,
    });
    e.sorted = vec![0];
    e.returned = vec![0];
    for site in [ClockSite::MetricCadence, ClockSite::StatusSnapshot] {
        e.reads.push(Read::Clock {
            site,
            ordinal: 0,
            time: zero,
        });
    }
    (state, e)
}
/// Retain the history of another owner, of `bytes` in its window, and give the
/// charge of its group.
fn fill(state: &mut LiveState, bytes: usize, staging: usize) -> usize {
    let epoch = Epoch {
        process: 41,
        owner: 7,
        nonce: 43,
    };
    let coverage = Coverage {
        epoch,
        origin: Origin { synthetic: false, baseline: 0 },
        zero_time: some(GoTime::new(0, 0, 1, None)),
        go_arch: GoArch::Arm64,
    };
    assert_eq!(state.install_native(coverage), Ok(()));
    for (sequence, event) in [
        (
            1,
            LiveEvent::Lifecycle {
                event: Event::Begin,
                source: 0,
                target: 0,
            },
        ),
        (2, LiveEvent::GroupCreated(2)),
    ] {
        assert_eq!(
            state
                .observe(&Batch {
                    epoch,
                    sequence,
                    events: vec![event],
                    witness: Witness::default()
                })
                .status,
            Status::Comparing
        );
    }
    let mut e = configured(epoch);
    let mut c = compute(&e);
    c.history_bytes = bytes;
    assert_eq!(state.observe_native(&e, &c, staging).compared_sequence, 3);
    some(state.native_group(epoch, 2)).charge
}
/// Retain the history of another owner until `total` bytes are retained.
fn ballast(state: &mut LiveState, total: usize) {
    let mut probe = LiveState::new(Limits::default());
    let charge = fill(&mut probe, 0, 0);
    let bytes = total - state.native_retained_bytes() - probe.native_retained_bytes();
    let staging = (charge + bytes).saturating_sub(STAGE_OVERHEAD);
    assert_eq!(fill(state, bytes, staging), charge + bytes);
    assert_eq!(state.native_retained_bytes(), total);
}
fn begin(epoch: Epoch, sequence: u64) -> Boundary {
    Boundary {
        epoch,
        sequence,
        session: 10,
        event: BoundaryEvent::Begin {
            next: 1,
            current: 0,
            excluded: vec![],
        },
    }
}

#[test]
fn selector_retained_charge_and_late_failure_are_atomic() {
    let (mut state, e) = setup(Limits::default());
    let before = state.native_retained_bytes();
    assert_eq!(
        state
            .observe_selector_boundary(&begin(e.epoch, 5), 128)
            .status,
        Status::Comparing
    );
    assert_eq!(
        state.native_retained_bytes() - before,
        StoredSelection::charge(),
        "SELECTOR_STATE_RETAINED_CHARGE"
    );
    assert!(!state.selectors_settled(e.epoch));
    let retained = state.native_retained_bytes();
    let mut transaction = state
        .begin_caller(Scope {
            epoch: e.epoch,
            group: 2,
            sequence: 6,
            span: 1,
            sessions: &[10],
            frame_bytes: 128,
        })
        .unwrap_or_else(|e| unreachable!("stage {e:?}"));
    let derived = DerivedResult {
        backend: 9,
        error: ErrorClass::Success,
        binding: Some(Binding {
            account: 9,
            group: 2,
            operation: 20,
        }),
    };
    assert!(transaction.selector_attempt(10, 1, 1, &[], derived).is_ok());
    assert_eq!(
        transaction
            .finish(Err(InvalidReason::Witness))
            .compared_sequence,
        5,
        "SELECTOR_STATE_LATE_ROLLBACK"
    );
    assert_eq!(state.native_retained_bytes(), retained);
    // Original open Next still has no attempt. A successful private update
    // must not escape simply because the failure occurred after it.
    let mut stored = some(state.selector(e.epoch, 10)).duplicate();
    assert!(
        stored.tracker.attempt(1, 1, &[], derived).is_ok(),
        "SELECTOR_STATE_PRIVATE_ATTEMPT"
    );
}

#[test]
fn selector_admission_counts_new_and_cloned_history_at_equality() {
    for extra in [0, 1] {
        let (mut state, e) = setup(Limits::default());
        let ledger = some(state.ledger(e.epoch))
            .caller_clone_charge(0, &[10])
            .unwrap_or_else(|e| unreachable!("ledger {e:?}"));
        ballast(
            &mut state,
            HISTORY_LIMIT - 32 * 128 - ledger - StoredSelection::charge() - STAGE_OVERHEAD + extra,
        );
        let before = state.native_retained_bytes();
        let progress = state.observe_selector_boundary(&begin(e.epoch, 5), 128);
        if extra == 0 {
            assert_eq!(
                progress.status,
                Status::Comparing,
                "SELECTOR_STATE_BUDGET_EQUAL"
            );
            let budget = state
                .caller_peak_budget()
                .unwrap_or_else(|| unreachable!("budget"));
            assert_eq!(budget.peak, HISTORY_LIMIT);
            assert_eq!(budget.clones, ledger + StoredSelection::charge());
        } else {
            assert_eq!(
                progress.status,
                Status::Invalid(InvalidReason::Capacity),
                "SELECTOR_STATE_BUDGET_PLUS_ONE"
            );
            assert_eq!(progress.compared_sequence, 4);
            assert!(state.selector(e.epoch, 10).is_none());
            assert_eq!(state.native_retained_bytes(), before);
        }
    }
}

#[test]
fn closed_empty_selector_is_retained_and_cannot_reopen() {
    let (mut state, e) = setup(Limits::default());
    let close = Boundary {
        epoch: e.epoch,
        sequence: 5,
        session: 10,
        event: BoundaryEvent::Close {
            next: 0,
            current: 0,
            excluded: vec![],
        },
    };
    assert_eq!(
        state.observe_selector_boundary(&close, 128).status,
        Status::Comparing
    );
    assert!(state.selectors_settled(e.epoch));
    assert_eq!(
        state
            .observe_selector_boundary(&begin(e.epoch, 6), 128)
            .status,
        Status::Invalid(InvalidReason::Lifecycle),
        "SELECTOR_STATE_CLOSED_REUSE"
    );
}

#[test]
fn a_recorded_budget_is_one_sum_and_is_never_lowered() {
    let (mut state, e) = setup(Limits::default());
    let budget = |state: &LiveState| {
        state
            .caller_peak_budget()
            .unwrap_or_else(|| unreachable!("budget"))
    };
    assert!(state.caller_peak_budget().is_none());
    assert_eq!(
        state
            .observe_selector_boundary(&begin(e.epoch, 5), 4096)
            .status,
        Status::Comparing
    );
    let first = budget(&state);
    assert_eq!((first.frame, first.decode), (4096, 32 * 4096));
    assert_eq!(first.fixed, STAGE_OVERHEAD);
    assert_eq!(
        first.peak,
        first.decode + first.retained + first.clones + first.fixed
    );
    assert!(first.peak <= HISTORY_LIMIT);
    assert!(first.peak <= state.native_peak_bytes());
    let close = |sequence: u64, session: u64| Boundary {
        epoch: e.epoch,
        sequence,
        session,
        event: BoundaryEvent::Close {
            next: 0,
            current: 0,
            excluded: vec![],
        },
    };
    assert_eq!(
        state.observe_selector_boundary(&close(6, 11), 128).status,
        Status::Comparing
    );
    assert_eq!(budget(&state), first, "a lower sum replaces nothing");
    assert_eq!(
        state.observe_selector_boundary(&close(7, 12), 8192).status,
        Status::Comparing
    );
    assert!(budget(&state).peak > first.peak);
    assert_eq!(budget(&state).frame, 8192);
    assert!(budget(&state).peak <= state.native_peak_bytes());
}
