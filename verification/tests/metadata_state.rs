//! Router metadata retained with its owner interval.
use control_router::go_time::GoTime;
use control_router::shadow::live::caller::metadata::{
    Begin, Boundary, End, Event, Rule, StoredMetadata, Tracker,
};
use control_router::shadow::live::caller::selection::ErrorClass;
use control_router::shadow::live::caller::Scope;
use control_router::shadow::live::native::{HISTORY_LIMIT, STAGE_OVERHEAD};
use control_router::shadow::live::{Batch, LiveEvent, LiveState, Witness};
use control_router::shadow::native::{
    ClockSite, Configuration, Coverage, Entry, Evaluation, Factor, FactorWidth, GoArch, Origin,
};
use control_router::shadow::native_compute::{Computation, Row};
use control_router::shadow::{Epoch, Event as Life, InvalidReason, Limits, Status};

fn connection_factors() -> Vec<FactorWidth> {
    vec![
        FactorWidth {
            factor: Factor::Status,
            bits: 1,
        },
        FactorWidth {
            factor: Factor::Connection,
            bits: 16,
        },
    ]
}
/// Status and connection scoring of the fixtures: a healthy backend scores its
/// connection count.
fn compute(e: &Evaluation) -> Computation {
    Computation {
        order: connection_factors(),
        windows: vec![Vec::new(), Vec::new()],
        used: vec![0; e.accounts.len()],
        rows: e
            .accounts
            .iter()
            .map(|account| {
                let status = u64::from(!account.healthy);
                let count = u64::try_from(account.score_count).unwrap_or(0);
                Row {
                    score: status << 16 | count,
                    parts: vec![status, count],
                    routeable: account.healthy,
                }
            })
            .collect(),
        advice: Vec::new(),
        asked: Vec::new(),
        pair: None,
        preferred: Vec::new(),
        ticket: 0,
        history_bytes: 0,
    }
}
fn some<T>(value: Option<T>) -> T {
    value.unwrap_or_else(|| unreachable!("fixture"))
}
/// The first configuration of a group.
fn configured(epoch: Epoch) -> Evaluation {
    Evaluation {
        epoch,
        sequence: 3,
        group: 2,
        policy: 3,
        config: 4,
        resource: 0,
        evaluation: 1,
        entry: Entry::Config,
        configuration: Configuration {
            balance: "connection".into(),
            routing: "idlest".into(),
            label: String::new(),
            self_label: String::new(),
            rates: [0; 6],
            count_ratio: 1.2_f64.to_bits(),
        },
        factors: connection_factors(),
        accounts: Vec::new(),
        reads: Vec::new(),
        sorted: Vec::new(),
        advice: Vec::new(),
        returned: Vec::new(),
        from: -1,
        to: -1,
        balance_count: 0,
        reason: None,
    }
}
/// Retain the history of another owner, of `bytes` in its window, and give the
/// charge of its group.
fn fill(state: &mut LiveState, bytes: usize, staging: usize) -> usize {
    let epoch = Epoch {
        process: 41,
        owner: 7,
        nonce: 43,
    };
    let coverage = Coverage {
        epoch,
        origin: Origin { synthetic: false, baseline: 0 },
        zero_time: some(GoTime::new(0, 0, 1, None)),
        go_arch: GoArch::Arm64,
    };
    assert_eq!(state.install_native(coverage), Ok(()));
    for (sequence, event) in [
        (
            1,
            LiveEvent::Lifecycle {
                event: Life::Begin,
                source: 0,
                target: 0,
            },
        ),
        (2, LiveEvent::GroupCreated(2)),
    ] {
        assert_eq!(
            state
                .observe(&Batch {
                    epoch,
                    sequence,
                    events: vec![event],
                    witness: Witness::default()
                })
                .status,
            Status::Comparing
        );
    }
    let mut e = configured(epoch);
    let mut c = compute(&e);
    c.history_bytes = bytes;
    assert_eq!(state.observe_native(&e, &c, staging).compared_sequence, 3);
    some(state.native_group(epoch, 2)).charge
}
/// Retain the history of another owner until `total` bytes are retained.
fn ballast(state: &mut LiveState, total: usize) {
    let mut probe = LiveState::new(Limits::default());
    let charge = fill(&mut probe, 0, 0);
    let bytes = total - state.native_retained_bytes() - probe.native_retained_bytes();
    let staging = (charge + bytes).saturating_sub(STAGE_OVERHEAD);
    assert_eq!(fill(state, bytes, staging), charge + bytes);
    assert_eq!(state.native_retained_bytes(), total);
}
fn initial() -> (LiveState, Epoch) {
    let epoch = Epoch {
        process: 41,
        owner: 1,
        nonce: 43,
    };
    let mut state = LiveState::new(Limits::default());
    assert!(
        state
            .install_native(Coverage {
                epoch,
                origin: Origin { synthetic: false, baseline: 0 },
                zero_time: GoTime::new(0, 0, 1, None).unwrap_or_else(|| unreachable!("time")),
                go_arch: GoArch::Arm64,
            })
            .is_ok()
    );
    let batch = Batch {
        epoch,
        sequence: 1,
        events: vec![LiveEvent::Lifecycle {
            event: Life::Begin,
            source: 0,
            target: 0,
        }],
        witness: Witness::default(),
    };
    assert_eq!(state.observe(&batch).status, Status::Comparing);
    (state, epoch)
}

fn begin(epoch: Epoch) -> Boundary {
    Boundary {
        epoch,
        sequence: 2,
        event: Event::Begin(Begin {
            generation: 1,
            observer_error: ErrorClass::Success,
            rule: Rule::All,
            inputs: vec![],
        }),
    }
}

fn end(epoch: Epoch) -> Boundary {
    Boundary {
        epoch,
        sequence: 3,
        event: Event::End(End {
            generation: 1,
            support_redirection: true,
            groups: 0,
            created: 0,
            removed: 0,
            refresh_failed: 0,
            conflicts: 0,
        }),
    }
}

#[test]
fn metadata_retention_is_shared_and_late_rejection_keeps_generation() {
    let (mut state, epoch) = initial();
    let before = state.native_retained_bytes();
    assert_eq!(
        state.observe_router_metadata(&begin(epoch), true, 128).status,
        Status::Comparing
    );
    let retained = state.native_retained_bytes();
    assert!(retained > before, "METADATA_LIVE_SHARED_RETENTION");
    let fork = StoredMetadata::fork_charge(None);
    let empty = StoredMetadata::fork(None);
    assert!(fork >= empty.retained_charge());
    assert_eq!(
        retained - before,
        empty.retained_charge() - empty.tracker.retained_charge()
            + some(state.router_metadata(epoch)).retained_charge()
    );
    let boundary = end(epoch);
    let mut transaction = state
        .begin_caller(Scope {
            epoch,
            group: 0,
            sequence: 3,
            span: 1,
            sessions: &[],
            frame_bytes: 128,
        })
        .unwrap_or_else(|e| unreachable!("stage {e:?}"));
    assert!(transaction.compare_metadata(&boundary.event, true).is_ok());
    assert_eq!(
        transaction
            .metadata
            .as_ref()
            .map(|m| m.tracker.generation()),
        Some(1)
    );
    assert_eq!(
        transaction
            .finish(Err(InvalidReason::Witness))
            .compared_sequence,
        2,
        "METADATA_LIVE_LATE_PREFIX"
    );
    assert_eq!(
        state.router_metadata(epoch).map(Tracker::generation),
        Some(0),
        "METADATA_LIVE_LATE_STATE"
    );
    assert_eq!(
        state.native_retained_bytes(),
        retained,
        "METADATA_LIVE_LATE_CHARGE"
    );
}

#[test]
fn metadata_budget_equality_and_one_byte_overflow() {
    let (mut probe, epoch) = initial();
    let old = probe.native_retained_bytes();
    assert_eq!(
        probe.observe_router_metadata(&begin(epoch), true, 128).status,
        Status::Comparing
    );
    let needed = probe
        .caller_peak_budget()
        .unwrap_or_else(|| unreachable!("budget"))
        .peak
        - old;
    for extra in [0, 1] {
        let (mut state, epoch) = initial();
        ballast(&mut state, HISTORY_LIMIT - needed + extra);
        let before = state.native_retained_bytes();
        let progress = state.observe_router_metadata(&begin(epoch), true, 128);
        if extra == 0 {
            assert_eq!(
                progress.status,
                Status::Comparing,
                "METADATA_LIVE_BUDGET_EQUAL"
            );
            assert_eq!(
                state.caller_peak_budget().map(|b| b.peak),
                Some(HISTORY_LIMIT)
            );
        } else {
            assert_eq!(
                progress.status,
                Status::Invalid(InvalidReason::Capacity),
                "METADATA_LIVE_BUDGET_PLUS_ONE"
            );
            assert_eq!(progress.compared_sequence, 1);
            assert!(state.router_metadata(epoch).is_none());
            assert_eq!(state.native_retained_bytes(), before);
        }
    }
}

#[test]
fn metadata_group_event_rejects_late_lifecycle_witness_without_retaining_it() {
    let (mut state, epoch) = initial();
    assert_eq!(
        state.observe_router_metadata(&begin(epoch), true, 128).status,
        Status::Comparing
    );
    let retained = state.native_retained_bytes();
    let batch = Batch {
        epoch,
        sequence: 3,
        events: vec![LiveEvent::GroupCreated(7)],
        witness: Witness {
            session: 99,
            ..Witness::default()
        },
    };
    let progress = state.observe_router_metadata_batch(&batch, 128);
    assert_eq!(progress.status, Status::Invalid(InvalidReason::Witness));
    assert_eq!(progress.compared_sequence, 2);
    assert_eq!(state.native_retained_bytes(), retained);
    let mut tracker = some(state.router_metadata(epoch)).snapshot();
    assert!(
        tracker.native_init(7).is_err(),
        "METADATA_LIVE_NO_CREATED_ESCAPE"
    );
}

#[test]
fn metadata_prefix_commit_checks_retained_limit_before_publication() {
    for excess in [0, 1, usize::MAX] {
        let (mut state, epoch) = initial();
        let stored = StoredMetadata::fork(None);
        let charge = stored.retained_charge();
        ballast(
            &mut state,
            if excess == usize::MAX {
                HISTORY_LIMIT
            } else {
                HISTORY_LIMIT - charge + excess
            },
        );
        let before = state.native_retained_bytes();
        let result = state.commit_metadata_prefix(epoch, stored);
        if excess == 0 {
            assert_eq!(result, Ok(()));
            assert_eq!(state.native_retained_bytes(), HISTORY_LIMIT);
            assert!(state.router_metadata(epoch).is_some());
        } else {
            assert_eq!(result, Err(InvalidReason::Capacity));
            assert_eq!(state.native_retained_bytes(), before);
            assert!(state.router_metadata(epoch).is_none());
        }
        assert_eq!(state.progress(epoch).compared_sequence, 1);
    }
}
