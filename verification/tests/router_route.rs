//! Router attempts compared with retained metadata and the selector.
use control_router::go_time::GoTime;
use control_router::shadow::live::caller::metadata::{
    Assign, Begin, Boundary as MetadataBoundary, End, Event as Metadata, Input, Refresh, Rule,
};
use control_router::shadow::live::caller::route::{
    Child, Envelope as GroupEnvelope, Read as RouteRead, ResultValue, Route,
};
use control_router::shadow::live::caller::router_route::{Envelope, MatchRead, Path, Prefix};
use control_router::shadow::live::caller::selection::{
    Binding, Boundary, BoundaryEvent, DerivedResult, ErrorClass,
};
use control_router::shadow::live::{AccountWitness, Batch, LiveEvent, LiveState, Witness};
use control_router::shadow::native::{
    Account, ClockSite, Configuration, Coverage, Entry, Evaluation, Factor, FactorWidth, GoArch,
    Origin, Read,
};
use control_router::shadow::native_compute::{Computation, Row};
use control_router::shadow::{Epoch, Event, InvalidReason, Limits, Status};

fn connection_factors() -> Vec<FactorWidth> {
    vec![
        FactorWidth {
            factor: Factor::Status,
            bits: 1,
        },
        FactorWidth {
            factor: Factor::Connection,
            bits: 16,
        },
    ]
}
/// Status and connection scoring of the fixtures: a healthy backend scores its
/// connection count.
fn compute(e: &Evaluation) -> Computation {
    Computation {
        order: connection_factors(),
        windows: vec![Vec::new(), Vec::new()],
        used: vec![0; e.accounts.len()],
        rows: e
            .accounts
            .iter()
            .map(|account| {
                let status = u64::from(!account.healthy);
                let count = u64::try_from(account.score_count).unwrap_or(0);
                Row {
                    score: status << 16 | count,
                    parts: vec![status, count],
                    routeable: account.healthy,
                }
            })
            .collect(),
        advice: Vec::new(),
        asked: Vec::new(),
        pair: None,
        preferred: Vec::new(),
        ticket: 0,
        history_bytes: 0,
    }
}
fn must<T, E: std::fmt::Debug>(result: Result<T, E>) -> T {
    result.unwrap_or_else(|error| unreachable!("fixture: {error:?}"))
}
fn some<T>(value: Option<T>) -> T {
    value.unwrap_or_else(|| unreachable!("fixture"))
}
fn life(event: Event) -> LiveEvent {
    LiveEvent::Lifecycle {
        event,
        source: 0,
        target: 0,
    }
}
fn batch(epoch: Epoch, sequence: u64, events: Vec<LiveEvent>, witness: Witness) -> Batch {
    Batch {
        epoch,
        sequence,
        events,
        witness,
    }
}
fn account(score: i64, physical: bool) -> AccountWitness {
    AccountWitness {
        id: 9,
        score,
        physical: u64::from(physical),
        head: if physical { 10 } else { 0 },
        tail: if physical { 10 } else { 0 },
    }
}
/// The first configuration of a group.
fn configured(epoch: Epoch) -> Evaluation {
    Evaluation {
        epoch,
        sequence: 3,
        group: 2,
        policy: 3,
        config: 4,
        resource: 0,
        evaluation: 1,
        entry: Entry::Config,
        configuration: Configuration {
            balance: "connection".into(),
            routing: "idlest".into(),
            label: String::new(),
            self_label: String::new(),
            rates: [0; 6],
            count_ratio: 1.2_f64.to_bits(),
        },
        factors: connection_factors(),
        accounts: Vec::new(),
        reads: Vec::new(),
        sorted: Vec::new(),
        advice: Vec::new(),
        returned: Vec::new(),
        from: -1,
        to: -1,
        balance_count: 0,
        reason: None,
    }
}
/// A router with one group of one backend, after its first refresh, and a
/// selector that has begun its first call.
fn refreshed() -> LiveState {
    let epoch = Epoch {
        process: 41,
        owner: 1,
        nonce: 43,
    };
    let mut state = LiveState::new(Limits::default());
    must(state.install_native(Coverage {
        epoch,
        origin: Origin { synthetic: false, baseline: 0 },
        zero_time: some(GoTime::new(0, 0, 1, None)),
        go_arch: GoArch::Arm64,
    }));
    let tell = |state: &mut LiveState, sequence: u64, event: Metadata| {
        let boundary = MetadataBoundary {
            epoch,
            sequence,
            event,
        };
        assert_eq!(
            state.observe_router_metadata(&boundary, true, 4096).status,
            Status::Comparing
        );
    };
    let begun = state.observe(&batch(epoch, 1, vec![life(Event::Begin)], Witness::default()));
    assert_eq!(begun.status, Status::Comparing);
    tell(
        &mut state,
        2,
        Metadata::Begin(Begin {
            generation: 1,
            observer_error: ErrorClass::Success,
            rule: Rule::All,
            inputs: vec![Input {
                account: 9,
                healthy: true,
                support_redirection: true,
                present: true,
            }],
        }),
    );
    let created = batch(epoch, 3, vec![LiveEvent::GroupCreated(2)], Witness::default());
    assert_eq!(
        state.observe_router_metadata_batch(&created, 4096).status,
        Status::Comparing
    );
    let mut e = configured(epoch);
    e.sequence = 4;
    assert_eq!(
        state
            .observe_router_metadata_native(&e, &compute(&e), 4096)
            .status,
        Status::Comparing
    );
    let known = batch(
        epoch,
        5,
        vec![life(Event::Account { id: 9, group: 2 })],
        Witness {
            accounts: vec![account(0, false)],
            ..Witness::default()
        },
    );
    assert_eq!(
        state.observe_router_metadata_batch(&known, 4096).status,
        Status::Comparing
    );
    tell(
        &mut state,
        6,
        Metadata::Assign(Assign {
            generation: 1,
            index: 0,
            account: 9,
            group: 2,
            removed: false,
            created: true,
            values_read: false,
            values: Vec::new(),
        }),
    );
    tell(
        &mut state,
        7,
        Metadata::Refresh(Refresh {
            generation: 1,
            group: 2,
            values_read: false,
            members: Vec::new(),
            values: Vec::new(),
            parsed: true,
        }),
    );
    tell(
        &mut state,
        8,
        Metadata::End(End {
            generation: 1,
            support_redirection: true,
            groups: 1,
            created: 1,
            removed: 0,
            refresh_failed: 0,
            conflicts: 0,
        }),
    );
    let begin = Boundary {
        epoch,
        sequence: 9,
        session: 10,
        event: BoundaryEvent::Begin {
            next: 1,
            current: 0,
            excluded: vec![],
        },
    };
    assert_eq!(
        state.observe_selector_boundary(&begin, 4096).status,
        Status::Comparing
    );
    state
}
/// The attempt that routes the session to the backend.
fn attempt(epoch: Epoch) -> (Envelope, Computation) {
    let mut e = configured(epoch);
    e.sequence = 10;
    e.evaluation = 2;
    e.entry = Entry::Route;
    e.accounts.push(Account {
        account: 9,
        seen: 31,
        id: "backend".into(),
        addr: "backend:4000".into(),
        keyspace: String::new(),
        ip: String::new(),
        cluster: String::new(),
        label: String::new(),
        label_present: false,
        status_port: 0,
        physical: 0,
        score_count: 0,
        healthy: true,
        local: false,
        parts: vec![0, 0],
        packed: 0,
        routeable: true,
        routeability_seen: true,
    });
    e.sorted = vec![0];
    e.returned = vec![0];
    for site in [ClockSite::MetricCadence, ClockSite::StatusSnapshot] {
        e.reads.push(Read::Clock {
            site,
            ordinal: 0,
            time: some(GoTime::new(0, 0, 1, None)),
        });
    }
    let computation = compute(&e);
    let group = GroupEnvelope {
        epoch,
        sequence: 10,
        span: 4,
        route: Route {
            caller: 1,
            group: 2,
            session: 10,
            excluded_count: 0,
            members: vec![9],
            reads: vec![RouteRead::Healthy {
                completed: 0,
                account: 9,
                value: true,
            }],
            result: ResultValue {
                account: 9,
                operation: 1,
                completed: 2,
            },
        },
        children: vec![
            Child::Evaluation(Box::new(e)),
            Child::Batch(batch(
                epoch,
                11,
                vec![
                    life(Event::Open(10)),
                    life(Event::Reserve {
                        session: 10,
                        operation: 1,
                        account: 9,
                    }),
                ],
                Witness {
                    accounts: vec![account(1, false)],
                    session: 10,
                    ..Witness::default()
                },
            )),
        ],
    };
    let envelope = Envelope {
        epoch,
        sequence: 10,
        span: 4,
        prefix: Prefix {
            caller: 1,
            generation: 1,
            session: 10,
            next: 1,
            attempt: 1,
            rule: Rule::All,
            observer_error: ErrorClass::Success,
            groups: vec![2],
            excluded: vec![],
            port_visited: false,
            detector_present: false,
            listener: None,
            reads: vec![MatchRead {
                group: 2,
                address: None,
                matched: true,
            }],
            target: 2,
            backend: 9,
            error: ErrorClass::Success,
        },
        path: Path::Group(Box::new(group)),
    };
    (envelope, computation)
}
fn epoch() -> Epoch {
    Epoch {
        process: 41,
        owner: 1,
        nonce: 43,
    }
}

#[test]
fn a_router_attempt_commits_its_route_reservation_and_selector_together() {
    let mut state = refreshed();
    let (envelope, computation) = attempt(epoch());
    let (progress, derived) = state.observe_router_route(&envelope, &[], &computation, 4096);
    assert_eq!(
        (progress.status, progress.compared_sequence),
        (Status::Comparing, 13)
    );
    assert_eq!(
        derived,
        Some(DerivedResult {
            backend: 9,
            error: ErrorClass::Success,
            binding: Some(Binding {
                account: 9,
                group: 2,
                operation: 1,
            }),
        })
    );
    assert_eq!(state.totals(epoch()), Some((1, 0)));
    let mut selector = some(state.selector(epoch(), 10)).duplicate();
    assert_eq!(
        selector.tracker.end(1, 9, ErrorClass::Success, 9, &[9]),
        Ok(())
    );
}

#[test]
fn a_router_attempt_is_refused_as_a_whole() {
    for fault in 0..8 {
        let mut state = refreshed();
        let retained = state.native_retained_bytes();
        let (mut envelope, computation) = attempt(epoch());
        let expected = match fault {
            0 => {
                envelope.prefix.generation = 2;
                InvalidReason::Identity
            }
            1 => {
                envelope.prefix.rule = Rule::Port;
                InvalidReason::Witness
            }
            2 => {
                envelope.prefix.reads[0].matched = false;
                InvalidReason::Witness
            }
            3 => {
                envelope.prefix.reads[0].address = Some("10.0.0.1:1".into());
                InvalidReason::Witness
            }
            4 => {
                envelope.prefix.attempt = 2;
                InvalidReason::Sequence
            }
            5 => {
                envelope.prefix.attempt = 3;
                InvalidReason::Identity
            }
            6 => {
                envelope.prefix.groups = (1..=65).collect();
                InvalidReason::Capacity
            }
            _ => {
                envelope.prefix.groups = vec![2, 2];
                InvalidReason::Identity
            }
        };
        let (progress, derived) = state.observe_router_route(&envelope, &[], &computation, 4096);
        assert_eq!(
            (progress.status, progress.compared_sequence, derived),
            (Status::Invalid(expected), 9, None),
            "fault {fault}"
        );
        assert_eq!(state.totals(epoch()), Some((0, 0)));
        assert_eq!(state.native_retained_bytes(), retained);
    }
}

#[test]
fn a_rejected_attempt_needs_metadata_without_a_match() {
    let mut state = refreshed();
    let (mut envelope, computation) = attempt(epoch());
    envelope.span = 2;
    envelope.prefix.target = 0;
    envelope.prefix.backend = 0;
    envelope.prefix.error = ErrorClass::NoBackend;
    envelope.prefix.reads[0].matched = false;
    envelope.path = Path::Rejected(batch(
        epoch(),
        10,
        vec![LiveEvent::RouteRejected {
            session: 10,
            group: 0,
        }],
        Witness::default(),
    ));
    let (progress, derived) = state.observe_router_route(&envelope, &[], &computation, 4096);
    assert_eq!(
        (progress.status, derived),
        (Status::Invalid(InvalidReason::Witness), None),
        "every group of a router without a rule matches"
    );
}
