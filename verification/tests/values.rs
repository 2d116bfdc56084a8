//! Values that factors read, and how an evaluation is judged.
use control_router::go_time::GoTime;
use control_router::shadow::native::{
    is_zero_bits, Account, Advice, ClockSite, Configuration, Coverage, Entry, Evaluation, Factor,
    FactorWidth, Failure, GoArch, Origin, Provenance, QueryRead, Read, Sample, Series, Shape,
};
use control_router::shadow::native_compute::{
    early, is_ranked, is_supplied, judge, ticket_micros, Computation, ComputedAdvice, Demand,
    FactorState, Row,
};
use control_router::shadow::native_values::{
    Values, USES_ADDRESS, USES_HEALTH, USES_ID, USES_INFO, USES_PHYSICAL, USES_SCORE,
};
use control_router::shadow::Epoch;

fn time(seconds: i64, nanos: u32) -> GoTime {
    GoTime::new(seconds, nanos, 1, None).unwrap_or_else(|| unreachable!("fixture"))
}
fn connection_factors() -> Vec<FactorWidth> {
    vec![
        FactorWidth {
            factor: Factor::Status,
            bits: 1,
        },
        FactorWidth {
            factor: Factor::Connection,
            bits: 16,
        },
    ]
}
/// Status and connection scoring of the fixtures: a healthy backend scores its
/// connection count.
fn compute(e: &Evaluation) -> Computation {
    Computation {
        order: connection_factors(),
        windows: vec![Vec::new(), Vec::new()],
        used: vec![0; e.accounts.len()],
        rows: e
            .accounts
            .iter()
            .map(|account| {
                let status = u64::from(!account.healthy);
                let count = u64::try_from(account.score_count).unwrap_or(0);
                Row {
                    score: status << 16 | count,
                    parts: vec![status, count],
                    routeable: account.healthy,
                }
            })
            .collect(),
        advice: Vec::new(),
        asked: Vec::new(),
        pair: None,
        preferred: Vec::new(),
        ticket: 0,
        history_bytes: 0,
    }
}
fn backend(id: u64, count: i64) -> Account {
    Account {
        account: id,
        seen: 31,
        id: format!("backend-{id}"),
        addr: format!("backend-{id}:4000"),
        keyspace: String::new(),
        ip: "10.0.0.1".into(),
        cluster: String::new(),
        label: String::new(),
        label_present: false,
        status_port: 10080,
        physical: count,
        score_count: count,
        healthy: true,
        local: false,
        parts: vec![0, u64::try_from(count).unwrap_or(0)],
        packed: u64::try_from(count).unwrap_or(0),
        routeable: true,
        routeability_seen: true,
    }
}
fn epoch() -> Epoch {
    Epoch {
        process: 41,
        owner: 1,
        nonce: 43,
    }
}
/// The first configuration of a group.
fn configured(epoch: Epoch) -> Evaluation {
    Evaluation {
        epoch,
        sequence: 3,
        group: 2,
        policy: 3,
        config: 4,
        resource: 0,
        evaluation: 1,
        entry: Entry::Config,
        configuration: Configuration {
            balance: "connection".into(),
            routing: "idlest".into(),
            label: String::new(),
            self_label: String::new(),
            rates: [0; 6],
            count_ratio: 1.2_f64.to_bits(),
        },
        factors: connection_factors(),
        accounts: Vec::new(),
        reads: Vec::new(),
        sorted: Vec::new(),
        advice: Vec::new(),
        returned: Vec::new(),
        from: -1,
        to: -1,
        balance_count: 0,
        reason: None,
    }
}
/// A route among three backends under a routing policy.
fn route(routing: &str) -> Evaluation {
    let mut e = configured(epoch());
    e.evaluation = 2;
    e.entry = Entry::Route;
    e.configuration.routing = routing.into();
    e.accounts = vec![backend(1, 2), backend(2, 0), backend(3, 1)];
    e.sorted = vec![1, 2, 0];
    for site in [ClockSite::MetricCadence, ClockSite::StatusSnapshot] {
        e.reads.push(Read::Clock {
            site,
            ordinal: 0,
            time: time(0, 0),
        });
    }
    e
}
fn query(shape: Shape, series: Vec<Series>) -> QueryRead {
    QueryRead {
        query: 0,
        time: time(0, 0),
        provenance: Provenance {
            cluster: 1,
            generation: 1,
            source: 1,
            producer: 1,
            registration: 1,
            publication: 1,
            read_registration: 1,
        },
        shape,
        typed_nil: false,
        empty: false,
        series,
    }
}

#[test]
fn clusters_are_trimmed_and_default_when_empty() {
    for (name, expected) in [
        ("", "default"),
        (" \t\u{2003}", "default"),
        ("  main \n", "main"),
        ("main", "main"),
        ("two words", "two words"),
    ] {
        let mut account = backend(1, 0);
        account.cluster = name.into();
        let mut values = Values::new(&account);
        assert_eq!(values.cluster(), expected);
        assert_eq!(values.used, USES_INFO);
    }
}

#[test]
fn instances_follow_the_status_host_or_an_operators_peer_address() {
    for (addr, ip, port, expected) in [
        ("backend:4000", "10.0.0.1", 10080, "10.0.0.1:10080"),
        ("backend:4000", "fd00::1", 0, "[fd00::1]:0"),
        ("backend:4000", "", u64::MAX, ":-1"),
        (
            "tc-tidb-0.tc-tidb-peer.ns.svc:4000",
            "10.0.0.1",
            10080,
            "tc-tidb-0",
        ),
        ("tc-tidb-0.tc-peer.ns:4000", "h", 1, "h:1"),
    ] {
        let mut account = backend(1, 0);
        account.addr = addr.into();
        account.ip = ip.into();
        account.status_port = port;
        let mut values = Values::new(&account);
        assert_eq!(values.instance(), expected);
    }
}

#[test]
fn getters_record_their_use() {
    let mut account = backend(1, 4);
    account.label = "red".into();
    account.label_present = true;
    let mut values = Values::new(&account);
    assert!(values.label_matches(&String::new()));
    assert_eq!(values.used, 0, "an empty label reads nothing");
    assert_eq!(values.key(), "backend-1");
    assert!(values.healthy());
    assert_eq!(values.score_count(), 4);
    values.touch_address();
    assert_eq!(values.used, USES_ID | USES_HEALTH | USES_SCORE | USES_ADDRESS);
    assert!(values.complete());
    assert!(values.label_matches(&"red".into()));
    assert!(!values.label_matches(&"blue".into()));
    assert!(!values.complete(), "backend info was not captured");
    assert_eq!(values.physical(), 4);
    assert!(!values.local());
}

#[test]
fn samples_are_those_of_the_first_matching_series() {
    let sample = |milliseconds: i64| Sample {
        milliseconds,
        bits: 0,
    };
    let series = |instance: Option<&str>, cluster: Option<&str>, at: i64| Series {
        instance: instance.map(Into::into),
        cluster: cluster.map(Into::into),
        samples: vec![sample(at)],
    };
    let read = query(
        Shape::Matrix,
        vec![
            series(None, None, 1),
            series(Some("10.0.0.1:10080"), Some("other"), 2),
            series(Some("10.0.0.1:10080"), None, 3),
            series(Some("10.0.0.1:10080"), Some("default"), 4),
        ],
    );
    let account = backend(1, 0);
    let mut values = Values::new(&account);
    assert_eq!(read.samples(&mut values, true), &[sample(3)]);
    assert_eq!(values.used, USES_ADDRESS | USES_INFO);
    let mut values = Values::new(&account);
    assert!(read.samples(&mut values, false).is_empty());
    assert_eq!(values.used, 0, "another kind is not looked into");
    let mut nil = read.clone();
    nil.typed_nil = true;
    assert!(nil.samples(&mut values, true).is_empty());
    let away = query(Shape::Vector, vec![series(Some("10.0.0.2:10080"), None, 5)]);
    assert!(away.samples(&mut values, false).is_empty());
    assert!(query(Shape::Nil, vec![]).is_empty());
    assert!(!read.is_empty());
}

#[test]
fn ranks_reads_and_tickets_are_exact() {
    let row = |score: u64| Row {
        score,
        parts: vec![score],
        routeable: true,
    };
    let rows = vec![row(5), row(3), row(5)];
    assert!(is_ranked(&vec![1, 0, 2], &rows));
    assert!(!is_ranked(&vec![0, 1, 2], &rows), "order");
    assert!(!is_ranked(&vec![1, 0], &rows), "length");
    assert!(!is_ranked(&vec![1, 0, 0], &rows), "repeated");
    assert!(!is_ranked(&vec![1, 0, 3], &rows), "range");
    let clock = |site: ClockSite, ordinal: u16| Read::Clock {
        site,
        ordinal,
        time: time(0, 0),
    };
    let demands = vec![
        Demand::Clock(ClockSite::MetricCadence),
        Demand::Clock(ClockSite::MetricCadence),
    ];
    let reads = vec![
        clock(ClockSite::MetricCadence, 0),
        clock(ClockSite::MetricCadence, 1),
    ];
    assert!(is_supplied(&reads, &demands));
    assert!(!is_supplied(&reads[..1].to_vec(), &demands));
    assert!(!is_supplied(
        &vec![
            clock(ClockSite::MetricCadence, 0),
            clock(ClockSite::MetricCadence, 0)
        ],
        &demands
    ));
    assert_eq!(ticket_micros(time(62_135_596_801, 2_500)), Ok(1_000_002));
    assert_eq!(ticket_micros(time(0, 0)), Err(Failure::Values));
    assert!(is_zero_bits(0.0_f64.to_bits()) && is_zero_bits((-0.0_f64).to_bits()));
    assert!(!is_zero_bits(1.0_f64.to_bits()));
}

#[test]
fn routes_return_the_idlest_the_drawn_or_the_preferred_backend() {
    let mut idlest = route("idlest");
    idlest.returned = vec![1];
    for (account, seen) in idlest.accounts.iter_mut().zip([false, true, false]) {
        account.routeability_seen = seen;
        account.routeable = seen;
    }
    let c = compute(&idlest);
    assert_eq!(judge(&idlest, &c, false), None);
    let mut wrong = idlest.clone();
    wrong.returned = vec![2];
    assert_eq!(judge(&wrong, &c, false), Some(Failure::Output));

    let mut random = route("random");
    random.returned = vec![2];
    random.reads.push(Read::Clock {
        site: ClockSite::RandomTicket,
        ordinal: 0,
        time: time(62_135_596_800, 1_000),
    });
    let mut c = compute(&random);
    c.ticket = 1;
    assert_eq!(judge(&random, &c, false), None);
    let mut undrawn = random.clone();
    undrawn.reads.pop();
    assert_eq!(judge(&undrawn, &c, false), Some(Failure::Reads));
    c.ticket = 3;
    assert_eq!(judge(&random, &c, false), Some(Failure::Values));

    let mut unpublished = idlest.clone();
    for account in &mut unpublished.accounts {
        account.seen &= !USES_ADDRESS;
    }
    unpublished.entry = Entry::Routeable;
    unpublished.returned = unpublished.sorted.clone();
    for account in &mut unpublished.accounts {
        account.routeability_seen = true;
        account.routeable = true;
    }
    let c = compute(&unpublished);
    assert_eq!(judge(&unpublished, &c, false), None);
    assert_eq!(
        judge(&unpublished, &c, true),
        Some(Failure::Reads),
        "publishing scores takes the address"
    );

    let mut hidden = idlest.clone();
    hidden.accounts[0].seen &= !USES_SCORE;
    assert_eq!(judge(&hidden, &compute(&hidden), false), Some(Failure::Reads));
    let mut scored = idlest.clone();
    scored.accounts[0].packed = 7;
    let mut c = compute(&scored);
    assert_eq!(judge(&scored, &c, false), Some(Failure::Output));
    c.rows.pop();
    assert_eq!(judge(&scored, &c, false), Some(Failure::Values));
}

#[test]
fn histories_extend_only_in_their_lifetime() {
    let coverage = Coverage {
        epoch: epoch(),
        origin: Origin { synthetic: false, baseline: 0 },
        zero_time: time(0, 0),
        go_arch: GoArch::Amd64,
    };
    let first = configured(epoch());
    assert!(early(&first));
    let mut state = FactorState::new(coverage);
    let mut close = first.clone();
    close.entry = Entry::Close;
    assert_eq!(
        state.apply(&close, &compute(&close)).err(),
        Some(Failure::Lifetime),
        "a history begins with a configuration"
    );
    assert!(state.apply(&first, &compute(&first)).is_ok());
    assert_eq!(
        state.apply(&first, &compute(&first)).err(),
        Some(Failure::Lifetime),
        "an evaluation is applied once"
    );
    let mut replaced = first.clone();
    replaced.evaluation = 2;
    assert_eq!(
        state.apply(&replaced, &compute(&replaced)).err(),
        Some(Failure::Lifetime),
        "a configuration is newer than the last"
    );
    replaced.config = 5;
    let mut unknown = replaced.clone();
    unknown.configuration.routing = "nearest".into();
    assert!(state.apply(&unknown, &compute(&unknown)).is_err());
    let mut c = compute(&replaced);
    c.history_bytes = 640;
    let before = state.retained_bytes();
    let decision = state.apply(&replaced, &c);
    assert!(decision.is_ok_and(|d| d.returned().is_empty() && d.balance_rate().is_none()));
    assert_eq!(state.retained_bytes() - before, 640);
    let routeable = |evaluation: u64, seconds: i64, seen: u16| {
        let mut e = route("idlest");
        e.evaluation = evaluation;
        e.config = 5;
        e.entry = Entry::Routeable;
        e.returned = e.sorted.clone();
        for account in &mut e.accounts {
            account.seen = seen;
        }
        e.reads[0] = Read::Clock {
            site: ClockSite::MetricCadence,
            ordinal: 0,
            time: time(seconds, 0),
        };
        e
    };
    let quiet = routeable(3, 10, 31 & !USES_ADDRESS);
    assert!(state.apply(&quiet, &compute(&quiet)).is_ok(), "ten seconds");
    let due = routeable(4, 11, 31 & !USES_ADDRESS);
    assert_eq!(
        state.apply(&due, &compute(&due)).err(),
        Some(Failure::Reads),
        "more than ten seconds publish the scores"
    );
    let published = routeable(4, 11, 31);
    assert!(state.apply(&published, &compute(&published)).is_ok());
    let again = routeable(5, 21, 31 & !USES_ADDRESS);
    assert!(state.apply(&again, &compute(&again)).is_ok());
    close.evaluation = 6;
    close.config = 5;
    assert!(state.apply(&close, &compute(&close)).is_ok());
    let mut late = close.clone();
    late.evaluation = 7;
    assert_eq!(
        state.apply(&late, &compute(&late)).err(),
        Some(Failure::Lifetime),
        "nothing follows a close"
    );
}

#[test]
fn every_white_space_character_is_trimmed_and_no_other() {
    let spaces = [
        '\u{9}', '\u{a}', '\u{b}', '\u{c}', '\u{d}', '\u{20}', '\u{85}', '\u{a0}', '\u{1680}',
        '\u{2000}', '\u{2001}', '\u{2002}', '\u{2003}', '\u{2004}', '\u{2005}', '\u{2006}',
        '\u{2007}', '\u{2008}', '\u{2009}', '\u{200a}', '\u{2028}', '\u{2029}', '\u{202f}',
        '\u{205f}', '\u{3000}',
    ];
    let mut account = backend(1, 0);
    for value in '\0'..=char::MAX {
        account.cluster = value.to_string();
        let mut values = Values::new(&account);
        if spaces.contains(&value) {
            assert_eq!(values.cluster(), "default", "{value:?}");
        } else {
            assert_eq!(values.cluster(), account.cluster, "{value:?}");
        }
    }
}

/// A balance that scores by status alone and was captured with its identity and
/// health.
fn balanced(factor: Factor) -> (Evaluation, Computation) {
    let mut e = route("idlest");
    e.entry = Entry::Balance;
    for account in &mut e.accounts {
        account.seen = USES_ID | USES_HEALTH;
        account.routeability_seen = account.account == 2;
        account.routeable = account.account == 2;
    }
    e.advice = vec![Advice {
        factor,
        from: 2,
        to: 1,
        advice: 0,
        count: 0,
    }];
    let mut c = compute(&e);
    c.order.truncate(1);
    c.windows.truncate(1);
    c.advice = vec![ComputedAdvice {
        position: 1,
        factor,
        advice: 0,
        rate_matches: true,
    }];
    (e, c)
}

#[test]
fn advice_uses_the_getters_of_its_factor() {
    for (factor, source, target) in [
        (Factor::Status, 0, 0),
        (Factor::Health, 0, 0),
        (Factor::Label, USES_INFO, 0),
        (Factor::Cpu, USES_SCORE, USES_SCORE),
        (Factor::Connection, USES_SCORE, USES_SCORE),
    ] {
        let (mut e, c) = balanced(factor);
        let bare = judge(&e, &c, false);
        if source == 0 {
            assert_eq!(bare, None);
        } else {
            assert_eq!(bare, Some(Failure::Reads), "{factor:?}");
        }
        e.accounts[2].seen |= source;
        let half = judge(&e, &c, false);
        assert_eq!(half.is_none(), target == 0, "{factor:?}");
        e.accounts[1].seen |= target;
        assert_eq!(judge(&e, &c, false), None, "{factor:?}");
    }
}

#[test]
fn the_search_for_a_pair_uses_the_counts_of_what_it_looked_at() {
    let (mut e, mut c) = balanced(Factor::Status);
    c.asked = vec![2];
    assert_eq!(judge(&e, &c, false), Some(Failure::Reads));
    e.accounts[0].seen |= USES_PHYSICAL;
    assert_eq!(judge(&e, &c, false), Some(Failure::Reads), "score count");
    e.accounts[0].seen |= USES_SCORE;
    assert_eq!(judge(&e, &c, false), None);
    c.asked = vec![2, 0];
    assert_eq!(judge(&e, &c, false), Some(Failure::Reads));
    e.accounts[1].seen |= USES_PHYSICAL;
    assert_eq!(judge(&e, &c, false), None, "an idle backend has no score read");
    c.asked = vec![3];
    assert_eq!(judge(&e, &c, false), Some(Failure::Values), "range");
}
