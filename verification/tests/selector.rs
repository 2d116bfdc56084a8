//! Decisions of the migration scheduler and its simulation queue.
use control_router::selector::balance::{
    balance_mask, prepare_balance, BalancePair, MetricUse, PreparedRedirect, Publication,
};
use control_router::selector::failover::{self, Failover};
use control_router::selector::preparation::{self, Preparation};
use control_router::selector::round::{Action, Answer, ClosePrepared, Round};
use control_router::selector::scheduler::{
    apply_failover, closes_after, keyspace_refusal, prepare_failover, timed_out_owners,
    FactorSource, FailoverClock, GroupMembers, OfferScan, RefusalParty,
};
use control_router::selector::worker::{
    is_transient, may_run, settled, start, woken, Wake, WorkerStep,
};
use control_router::selector::{can_route, ignore_failed, Member, RouteError};
use control_router::shadow::native::Factor;
use control_router::simulation::MigrationSimulation;

fn member(id: u64, healthy: bool, label_matches: bool, failed: bool) -> Member {
    Member {
        id,
        healthy,
        label_matches,
        failed,
    }
}
fn clock(id: u64, group: Option<u64>, since: Option<u64>) -> FailoverClock {
    FailoverClock {
        id,
        group,
        account: id + 100,
        since,
    }
}
fn pair() -> BalancePair {
    BalancePair {
        from: 1,
        to: 2,
        reason: Factor::Connection,
    }
}

#[test]
fn failures_are_ignored_only_where_every_routeable_backend_failed() {
    let all_failed = vec![member(1, true, true, true), member(2, false, true, false)];
    assert!(can_route(&all_failed));
    assert!(ignore_failed(&all_failed));
    assert_eq!(balance_mask(&all_failed), vec![true, false]);
    let one_left = vec![member(1, true, true, true), member(2, true, true, false)];
    assert!(!ignore_failed(&one_left));
    assert_eq!(balance_mask(&one_left), vec![false, true]);
    let unroutable = vec![member(1, true, false, true)];
    assert!(!can_route(&unroutable));
    assert!(!ignore_failed(&unroutable), "nothing to keep routing to");
    assert_eq!(balance_mask(&unroutable), vec![false]);
}

#[test]
fn masking_keeps_a_route_of_every_routeable_group() {
    for bits in 0..64_u8 {
        let members: Vec<Member> = (0..2_u8)
            .map(|i| {
                let part = bits >> (3 * i);
                member(u64::from(i), part & 1 != 0, part & 2 != 0, part & 4 != 0)
            })
            .collect();
        let mask = balance_mask(&members);
        let kept = members
            .iter()
            .zip(&mask)
            .any(|(member, healthy)| member.label_matches && *healthy);
        assert_eq!(can_route(&members), kept, "bits {bits:06b}");
    }
}

#[test]
fn failover_scores_observed_members_and_then_the_mask() {
    let groups = vec![
        GroupMembers {
            group: 7,
            members: vec![
                member(1, true, true, true),
                member(2, true, true, false),
                member(3, false, true, true),
            ],
        },
        GroupMembers {
            group: 8,
            members: vec![member(4, true, true, true)],
        },
        GroupMembers {
            group: 9,
            members: vec![member(5, false, true, true)],
        },
        GroupMembers {
            group: 10,
            members: vec![member(6, true, false, false)],
        },
    ];
    let update = prepare_failover(&groups, false, MetricUse::Current);
    assert_eq!(update.effective, vec![1, 3, 5]);
    let groups_scored: Vec<u64> = update.scorings.iter().map(|s| s.group).collect();
    assert_eq!(groups_scored, vec![7, 8, 10]);
    assert_eq!(update.scorings[0].observed, vec![1, 2]);
    assert_eq!(update.scorings[0].proposed, Some(vec![false, true]));
    assert_eq!(update.scorings[1].proposed, Some(vec![false]));
    assert_eq!(update.scorings[2].proposed, None);
    assert!(update
        .scorings
        .iter()
        .all(|s| s.source == FactorSource::Metrics));
    for (connection, metrics, source) in [
        (true, MetricUse::Current, FactorSource::Connection),
        (true, MetricUse::Absent, FactorSource::Connection),
        (false, MetricUse::Absent, FactorSource::Retained),
    ] {
        let update = prepare_failover(&groups, connection, metrics);
        assert_eq!(update.scorings[0].source, source);
    }
}

#[test]
fn failover_clocks_keep_their_start_and_time_out_at_equality() {
    let mut clocks = vec![
        clock(1, Some(7), None),
        clock(2, Some(7), Some(3)),
        clock(3, Some(8), Some(4)),
    ];
    apply_failover(&mut clocks, &vec![1, 2], 10);
    assert_eq!(
        clocks.iter().map(|c| c.since).collect::<Vec<_>>(),
        vec![Some(10), Some(3), None]
    );
    let kept = clocks.clone();
    apply_failover(&mut clocks, &vec![1, 2], 99);
    assert_eq!(clocks, kept, "the same failures restart no clock");
    let second = 1_000_000_000;
    assert_eq!(timed_out_owners(&clocks, 7, second + 9, 1), vec![102]);
    assert_eq!(timed_out_owners(&clocks, 7, second + 10, 1), vec![101, 102]);
    assert_eq!(timed_out_owners(&clocks, 7, 5, 0), vec![101, 102]);
    assert_eq!(timed_out_owners(&clocks, 8, u64::MAX, 0), Vec::<u64>::new());
    assert_eq!(
        timed_out_owners(&clocks, 7, u64::MAX, u64::MAX),
        Vec::<u64>::new()
    );
}

fn usable() -> Publication {
    Publication {
        present: true,
        own_source: true,
        readable: true,
    }
}
fn redirect(session: u64) -> PreparedRedirect {
    PreparedRedirect {
        session,
        source: 11,
        target: 12,
        target_id: 2,
    }
}

#[test]
fn a_prepared_balance_follows_the_physical_order() {
    let Ok(Some(plan)) = prepare_balance(Some(pair()), 11, Ok(12), &vec![5, 3, 4]) else {
        unreachable!("plan")
    };
    assert_eq!(plan.pair, pair());
    assert_eq!(plan.redirects, vec![redirect(5), redirect(3), redirect(4)]);
    assert!(matches!(
        prepare_balance(None, 11, Ok(12), &vec![5]),
        Ok(None)
    ));
    assert!(matches!(
        prepare_balance(Some(pair()), 11, Err(RouteError::NoBackend), &vec![5]),
        Err(RouteError::NoBackend)
    ));
}

/// Evaluate one group to the end with current metrics.
fn evaluated(account: Result<u64, RouteError>) -> Preparation {
    let mut evaluation = Preparation::new();
    evaluation.handle(preparation::Answer::Metrics(usable()));
    evaluation.handle(preparation::Answer::Current(true));
    evaluation.handle(preparation::Answer::Done(Ok(())));
    evaluation.handle(preparation::Answer::Members(vec![
        member(1, true, true, true),
        member(2, true, true, false),
    ]));
    assert_eq!(*evaluation.mask(), vec![false, true]);
    assert_eq!(
        evaluation.action(),
        preparation::Action::Evaluate(MetricUse::Current)
    );
    evaluation.handle(preparation::Answer::Chosen(Some(pair())));
    assert_eq!(
        evaluation.action(),
        preparation::Action::FindTarget(pair())
    );
    evaluation.handle(preparation::Answer::Target {
        source: 11,
        account,
        sessions: vec![5, 3],
    });
    assert_eq!(evaluation.action(), preparation::Action::Validate);
    evaluation.handle(preparation::Answer::Done(Ok(())));
    assert_eq!(evaluation.action(), preparation::Action::KeepFactors);
    evaluation.handle(preparation::Answer::Done(Ok(())));
    assert_eq!(
        evaluation.action(),
        preparation::Action::Finish(Ok(()))
    );
    evaluation
}

#[test]
fn an_evaluation_keeps_its_factors_whatever_the_target() {
    let found = evaluated(Ok(12));
    assert!(matches!(
        found.summary(),
        Answer::Prepared {
            outcome: Ok(Some(2)),
            paired: true
        }
    ));
    let Some(plan) = found.plan() else {
        unreachable!("plan")
    };
    assert_eq!(plan.redirects, vec![redirect(5), redirect(3)]);
    assert_eq!(found.pair(), Some(pair()));
    let refused = evaluated(Err(RouteError::CrossKeyspace));
    assert!(matches!(
        refused.summary(),
        Answer::Prepared {
            outcome: Err(RouteError::CrossKeyspace),
            paired: true
        }
    ));
    assert!(refused.plan().is_none());
}

#[test]
fn an_evaluation_without_a_pair_prepares_nothing() {
    let mut evaluation = Preparation::new();
    assert_eq!(evaluation.action(), preparation::Action::ReadMetrics);
    evaluation.handle(preparation::Answer::Current(true));
    assert_eq!(
        evaluation.action(),
        preparation::Action::ReadMetrics,
        "an answer that was not asked for changes nothing"
    );
    evaluation.handle(preparation::Answer::Metrics(usable()));
    assert_eq!(evaluation.action(), preparation::Action::EnterMetrics);
    evaluation.handle(preparation::Answer::Current(false));
    assert_eq!(evaluation.action(), preparation::Action::Validate);
    evaluation.handle(preparation::Answer::Done(Ok(())));
    assert_eq!(evaluation.action(), preparation::Action::ReadMembers);
    evaluation.handle(preparation::Answer::Members(vec![]));
    assert_eq!(
        evaluation.action(),
        preparation::Action::Evaluate(MetricUse::Absent)
    );
    evaluation.handle(preparation::Answer::Chosen(None));
    evaluation.handle(preparation::Answer::Done(Ok(())));
    evaluation.handle(preparation::Answer::Done(Ok(())));
    assert!(matches!(
        evaluation.summary(),
        Answer::Prepared {
            outcome: Ok(None),
            paired: false
        }
    ));
}

#[test]
fn an_evaluation_ends_with_a_failed_check() {
    let error = RouteError::StaleCandidate;
    let mut first = Preparation::new();
    first.handle(preparation::Answer::Metrics(Publication {
        own_source: false,
        ..usable()
    }));
    first.handle(preparation::Answer::Done(Err(error)));
    assert_eq!(first.action(), preparation::Action::Finish(Err(error)));
    let mut second = Preparation::new();
    second.handle(preparation::Answer::Metrics(usable()));
    second.handle(preparation::Answer::Current(true));
    second.handle(preparation::Answer::Done(Ok(())));
    second.handle(preparation::Answer::Members(vec![]));
    second.handle(preparation::Answer::Chosen(None));
    second.handle(preparation::Answer::Done(Err(error)));
    assert_eq!(second.action(), preparation::Action::Finish(Err(error)));
    assert!(matches!(
        second.summary(),
        Answer::Done(Err(RouteError::StaleCandidate))
    ));
}

#[test]
fn metrics_are_entered_only_where_they_are_the_candidates_own() {
    for bits in 0..8_u8 {
        let publication = Publication {
            present: bits & 1 != 0,
            own_source: bits & 2 != 0,
            readable: bits & 4 != 0,
        };
        assert_eq!(publication.is_usable(), bits == 7);
        let mut evaluation = Preparation::new();
        evaluation.handle(preparation::Answer::Metrics(publication));
        let expected = if bits == 7 {
            preparation::Action::EnterMetrics
        } else {
            preparation::Action::Validate
        };
        assert_eq!(evaluation.action(), expected);
    }
}

/// Take a refresh to the point where the clock was read.
fn timed(connection: bool) -> Failover {
    let mut refresh = Failover::new(connection);
    for action in [
        failover::Action::Validate,
        failover::Action::Refresh,
        failover::Action::Validate,
        failover::Action::ReadClock,
    ] {
        assert_eq!(refresh.action(), action);
        refresh.handle(failover::Answer::Done(Ok(())));
    }
    refresh
}

#[test]
fn a_refresh_applies_its_update_after_a_last_check() {
    for (connection, current, source) in [
        (true, false, FactorSource::Connection),
        (false, true, FactorSource::Metrics),
        (false, false, FactorSource::Retained),
    ] {
        let mut refresh = timed(connection);
        if !connection {
            assert_eq!(refresh.action(), failover::Action::ReadMetrics);
            refresh.handle(failover::Answer::Metrics(usable()));
            assert_eq!(refresh.action(), failover::Action::EnterMetrics);
            refresh.handle(failover::Answer::Current(current));
        }
        assert_eq!(refresh.action(), failover::Action::Validate);
        refresh.handle(failover::Answer::Done(Ok(())));
        assert_eq!(refresh.action(), failover::Action::ReadMembers);
        assert!(refresh.update().is_none());
        refresh.handle(failover::Answer::Members(vec![GroupMembers {
            group: 7,
            members: vec![member(1, true, true, true), member(2, true, true, false)],
        }]));
        assert_eq!(refresh.action(), failover::Action::Validate);
        refresh.handle(failover::Answer::Done(Ok(())));
        assert_eq!(refresh.action(), failover::Action::Apply);
        let Some(update) = refresh.update() else {
            unreachable!("update")
        };
        assert_eq!(update.effective, vec![1]);
        assert_eq!(update.scorings[0].source, source);
        refresh.handle(failover::Answer::Done(Ok(())));
        assert_eq!(refresh.action(), failover::Action::Finish(Ok(())));
    }
}

#[test]
fn a_refresh_ends_with_its_first_failure() {
    let error = RouteError::ControlUnavailable;
    for passed in 0..4 {
        let mut refresh = Failover::new(true);
        for _ in 0..passed {
            refresh.handle(failover::Answer::Done(Ok(())));
        }
        refresh.handle(failover::Answer::Done(Err(error)));
        assert_eq!(refresh.action(), failover::Action::Finish(Err(error)));
    }
    let mut refresh = timed(false);
    refresh.handle(failover::Answer::Metrics(Publication {
        readable: false,
        ..usable()
    }));
    assert_eq!(refresh.action(), failover::Action::Validate);
    refresh.handle(failover::Answer::Done(Err(error)));
    assert_eq!(refresh.action(), failover::Action::Finish(Err(error)));
    assert!(refresh.update().is_none());
}

#[test]
fn offers_count_only_what_was_accepted() {
    let mut scan = OfferScan::new(4, 1);
    assert_eq!(scan.offered(Ok(false)), Ok(false));
    for error in [
        RouteError::RedirectPending,
        RouteError::CoolingDown,
        RouteError::ForceClosing,
        RouteError::NotActive,
    ] {
        let mut passed = OfferScan::new(1, 1);
        assert_eq!(passed.offered(Err(error)), Ok(false));
        assert_eq!((passed.next, passed.accepted), (1, 0));
    }
    assert_eq!(
        scan.offered(Err(RouteError::StaleCandidate)),
        Err(RouteError::StaleCandidate)
    );
    assert_eq!((scan.next, scan.accepted), (1, 0));
    assert_eq!(scan.offered(Ok(true)), Ok(true));
    assert_eq!((scan.next, scan.accepted), (2, 1));
}

/// Take a round to its groups.
fn listed(enabled: bool, groups: Vec<u64>, supported: bool) -> Round {
    let mut round = Round::new(enabled);
    for action in [Action::Validate, Action::Refresh, Action::Validate] {
        assert_eq!(round.action(), action);
        round.handle(Answer::Done(Ok(())));
    }
    assert_eq!(round.action(), Action::ReadStop);
    round.handle(Answer::Stop(false));
    assert_eq!(round.action(), Action::ReadGroups);
    round.handle(Answer::Groups(groups, supported));
    round
}
fn prepared(outcome: Result<Option<usize>, RouteError>) -> Answer {
    Answer::Prepared {
        outcome,
        paired: true,
    }
}

#[test]
fn rounds_balance_before_closing_and_close_without_redirects() {
    let mut round = listed(true, vec![7, 8], true);
    for group in [7, 8] {
        assert_eq!(round.action(), Action::ReadStop);
        round.handle(Answer::Stop(false));
        assert_eq!(round.action(), Action::Prepare(group));
        round.handle(prepared(Ok(None)));
    }
    for group in [7, 8] {
        assert_eq!(round.action(), Action::ReadExpired(group));
        round.handle(Answer::Expired(vec![]));
    }
    assert_eq!(round.action(), Action::Finish(Ok(())));
    for (enabled, supported) in [(true, false), (false, true)] {
        let round = listed(enabled, vec![7], supported);
        assert_eq!(round.action(), Action::ReadExpired(7));
        let empty = listed(enabled, vec![], supported);
        assert_eq!(empty.action(), Action::Finish(Ok(())));
    }
}

#[test]
fn a_stopped_round_ends_without_an_error() {
    let mut round = Round::new(true);
    for _ in 0..3 {
        round.handle(Answer::Done(Ok(())));
    }
    round.handle(Answer::Stop(true));
    assert_eq!(round.action(), Action::Finish(Ok(())));
    let mut round = listed(true, vec![7], true);
    round.handle(Answer::Stop(true));
    assert_eq!(round.action(), Action::Finish(Ok(())));
    let mut round = listed(false, vec![7], true);
    round.handle(Answer::Expired(vec![5]));
    round.handle(Answer::Stop(true));
    assert_eq!(round.action(), Action::Finish(Ok(())));
    // Offers are only left: the signal before the next group ends the round.
    let mut round = listed(true, vec![7, 8], true);
    round.handle(Answer::Stop(false));
    round.handle(prepared(Ok(Some(3))));
    round.handle(Answer::Budget(2));
    round.handle(Answer::Stop(true));
    assert_eq!(round.action(), Action::ReadStop);
    round.handle(Answer::Stop(true));
    assert_eq!(round.action(), Action::Finish(Ok(())));
}

#[test]
fn offers_end_with_the_list_the_budget_or_a_stop() {
    let mut round = listed(true, vec![7], true);
    round.handle(Answer::Stop(false));
    round.handle(prepared(Ok(Some(4))));
    assert_eq!(round.action(), Action::ReadBudget(7));
    round.handle(Answer::Budget(1));
    round.handle(Answer::Stop(false));
    assert_eq!(round.action(), Action::Offer { group: 7, at: 0 });
    round.handle(Answer::Offered(Err(RouteError::CoolingDown)));
    round.handle(Answer::Stop(false));
    assert_eq!(round.action(), Action::Offer { group: 7, at: 1 });
    round.handle(Answer::Offered(Ok(true)));
    assert_eq!(round.action(), Action::NoteAccepted(7));
    round.handle(Answer::Done(Ok(())));
    assert_eq!(round.action(), Action::ReadStop);
    round.handle(Answer::Stop(false));
    assert_eq!(round.action(), Action::ReadExpired(7), "budget");
    for (total, budget) in [(0, 5), (3, 0)] {
        let mut round = listed(true, vec![7], true);
        round.handle(Answer::Stop(false));
        round.handle(prepared(Ok(Some(total))));
        round.handle(Answer::Budget(budget));
        round.handle(Answer::Stop(false));
        assert_eq!(round.action(), Action::ReadExpired(7));
    }
}

#[test]
fn rounds_end_with_refusals_that_are_not_a_sessions_or_pairs_own() {
    let error = RouteError::StaleCandidate;
    for passed in 0..3 {
        let mut round = Round::new(true);
        for _ in 0..passed {
            round.handle(Answer::Done(Ok(())));
        }
        round.handle(Answer::Done(Err(error)));
        assert_eq!(round.action(), Action::Finish(Err(error)));
    }
    for answer in [prepared(Err(error)), Answer::Done(Err(error))] {
        let mut round = listed(true, vec![7, 8], true);
        round.handle(Answer::Stop(false));
        round.handle(answer);
        assert_eq!(round.action(), Action::Finish(Err(error)));
    }
    let mut round = listed(true, vec![7, 8], true);
    round.handle(Answer::Stop(false));
    round.handle(prepared(Err(RouteError::CrossKeyspace)));
    assert_eq!(round.action(), Action::RecordRefusal(7));
    round.handle(Answer::Done(Ok(())));
    round.handle(Answer::Stop(false));
    assert_eq!(round.action(), Action::Prepare(8));
    round.handle(prepared(Ok(Some(1))));
    round.handle(Answer::Budget(1));
    round.handle(Answer::Stop(false));
    round.handle(Answer::Offered(Err(error)));
    assert_eq!(round.action(), Action::Finish(Err(error)));
    round.handle(Answer::Stop(false));
    assert_eq!(round.action(), Action::Finish(Err(error)), "final");
}

#[test]
fn closes_pass_busy_sessions_over_and_saturate() {
    let expired = || {
        let mut round = listed(false, vec![7, 8], true);
        round.handle(Answer::Expired(vec![5, 6]));
        round.handle(Answer::Stop(false));
        assert_eq!(round.action(), Action::PrepareClose(5));
        round
    };
    let mut round = expired();
    round.handle(Answer::Closable(ClosePrepared::Ready));
    assert_eq!(round.action(), Action::Validate);
    round.handle(Answer::Done(Ok(())));
    assert_eq!(
        round.action(),
        Action::SendClose {
            group: 7,
            session: 5
        }
    );
    round.handle(Answer::Offered(Ok(false)));
    round.handle(Answer::Stop(false));
    assert_eq!(round.action(), Action::PrepareClose(6));
    round.handle(Answer::Closable(ClosePrepared::Busy));
    assert_eq!(round.action(), Action::ReadExpired(8));
    let error = RouteError::Other(3);
    let mut round = expired();
    round.handle(Answer::Closable(ClosePrepared::Failed(error)));
    assert_eq!(round.action(), Action::Finish(Err(error)));
    let mut round = expired();
    round.handle(Answer::Closable(ClosePrepared::Ready));
    round.handle(Answer::Done(Err(error)));
    assert_eq!(round.action(), Action::Finish(Err(error)));
    let mut round = expired();
    round.handle(Answer::Closable(ClosePrepared::Ready));
    round.handle(Answer::Done(Ok(())));
    round.handle(Answer::Offered(Err(error)));
    assert_eq!(round.action(), Action::Finish(Err(error)));
    assert_eq!(closes_after(4, true), 5);
    assert_eq!(closes_after(4, false), 4);
    assert_eq!(closes_after(u64::MAX, true), u64::MAX);
}

#[test]
fn keyspace_refusals_name_both_parties() {
    let party = |id: u64, group: Option<u64>, keyspace: &str| RefusalParty {
        id,
        account: id + 100,
        group,
        keyspace: keyspace.into(),
    };
    let backends = vec![
        party(1, Some(7), "red"),
        party(2, None, "blue"),
        party(3, Some(8), "green"),
    ];
    let Some(record) = keyspace_refusal(&backends, 101, 2, Some(Factor::Status), 6) else {
        unreachable!("record")
    };
    assert_eq!((record.group, record.from, record.to), (7, 1, 2));
    assert_eq!(record.from_keyspace, "red");
    assert_eq!(record.to_keyspace, "blue");
    assert_eq!(record.reason, Some(Factor::Status));
    assert_eq!((record.physical_connections, record.refusals), (6, 0));
    assert!(keyspace_refusal(&backends, 102, 1, None, 6).is_none());
    assert!(keyspace_refusal(&backends, 199, 1, None, 6).is_none());
    assert!(keyspace_refusal(&backends, 101, 9, None, 6).is_none());
}

#[test]
fn one_worker_runs_until_it_is_stopped_or_its_sources_go() {
    assert_eq!(start(false), Ok(()));
    assert_eq!(start(true), Err(RouteError::WorkerRunning));
    assert!(may_run(false, true));
    assert!(!may_run(true, true) && !may_run(false, false));
    assert_eq!(woken(Wake::Tick, false, true), WorkerStep::Round);
    assert_eq!(
        woken(Wake::Source { gone: false }, false, true),
        WorkerStep::Refresh
    );
    assert_eq!(
        woken(Wake::Lifecycle { gone: false }, false, true),
        WorkerStep::Refresh
    );
    assert_eq!(woken(Wake::Stop, true, true), WorkerStep::Finish);
    assert_eq!(woken(Wake::Tick, false, false), WorkerStep::Finish);
    assert_eq!(
        woken(Wake::Lifecycle { gone: true }, false, true),
        WorkerStep::Finish
    );
    assert_eq!(
        woken(Wake::Source { gone: true }, false, true),
        WorkerStep::Fail(RouteError::ControlUnavailable)
    );
    for error in [RouteError::StaleCandidate, RouteError::ControlUnavailable] {
        assert!(is_transient(error));
        assert_eq!(settled(Err(error)), Ok(()));
    }
    assert_eq!(settled(Ok(())), Ok(()));
    assert_eq!(
        settled(Err(RouteError::NoBackend)),
        Err(RouteError::NoBackend)
    );
}

#[test]
fn simulated_offers_are_bounded_and_taken_in_order() {
    let mut simulation = MigrationSimulation::new(2);
    assert_eq!(
        simulation.offer(redirect(1), Err(RouteError::CoolingDown)),
        Err(RouteError::CoolingDown)
    );
    assert_eq!(simulation.take_redirect(), None);
    assert_eq!(simulation.offer(redirect(1), Ok(())), Ok(true));
    assert_eq!(simulation.offer(redirect(2), Ok(())), Ok(true));
    assert_eq!(simulation.offer(redirect(3), Ok(())), Ok(false));
    assert_eq!(simulation.take_redirect(), Some(redirect(1)));
    assert_eq!(simulation.take_redirect(), Some(redirect(2)));
    assert_eq!(simulation.take_redirect(), None);
    assert_eq!(
        MigrationSimulation::new(0).offer(redirect(1), Ok(())),
        Ok(false)
    );
}
