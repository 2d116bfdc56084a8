//! One migration round under the router lock, as a machine: what it waits for
//! next, and what an answer makes of it. Whoever holds the lock performs each
//! action and hands its answer back.
use vstd::prelude::*;

use super::scheduler::OfferScan;
use super::RouteError;

verus! {

/// What a round waits for.
#[derive(Clone, Copy, Debug, PartialEq, Eq)]
pub enum Phase {
    /// The captured sources are checked before anything is read.
    Validating,
    /// The sources are taken over.
    Refreshing,
    /// The sources are checked again.
    Revalidating,
    /// The stop signal is read before the groups.
    Entering,
    /// The groups are read.
    Listing,
    /// The stop signal is read before this group is balanced.
    Visiting(usize),
    /// This group's migration is prepared.
    Preparing(usize),
    /// A refused pair of this group is recorded.
    Refusing(usize),
    /// The budget of a migration with so many redirects is read.
    Budgeting(usize, usize),
    /// The stop signal is read before the next offer of this group.
    Checking(usize, OfferScan),
    /// The next offer of this group is made.
    Offering(usize, OfferScan),
    /// An accepted offer of this group is noted.
    Accepting(usize, OfferScan),
    /// The sessions of the timed-out owners of this group are read.
    Expiring(usize),
    /// The stop signal is read before this group's session is closed.
    Sparing(usize, usize),
    /// The close of this group's session is prepared.
    Closing(usize, usize),
    /// The sources are checked before the close is sent.
    Confirming(usize, usize),
    /// The close is sent.
    Sending(usize, usize),
    /// The round is over.
    Over(Result<(), RouteError>),
}

/// What is to be done for a round.
#[derive(Clone, Copy, Debug, PartialEq, Eq)]
pub enum Action {
    /// Check that the captured sources are still current.
    Validate,
    /// Take the captured sources over.
    Refresh,
    /// Read the stop signal.
    ReadStop,
    /// Read the groups and whether every backend supports redirection.
    ReadGroups,
    /// Evaluate a group and prepare its migration.
    Prepare(u64),
    /// Record the refused pair of a group.
    RecordRefusal(u64),
    /// Read how many offers of a group may be accepted.
    ReadBudget(u64),
    /// Make one offer of a group's migration.
    Offer {
        /// Group.
        group: u64,
        /// Position among the prepared redirects.
        at: usize,
    },
    /// Note that an offer of a group was accepted.
    NoteAccepted(u64),
    /// Read the sessions of a group's timed-out owners.
    ReadExpired(u64),
    /// Prepare the close of a session.
    PrepareClose(u64),
    /// Send the close of a session.
    SendClose {
        /// Group.
        group: u64,
        /// Session.
        session: u64,
    },
    /// Publish what the round changed, and return.
    Finish(Result<(), RouteError>),
}

/// What preparing a close of a session gave.
#[derive(Clone, Copy, Debug, PartialEq, Eq, Structural)]
pub enum ClosePrepared {
    /// The close may be sent.
    Ready,
    /// The session is already closing, or its last close failed too recently.
    Busy,
    /// Anything else.
    Failed(RouteError),
}

/// The answer to an action.
#[derive(Debug)]
pub enum Answer {
    /// A check, a refresh, a record or a note; or why a group could not be
    /// evaluated.
    Done(Result<(), RouteError>),
    /// Whether the round was stopped.
    Stop(bool),
    /// The groups in order, and whether every backend supports redirection.
    Groups(Vec<u64>, bool),
    /// How many redirects were prepared, if a pair was found or refused.
    Prepared {
        /// Redirects of the migration, if there is one.
        outcome: Result<Option<usize>, RouteError>,
        /// The factors chose a pair.
        paired: bool,
    },
    /// Offers that may be accepted.
    Budget(usize),
    /// Whether an offer was accepted.
    Offered(Result<bool, RouteError>),
    /// Sessions of timed-out owners, in order.
    Expired(Vec<u64>),
    /// What preparing a close gave.
    Closable(ClosePrepared),
}

/// What [`Answer`] holds.
#[verifier::ext_equal]
pub enum AnswerModel {
    /// A check, a refresh, a record or a note; or why a group could not be
    /// evaluated.
    Done(Result<(), RouteError>),
    /// Whether the round was stopped.
    Stop(bool),
    /// The groups in order, and whether every backend supports redirection.
    Groups(Seq<u64>, bool),
    /// How many redirects were prepared.
    Prepared(Result<Option<usize>, RouteError>, bool),
    /// Offers that may be accepted.
    Budget(usize),
    /// Whether an offer was accepted.
    Offered(Result<bool, RouteError>),
    /// Sessions of timed-out owners, in order.
    Expired(Seq<u64>),
    /// What preparing a close gave.
    Closable(ClosePrepared),
}

impl View for Answer {
    type V = AnswerModel;

    open spec fn view(&self) -> AnswerModel {
        match *self {
            Answer::Done(result) => AnswerModel::Done(result),
            Answer::Stop(stopped) => AnswerModel::Stop(stopped),
            Answer::Groups(groups, supported) => AnswerModel::Groups(groups@, supported),
            Answer::Prepared { outcome, paired } => AnswerModel::Prepared(outcome, paired),
            Answer::Budget(budget) => AnswerModel::Budget(budget),
            Answer::Offered(outcome) => AnswerModel::Offered(outcome),
            Answer::Expired(sessions) => AnswerModel::Expired(sessions@),
            Answer::Closable(prepared) => AnswerModel::Closable(prepared),
        }
    }
}

/// A migration round.
pub struct Round {
    enabled: bool,
    redirects: bool,
    groups: Vec<u64>,
    sessions: Vec<u64>,
    phase: Phase,
}

/// What [`Round`] holds.
#[verifier::ext_equal]
pub struct RoundModel {
    /// Redirects are enabled.
    pub enabled: bool,
    /// Redirects are enabled and supported.
    pub redirects: bool,
    /// Groups in order.
    pub groups: Seq<u64>,
    /// Sessions of the timed-out owners of the group that is being closed.
    pub sessions: Seq<u64>,
    /// What the round waits for.
    pub phase: Phase,
}

impl View for Round {
    type V = RoundModel;

    closed spec fn view(&self) -> RoundModel {
        RoundModel {
            enabled: self.enabled,
            redirects: self.redirects,
            groups: self.groups@,
            sessions: self.sessions@,
            phase: self.phase,
        }
    }
}

impl RoundModel {
    /// A round that has not begun.
    pub open spec fn initial(enabled: bool) -> RoundModel {
        RoundModel {
            enabled,
            redirects: false,
            groups: seq![],
            sessions: seq![],
            phase: Phase::Validating,
        }
    }

    /// Every position lies in its list, and no more offers were accepted than
    /// were made or budgeted.
    pub open spec fn wf(self) -> bool {
        &&& self.groups.len() <= usize::MAX
        &&& self.sessions.len() <= usize::MAX
        &&& match self.phase {
            Phase::Visiting(at) | Phase::Preparing(at) | Phase::Refusing(at) | Phase::Expiring(at) => at
                < self.groups.len(),
            Phase::Budgeting(at, _) => at < self.groups.len(),
            Phase::Checking(at, scan) => at < self.groups.len() && scan.wf() && scan.next
                < scan.total,
            Phase::Offering(at, scan) => at < self.groups.len() && scan.wf() && scan.next
                < scan.total && scan.accepted < scan.budget,
            Phase::Accepting(at, scan) => at < self.groups.len() && scan.wf(),
            Phase::Sparing(at, session)
            | Phase::Closing(at, session)
            | Phase::Confirming(at, session)
            | Phase::Sending(at, session) => at < self.groups.len() && session
                < self.sessions.len(),
            _ => true,
        }
    }

    /// What is to be done next.
    pub open spec fn action(self) -> Action {
        match self.phase {
            Phase::Validating | Phase::Revalidating | Phase::Confirming(_, _) => Action::Validate,
            Phase::Refreshing => Action::Refresh,
            Phase::Entering | Phase::Visiting(_) | Phase::Checking(_, _) | Phase::Sparing(_, _) => {
                Action::ReadStop
            },
            Phase::Listing => Action::ReadGroups,
            Phase::Preparing(at) => Action::Prepare(self.groups[at as int]),
            Phase::Refusing(at) => Action::RecordRefusal(self.groups[at as int]),
            Phase::Budgeting(at, _) => Action::ReadBudget(self.groups[at as int]),
            Phase::Offering(at, scan) => Action::Offer {
                group: self.groups[at as int],
                at: scan.next,
            },
            Phase::Accepting(at, _) => Action::NoteAccepted(self.groups[at as int]),
            Phase::Expiring(at) => Action::ReadExpired(self.groups[at as int]),
            Phase::Closing(_, session) => Action::PrepareClose(self.sessions[session as int]),
            Phase::Sending(at, session) => Action::SendClose {
                group: self.groups[at as int],
                session: self.sessions[session as int],
            },
            Phase::Over(result) => Action::Finish(result),
        }
    }

    /// The round in another phase.
    pub open spec fn at(self, phase: Phase) -> RoundModel {
        RoundModel { phase, ..self }
    }

    /// The round over with an error.
    pub open spec fn failed(self, error: RouteError) -> RoundModel {
        self.at(Phase::Over(Err(error)))
    }

    /// The round before the groups from a position on are closed.
    pub open spec fn closing(self, from: nat) -> RoundModel {
        if from < self.groups.len() {
            self.at(Phase::Expiring(from as usize))
        } else {
            self.at(Phase::Over(Ok(())))
        }
    }

    /// The round before the groups from a position on are balanced: timed-out
    /// owners are closed after all of them, even where redirects are disabled.
    pub open spec fn balancing(self, from: nat) -> RoundModel {
        if self.redirects && from < self.groups.len() {
            self.at(Phase::Visiting(from as usize))
        } else {
            self.closing(0)
        }
    }

    /// The round before the offers from a scan on.
    pub open spec fn offering(self, group: usize, scan: OfferScan) -> RoundModel {
        if scan.next < scan.total {
            self.at(Phase::Checking(group, scan))
        } else {
            self.balancing(group as nat + 1)
        }
    }

    /// The round before a group's sessions from a position on are closed.
    pub open spec fn sparing(self, group: usize, from: nat) -> RoundModel {
        if from < self.sessions.len() {
            self.at(Phase::Sparing(group, from as usize))
        } else {
            self.closing(group as nat + 1)
        }
    }

    /// The round after an answer. Any answer but the one that it waits for
    /// leaves it as it is.
    pub open spec fn after(self, answer: AnswerModel) -> RoundModel {
        match (self.phase, answer) {
            (Phase::Validating, AnswerModel::Done(Ok(_))) => self.at(Phase::Refreshing),
            (Phase::Refreshing, AnswerModel::Done(Ok(_))) => self.at(Phase::Revalidating),
            (Phase::Revalidating, AnswerModel::Done(Ok(_))) => self.at(Phase::Entering),
            (Phase::Validating, AnswerModel::Done(Err(error)))
            | (Phase::Refreshing, AnswerModel::Done(Err(error)))
            | (Phase::Revalidating, AnswerModel::Done(Err(error)))
            | (Phase::Preparing(_), AnswerModel::Done(Err(error)))
            | (Phase::Confirming(_, _), AnswerModel::Done(Err(error))) => self.failed(error),
            (Phase::Entering, AnswerModel::Stop(stopped)) => if stopped {
                self.at(Phase::Over(Ok(())))
            } else {
                self.at(Phase::Listing)
            },
            (Phase::Listing, AnswerModel::Groups(groups, supported)) => RoundModel {
                groups,
                redirects: self.enabled && supported,
                ..self
            }.balancing(0),
            (Phase::Visiting(at), AnswerModel::Stop(stopped)) => if stopped {
                self.at(Phase::Over(Ok(())))
            } else {
                self.at(Phase::Preparing(at))
            },
            (Phase::Preparing(at), AnswerModel::Prepared(outcome, paired)) => match outcome {
                Ok(Some(total)) => self.at(Phase::Budgeting(at, total)),
                Ok(None) => self.balancing(at as nat + 1),
                Err(error) => if !(error is CrossKeyspace) {
                    self.failed(error)
                } else if paired {
                    self.at(Phase::Refusing(at))
                } else {
                    self.balancing(at as nat + 1)
                },
            },
            (Phase::Refusing(at), AnswerModel::Done(_)) => self.balancing(at as nat + 1),
            (Phase::Budgeting(at, total), AnswerModel::Budget(budget)) => self.offering(
                at,
                OfferScan { total, budget, next: 0, accepted: 0 },
            ),
            (Phase::Checking(at, scan), AnswerModel::Stop(stopped)) => if stopped || scan.accepted
                >= scan.budget {
                self.balancing(at as nat + 1)
            } else {
                self.at(Phase::Offering(at, scan))
            },
            (Phase::Offering(at, scan), AnswerModel::Offered(outcome)) => match scan.after(outcome) {
                Ok((next, true)) => self.at(Phase::Accepting(at, next)),
                Ok((next, false)) => self.offering(at, next),
                Err(error) => self.failed(error),
            },
            (Phase::Accepting(at, scan), AnswerModel::Done(_)) => self.offering(at, scan),
            (Phase::Expiring(at), AnswerModel::Expired(sessions)) => RoundModel {
                sessions,
                ..self
            }.sparing(at, 0),
            (Phase::Sparing(at, session), AnswerModel::Stop(stopped)) => if stopped {
                self.at(Phase::Over(Ok(())))
            } else {
                self.at(Phase::Closing(at, session))
            },
            (Phase::Closing(at, session), AnswerModel::Closable(prepared)) => match prepared {
                ClosePrepared::Ready => self.at(Phase::Confirming(at, session)),
                ClosePrepared::Busy => self.sparing(at, session as nat + 1),
                ClosePrepared::Failed(error) => self.failed(error),
            },
            (Phase::Confirming(at, session), AnswerModel::Done(Ok(_))) => self.at(
                Phase::Sending(at, session),
            ),
            (Phase::Sending(at, session), AnswerModel::Offered(outcome)) => match outcome {
                Ok(_) => self.sparing(at, session as nat + 1),
                Err(error) => self.failed(error),
            },
            _ => self,
        }
    }
}

impl Round {
    /// Every position lies in its list.
    pub open spec fn wf(&self) -> bool {
        self@.wf()
    }

    /// A round that has not begun.
    pub fn new(redirects_enabled: bool) -> (r: Self)
        ensures
            r.wf(),
            r@ == RoundModel::initial(redirects_enabled),
    {
        let r = Round {
            enabled: redirects_enabled,
            redirects: false,
            groups: Vec::new(),
            sessions: Vec::new(),
            phase: Phase::Validating,
        };
        assert(r@ =~= RoundModel::initial(redirects_enabled));
        r
    }

    /// What is to be done next.
    pub fn action(&self) -> (r: Action)
        requires
            self.wf(),
        ensures
            r == self@.action(),
    {
        match self.phase {
            Phase::Validating | Phase::Revalidating | Phase::Confirming(_, _) => Action::Validate,
            Phase::Refreshing => Action::Refresh,
            Phase::Entering | Phase::Visiting(_) | Phase::Checking(_, _) | Phase::Sparing(_, _) => {
                Action::ReadStop
            },
            Phase::Listing => Action::ReadGroups,
            Phase::Preparing(at) => Action::Prepare(self.groups[at]),
            Phase::Refusing(at) => Action::RecordRefusal(self.groups[at]),
            Phase::Budgeting(at, _) => Action::ReadBudget(self.groups[at]),
            Phase::Offering(at, scan) => Action::Offer { group: self.groups[at], at: scan.next },
            Phase::Accepting(at, _) => Action::NoteAccepted(self.groups[at]),
            Phase::Expiring(at) => Action::ReadExpired(self.groups[at]),
            Phase::Closing(_, session) => Action::PrepareClose(self.sessions[session]),
            Phase::Sending(at, session) => Action::SendClose {
                group: self.groups[at],
                session: self.sessions[session],
            },
            Phase::Over(result) => Action::Finish(result),
        }
    }

    fn close_all(&self) -> (r: Phase)
        ensures
            r == self@.closing(0).phase,
    {
        if self.groups.len() > 0 {
            Phase::Expiring(0)
        } else {
            Phase::Over(Ok(()))
        }
    }

    fn close_after(&self, at: usize) -> (r: Phase)
        requires
            at < self@.groups.len(),
        ensures
            r == self@.closing(at as nat + 1).phase,
    {
        if at < self.groups.len() - 1 {
            Phase::Expiring(at + 1)
        } else {
            Phase::Over(Ok(()))
        }
    }

    fn balance_after(&self, at: usize) -> (r: Phase)
        requires
            at < self@.groups.len(),
        ensures
            r == self@.balancing(at as nat + 1).phase,
    {
        if self.redirects && at < self.groups.len() - 1 {
            Phase::Visiting(at + 1)
        } else {
            self.close_all()
        }
    }

    fn offer_from(&self, at: usize, scan: OfferScan) -> (r: Phase)
        requires
            at < self@.groups.len(),
        ensures
            r == self@.offering(at, scan).phase,
    {
        if scan.next < scan.total {
            Phase::Checking(at, scan)
        } else {
            self.balance_after(at)
        }
    }

    fn spare_after(&self, at: usize, session: usize) -> (r: Phase)
        requires
            at < self@.groups.len(),
            session < self@.sessions.len(),
        ensures
            r == self@.sparing(at, session as nat + 1).phase,
    {
        if session < self.sessions.len() - 1 {
            Phase::Sparing(at, session + 1)
        } else {
            self.close_after(at)
        }
    }

    /// Take the answer to the last action.
    #[verifier::spinoff_prover]
    #[verifier::rlimit(40)]
    pub fn handle(&mut self, answer: Answer)
        requires
            old(self).wf(),
        ensures
            final(self).wf(),
            final(self)@ == old(self)@.after(answer@),
    {
        let ghost before = self@;
        let ghost taken = answer@;
        let phase = self.phase;
        match (phase, answer) {
            (Phase::Validating, Answer::Done(Ok(_))) => {
                self.phase = Phase::Refreshing;
            },
            (Phase::Refreshing, Answer::Done(Ok(_))) => {
                self.phase = Phase::Revalidating;
            },
            (Phase::Revalidating, Answer::Done(Ok(_))) => {
                self.phase = Phase::Entering;
            },
            (Phase::Validating, Answer::Done(Err(error)))
            | (Phase::Refreshing, Answer::Done(Err(error)))
            | (Phase::Revalidating, Answer::Done(Err(error)))
            | (Phase::Preparing(_), Answer::Done(Err(error)))
            | (Phase::Confirming(_, _), Answer::Done(Err(error))) => {
                self.phase = Phase::Over(Err(error));
            },
            (Phase::Entering, Answer::Stop(stopped)) => {
                self.phase = if stopped {
                    Phase::Over(Ok(()))
                } else {
                    Phase::Listing
                };
            },
            (Phase::Listing, Answer::Groups(groups, supported)) => {
                self.groups = groups;
                self.redirects = self.enabled && supported;
                let listed: usize = self.groups.len();
                self.phase = if self.redirects && listed > 0 {
                    Phase::Visiting(0)
                } else {
                    self.close_all()
                };
            },
            (Phase::Visiting(at), Answer::Stop(stopped)) => {
                self.phase = if stopped {
                    Phase::Over(Ok(()))
                } else {
                    Phase::Preparing(at)
                };
            },
            (Phase::Preparing(at), Answer::Prepared { outcome, paired }) => {
                self.phase = match outcome {
                    Ok(Some(total)) => Phase::Budgeting(at, total),
                    Ok(None) => self.balance_after(at),
                    Err(error) => match error {
                        RouteError::CrossKeyspace => if paired {
                            Phase::Refusing(at)
                        } else {
                            self.balance_after(at)
                        },
                        _ => Phase::Over(Err(error)),
                    },
                };
            },
            (Phase::Refusing(at), Answer::Done(_)) => {
                self.phase = self.balance_after(at);
            },
            (Phase::Budgeting(at, total), Answer::Budget(budget)) => {
                self.phase = self.offer_from(at, OfferScan::new(total, budget));
            },
            (Phase::Checking(at, scan), Answer::Stop(stopped)) => {
                self.phase = if stopped || scan.accepted >= scan.budget {
                    self.balance_after(at)
                } else {
                    Phase::Offering(at, scan)
                };
            },
            (Phase::Offering(at, scan), Answer::Offered(outcome)) => {
                let mut scan = scan;
                self.phase = match scan.offered(outcome) {
                    Ok(accepted) => if accepted {
                        Phase::Accepting(at, scan)
                    } else {
                        self.offer_from(at, scan)
                    },
                    Err(error) => Phase::Over(Err(error)),
                };
            },
            (Phase::Accepting(at, scan), Answer::Done(_)) => {
                self.phase = self.offer_from(at, scan);
            },
            (Phase::Expiring(at), Answer::Expired(sessions)) => {
                self.sessions = sessions;
                self.phase = if self.sessions.len() > 0 {
                    Phase::Sparing(at, 0)
                } else {
                    self.close_after(at)
                };
            },
            (Phase::Sparing(at, session), Answer::Stop(stopped)) => {
                self.phase = if stopped {
                    Phase::Over(Ok(()))
                } else {
                    Phase::Closing(at, session)
                };
            },
            (Phase::Closing(at, session), Answer::Closable(prepared)) => {
                self.phase = match prepared {
                    ClosePrepared::Ready => Phase::Confirming(at, session),
                    ClosePrepared::Busy => self.spare_after(at, session),
                    ClosePrepared::Failed(error) => Phase::Over(Err(error)),
                };
            },
            (Phase::Confirming(at, session), Answer::Done(Ok(_))) => {
                self.phase = Phase::Sending(at, session);
            },
            (Phase::Sending(at, session), Answer::Offered(outcome)) => {
                self.phase = match outcome {
                    Ok(_) => self.spare_after(at, session),
                    Err(error) => Phase::Over(Err(error)),
                };
            },
            _ => {},
        }
        proof {
            assert(self@ =~= before.after(taken));
        }
    }
}

/// A round never loses its positions, and never accepts more offers of a group
/// than it made or was budgeted.
pub proof fn law_round_stays_in_bounds(round: RoundModel, answer: AnswerModel)
    requires
        round.wf(),
        answer matches AnswerModel::Groups(groups, _) ==> groups.len() <= usize::MAX,
        answer matches AnswerModel::Expired(sessions) ==> sessions.len() <= usize::MAX,
    ensures
        round.after(answer).wf(),
{
}

/// Offers and closes are only made right after the stop signal was read and
/// found down, and a close is only sent right after the sources were found
/// current.
pub proof fn law_effects_are_guarded(round: RoundModel, answer: AnswerModel)
    ensures
        ({
            let next = round.after(answer);
            &&& next != round && next.action() is Offer ==> answer == AnswerModel::Stop(false)
            &&& next != round && next.action() is PrepareClose ==> answer == AnswerModel::Stop(
                false,
            )
            &&& next != round && next.action() is SendClose ==> (answer matches AnswerModel::Done(
                result,
            ) && result is Ok)
        }),
{
}

/// A stop ends a round at once, except that the offers of one group are left for
/// the signal before the next group or close.
pub proof fn law_stop_ends_a_round(round: RoundModel)
    requires
        round.action() is ReadStop,
    ensures
        ({
            let next = round.after(AnswerModel::Stop(true));
            ||| next.action() == Action::Finish(Ok(()))
            ||| round.phase is Checking && (next.action() is ReadStop
                || next.action() is ReadExpired)
        }),
{
}

/// A refusal ends the round with itself, unless it is a cross-keyspace pair or
/// the offered session's own.
pub proof fn law_refusals_end_a_round(round: RoundModel, error: RouteError, paired: bool)
    ensures
        round.action() is Validate || round.action() is Refresh || round.action() is Prepare ==> round.after(
            AnswerModel::Done(Err(error)),
        ).action() == Action::Finish(Err(error)),
        round.action() is Prepare ==> {
            let next = round.after(AnswerModel::Prepared(Err(error), paired)).action();
            if error is CrossKeyspace {
                !(next matches Action::Finish(result) && result is Err)
            } else {
                next == Action::Finish(Err(error))
            }
        },
        round.action() is Offer ==> {
            let next = round.after(AnswerModel::Offered(Err(error))).action();
            if OfferScan::passes(error) {
                !(next matches Action::Finish(result) && result is Err)
            } else {
                next == Action::Finish(Err(error))
            }
        },
        round.action() is SendClose ==> round.after(
            AnswerModel::Offered(Err(error)),
        ).action() == Action::Finish(Err(error)),
{
}

/// Timed-out owners are looked for even where redirects are disabled or not
/// supported.
pub proof fn law_closes_need_no_redirects(round: RoundModel, groups: Seq<u64>, supported: bool)
    requires
        round.phase is Listing,
        !round.enabled || !supported,
        groups.len() > 0,
    ensures
        round.after(AnswerModel::Groups(groups, supported)).action() == Action::ReadExpired(
            groups[0],
        ),
{
}

/// How far a round is from its end: its part, the groups that are left in it,
/// the step within a group, the offers or sessions that are left, and the step
/// within one of them.
pub open spec fn distance(round: RoundModel) -> (int, int, int, int, int) {
    let groups = round.groups.len() as int;
    let sessions = round.sessions.len() as int;
    match round.phase {
        Phase::Validating => (6, 0, 0, 0, 0),
        Phase::Refreshing => (5, 0, 0, 0, 0),
        Phase::Revalidating => (4, 0, 0, 0, 0),
        Phase::Entering => (3, 0, 0, 0, 0),
        Phase::Listing => (2, 0, 0, 0, 0),
        Phase::Visiting(at) => (1, groups - at, 3, 0, 0),
        Phase::Preparing(at) => (1, groups - at, 2, 0, 0),
        Phase::Refusing(at) | Phase::Budgeting(at, _) => (1, groups - at, 1, 0, 0),
        Phase::Accepting(at, scan) => (1, groups - at, 0, scan.total - scan.next, 2),
        Phase::Checking(at, scan) => (1, groups - at, 0, scan.total - scan.next, 1),
        Phase::Offering(at, scan) => (1, groups - at, 0, scan.total - scan.next, 0),
        Phase::Expiring(at) => (0, groups - at, 1, 0, 0),
        Phase::Sparing(at, session) => (0, groups - at, 0, sessions - session, 3),
        Phase::Closing(at, session) => (0, groups - at, 0, sessions - session, 2),
        Phase::Confirming(at, session) => (0, groups - at, 0, sessions - session, 1),
        Phase::Sending(at, session) => (0, groups - at, 0, sessions - session, 0),
        Phase::Over(_) => (0, 0, 0, 0, 0),
    }
}

/// Every answer that a round waits for brings it closer to its end, so a round
/// ends whatever the answers are.
pub proof fn law_rounds_end(round: RoundModel, answer: AnswerModel)
    requires
        round.wf(),
        round.after(answer) != round,
        answer matches AnswerModel::Groups(groups, _) ==> groups.len() <= usize::MAX,
        answer matches AnswerModel::Expired(sessions) ==> sessions.len() <= usize::MAX,
    ensures
        ({
            let (a, b, c, d, e) = distance(round);
            let (f, g, h, i, j) = distance(round.after(answer));
            decreases_to!(a, b, c, d, e => f, g, h, i, j)
        }),
{
}

/// Nothing happens after the end.
pub proof fn law_end_is_final(round: RoundModel, answer: AnswerModel)
    requires
        round.phase is Over,
    ensures
        round.after(answer) == round,
{
}

} // verus!
