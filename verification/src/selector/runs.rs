//! What whole migration rounds do, told from the actions that were performed and
//! the answers that they got.
use vstd::prelude::*;

use super::round::{Action, Answer, AnswerModel, ClosePrepared, Phase, Round, RoundModel};
use super::RouteError;

verus! {

/// An action that was performed, and its answer.
pub struct Step {
    /// What was done.
    pub action: Action,
    /// What came back.
    pub answer: AnswerModel,
}

/// Whether an answer is one to an action.
pub open spec fn fits(action: Action, answer: AnswerModel) -> bool {
    match action {
        Action::Validate | Action::Refresh | Action::RecordRefusal(_) | Action::NoteAccepted(_) => {
            answer is Done
        },
        Action::ReadStop => answer is Stop,
        Action::ReadGroups => answer matches AnswerModel::Groups(groups, _) && groups.len()
            <= usize::MAX,
        Action::Prepare(_) => answer is Prepared || (answer matches AnswerModel::Done(result)
            && result is Err),
        Action::ReadBudget(_) => answer is Budget,
        Action::Offer { .. } | Action::SendClose { .. } => answer is Offered,
        Action::ReadExpired(_) => answer matches AnswerModel::Expired(sessions) && sessions.len()
            <= usize::MAX,
        Action::PrepareClose(_) => answer is Closable,
        Action::Finish(_) => false,
    }
}

/// The round that some steps lead to.
pub open spec fn reached(enabled: bool, run: Seq<Step>) -> RoundModel
    decreases run.len(),
{
    if run.len() == 0 {
        RoundModel::initial(enabled)
    } else {
        reached(enabled, run.drop_last()).after(run.last().answer)
    }
}

/// Whether each step performed what the round asked for, and was answered.
pub open spec fn plays(enabled: bool, run: Seq<Step>) -> bool
    decreases run.len(),
{
    run.len() > 0 ==> {
        &&& plays(enabled, run.drop_last())
        &&& run.last().action == reached(enabled, run.drop_last()).action()
        &&& fits(run.last().action, run.last().answer)
    }
}

/// What is to be done after some steps.
pub open spec fn next_action(enabled: bool, run: Seq<Step>) -> Action {
    reached(enabled, run).action()
}

/// What some steps did.
#[verifier::ext_equal]
pub struct Tally {
    /// Steps.
    pub steps: nat,
    /// Groups that were read, and whether every backend supports redirection.
    pub listed: Option<(Seq<u64>, bool)>,
    /// Groups that were prepared.
    pub prepared: Seq<u64>,
    /// Groups with a refused cross-keyspace pair.
    pub refused: Seq<u64>,
    /// Groups whose refused pair was recorded.
    pub recorded: Seq<u64>,
    /// Groups with a prepared migration.
    pub planned: Seq<u64>,
    /// Groups whose budget was read.
    pub budgeted: Seq<u64>,
    /// Redirects of the last prepared migration.
    pub total: usize,
    /// The last budget.
    pub budget: usize,
    /// Offers that were made of the last migration.
    pub offers: Seq<usize>,
    /// How many of them were accepted.
    pub accepted: nat,
    /// The stop signal was up since the last budget was read.
    pub stopped: bool,
    /// Groups of all accepted offers.
    pub admitted: Seq<u64>,
    /// Groups whose accepted offers were noted.
    pub noted: Seq<u64>,
    /// Groups whose timed-out sessions were read.
    pub expired: Seq<u64>,
    /// All sessions that were read as timed out.
    pub due: Seq<u64>,
    /// Sessions whose close was prepared.
    pub closes: Seq<u64>,
    /// Sessions whose close was ready.
    pub ready: Seq<u64>,
    /// Sessions whose close was sent.
    pub sent: Seq<u64>,
}

impl Tally {
    /// Nothing was done.
    pub open spec fn empty() -> Tally {
        Tally {
            steps: 0,
            listed: None,
            prepared: seq![],
            refused: seq![],
            recorded: seq![],
            planned: seq![],
            budgeted: seq![],
            total: 0,
            budget: 0,
            offers: seq![],
            accepted: 0,
            stopped: false,
            admitted: seq![],
            noted: seq![],
            expired: seq![],
            due: seq![],
            closes: seq![],
            ready: seq![],
            sent: seq![],
        }
    }

    /// What was done after one more step.
    pub open spec fn plus(self, step: Step) -> Tally {
        let more = Tally { steps: self.steps + 1, ..self };
        match (step.action, step.answer) {
            (Action::ReadGroups, AnswerModel::Groups(groups, supported)) => Tally {
                listed: Some((groups, supported)),
                ..more
            },
            (Action::ReadStop, AnswerModel::Stop(stopped)) => Tally {
                stopped: self.stopped || stopped,
                ..more
            },
            (Action::Prepare(group), AnswerModel::Prepared(outcome, paired)) => {
                let seen = Tally { prepared: self.prepared.push(group), ..more };
                match outcome {
                    Ok(Some(total)) => Tally {
                        planned: self.planned.push(group),
                        total,
                        ..seen
                    },
                    Err(RouteError::CrossKeyspace) => if paired {
                        Tally { refused: self.refused.push(group), ..seen }
                    } else {
                        seen
                    },
                    _ => seen,
                }
            },
            (Action::Prepare(group), _) => Tally { prepared: self.prepared.push(group), ..more },
            (Action::RecordRefusal(group), _) => Tally {
                recorded: self.recorded.push(group),
                ..more
            },
            (Action::ReadBudget(group), AnswerModel::Budget(budget)) => Tally {
                budgeted: self.budgeted.push(group),
                budget,
                offers: seq![],
                accepted: 0,
                stopped: false,
                ..more
            },
            (Action::Offer { group, at }, AnswerModel::Offered(outcome)) => {
                let made = Tally { offers: self.offers.push(at), ..more };
                if outcome == Ok::<bool, RouteError>(true) {
                    Tally {
                        accepted: self.accepted + 1,
                        admitted: self.admitted.push(group),
                        ..made
                    }
                } else {
                    made
                }
            },
            (Action::NoteAccepted(group), _) => Tally { noted: self.noted.push(group), ..more },
            (Action::ReadExpired(group), AnswerModel::Expired(sessions)) => Tally {
                expired: self.expired.push(group),
                due: self.due + sessions,
                ..more
            },
            (Action::PrepareClose(session), AnswerModel::Closable(prepared)) => {
                let asked = Tally { closes: self.closes.push(session), ..more };
                if prepared is Ready {
                    Tally { ready: self.ready.push(session), ..asked }
                } else {
                    asked
                }
            },
            (Action::SendClose { session, .. }, _) => Tally {
                sent: self.sent.push(session),
                ..more
            },
            _ => more,
        }
    }

    /// The groups to be balanced: all that were read, where redirects are enabled
    /// and supported.
    pub open spec fn wanted(self, enabled: bool) -> Seq<u64> {
        match self.listed {
            Some((groups, supported)) => if enabled && supported {
                groups
            } else {
                seq![]
            },
            None => seq![],
        }
    }

    /// The groups that were read.
    pub open spec fn groups(self) -> Seq<u64> {
        match self.listed {
            Some((groups, _)) => groups,
            None => seq![],
        }
    }

    /// Whether offers of the last migration are still owed: some are left, the
    /// budget is not used up, and no stop was seen.
    pub open spec fn owes_offers(self) -> bool {
        &&& self.planned.len() > 0
        &&& self.budgeted.len() == self.planned.len()
        &&& self.offers.len() < self.total
        &&& self.accepted < self.budget
        &&& !self.stopped
    }
}

/// What some steps did.
pub open spec fn tally(run: Seq<Step>) -> Tally
    decreases run.len(),
{
    if run.len() == 0 {
        Tally::empty()
    } else {
        tally(run.drop_last()).plus(run.last())
    }
}

/// The refusal that ends a round, if the step is answered by one: not that of a
/// cross-keyspace pair, nor one that is the offered session's own.
pub open spec fn fatal(step: Step) -> Option<RouteError> {
    match (step.action, step.answer) {
        (Action::Validate, AnswerModel::Done(Err(error)))
        | (Action::Refresh, AnswerModel::Done(Err(error)))
        | (Action::Prepare(_), AnswerModel::Done(Err(error))) => Some(error),
        (Action::Prepare(_), AnswerModel::Prepared(Err(error), _)) => match error {
            RouteError::CrossKeyspace => None,
            _ => Some(error),
        },
        (Action::Offer { .. }, AnswerModel::Offered(Err(error))) => match error {
            RouteError::RedirectPending
            | RouteError::CoolingDown
            | RouteError::ForceClosing
            | RouteError::NotActive => None,
            _ => Some(error),
        },
        (Action::PrepareClose(_), AnswerModel::Closable(ClosePrepared::Failed(error))) => Some(
            error,
        ),
        (Action::SendClose { .. }, AnswerModel::Offered(Err(error))) => Some(error),
        _ => None,
    }
}

/// How a round's place agrees with what was done in it.
spec fn placed(m: RoundModel, t: Tally) -> bool {
    let groups = m.groups;
    let balanced = if m.redirects {
        groups
    } else {
        seq![]
    };
    let left = t.due.len() - m.sessions.len();
    &&& m.wf()
    &&& match t.listed {
        Some((listed, supported)) => groups == listed && m.redirects == (m.enabled && supported),
        None => t == (Tally { steps: t.steps, stopped: t.stopped, ..Tally::empty() })
            && m.groups.len() == 0 && !m.redirects,
    }
    &&& t.offers == Seq::new(t.offers.len(), |i: int| i as usize)
    &&& t.accepted <= t.budget
    &&& t.closes.len() <= t.due.len()
    &&& t.closes == t.due.take(t.closes.len() as int)
    &&& m.sessions.len() <= t.due.len()
    &&& forall|i: int|
        0 <= i < m.sessions.len() ==> #[trigger] m.sessions[i] == t.due[left + i]
    &&& match m.phase {
        Phase::Validating => t == Tally::empty(),
        Phase::Refreshing => t == (Tally { steps: 1, ..Tally::empty() }),
        Phase::Revalidating => t == (Tally { steps: 2, ..Tally::empty() }),
        Phase::Entering => t == (Tally { steps: 3, ..Tally::empty() }),
        Phase::Listing => t == (Tally { steps: 4, ..Tally::empty() }),
        Phase::Over(_) => true,
        _ => t.steps >= 5 && t.listed is Some,
    }
    &&& match m.phase {
        Phase::Refusing(at) => t.refused == t.recorded.push(groups[at as int]),
        Phase::Over(Err(_)) => true,
        _ => t.recorded == t.refused,
    }
    &&& match m.phase {
        Phase::Budgeting(at, total) => t.planned == t.budgeted.push(groups[at as int]) && t.total
            == total,
        Phase::Over(Err(_)) => true,
        _ => t.budgeted == t.planned,
    }
    &&& match m.phase {
        Phase::Accepting(at, _) => t.admitted == t.noted.push(groups[at as int]),
        Phase::Over(Err(_)) => true,
        _ => t.noted == t.admitted,
    }
    &&& match m.phase {
        Phase::Confirming(_, session) | Phase::Sending(_, session) => t.ready == t.sent.push(
            m.sessions[session as int],
        ),
        Phase::Over(Err(_)) => true,
        _ => t.sent == t.ready,
    }
    &&& match m.phase {
        Phase::Visiting(at) | Phase::Preparing(at) => {
            &&& m.redirects
            &&& t.prepared == groups.take(at as int)
            &&& !t.owes_offers()
        },
        Phase::Refusing(at) => {
            &&& m.redirects
            &&& t.prepared == groups.take(at + 1)
            &&& !t.owes_offers()
        },
        Phase::Budgeting(at, _) => m.redirects && t.prepared == groups.take(at + 1),
        Phase::Checking(at, scan) | Phase::Offering(at, scan) | Phase::Accepting(at, scan) => {
            &&& m.redirects
            &&& t.prepared == groups.take(at + 1)
            &&& t.planned.len() > 0
            &&& scan.total == t.total
            &&& scan.budget == t.budget
            &&& scan.next == t.offers.len()
            &&& scan.accepted == t.accepted
            &&& !t.stopped
        },
        Phase::Expiring(_)
        | Phase::Sparing(_, _)
        | Phase::Closing(_, _)
        | Phase::Confirming(_, _)
        | Phase::Sending(_, _) => t.prepared == balanced && !t.owes_offers(),
        _ => true,
    }
    &&& match m.phase {
        Phase::Expiring(at) => t.expired == groups.take(at as int) && t.closes == t.due,
        Phase::Sparing(at, session) | Phase::Closing(at, session) => t.expired == groups.take(
            at + 1,
        ) && t.closes.len() == left + session,
        Phase::Confirming(at, session) | Phase::Sending(at, session) => t.expired == groups.take(
            at + 1,
        ) && t.closes.len() == left + session + 1,
        Phase::Over(_) => true,
        _ => t.expired.len() == 0 && t.due.len() == 0,
    }
    &&& t.prepared.is_prefix_of(balanced)
    &&& t.expired.is_prefix_of(groups)
    &&& t.expired.len() > 0 ==> t.prepared == balanced
}

/// What the step that ends a round without a refusal left done.
spec fn completed(m: RoundModel, t: Tally) -> bool {
    &&& t.listed is Some
    &&& t.prepared == t.wanted(m.enabled)
    &&& t.expired == t.groups()
    &&& t.closes == t.due
    &&& !t.owes_offers()
}

#[verifier::spinoff_prover]
#[verifier::rlimit(60)]
proof fn lemma_opening_step(m: RoundModel, t: Tally, step: Step)
    requires
        placed(m, t),
        step.action == m.action(),
        fits(step.action, step.answer),
        match m.phase {
            Phase::Validating
            | Phase::Refreshing
            | Phase::Revalidating
            | Phase::Entering
            | Phase::Listing => true,
            _ => false,
        },
    ensures
        placed(m.after(step.answer), t.plus(step)),
        m.after(step.answer).enabled == m.enabled,
        m.after(step.answer).phase == Phase::Over(Ok(())) ==> step.answer == AnswerModel::Stop(true)
            || completed(m, t.plus(step)),
{
    let n = m.after(step.answer);
    let u = t.plus(step);
    assert(u.closes =~= u.due.take(u.closes.len() as int));
    assert(u.offers =~= Seq::new(u.offers.len(), |i: int| i as usize));
    assert(n.groups.take(0) =~= seq![]);
    if n.groups.len() == 0 {
        assert(n.groups =~= seq![]);
    }
}

#[verifier::spinoff_prover]
#[verifier::rlimit(80)]
proof fn lemma_balance_step(m: RoundModel, t: Tally, step: Step)
    requires
        placed(m, t),
        step.action == m.action(),
        fits(step.action, step.answer),
        match m.phase {
            Phase::Visiting(_)
            | Phase::Preparing(_)
            | Phase::Refusing(_)
            | Phase::Budgeting(_, _)
            | Phase::Checking(_, _)
            | Phase::Offering(_, _)
            | Phase::Accepting(_, _) => true,
            _ => false,
        },
    ensures
        placed(m.after(step.answer), t.plus(step)),
        m.after(step.answer).enabled == m.enabled,
        m.after(step.answer).phase == Phase::Over(Ok(())) ==> step.answer == AnswerModel::Stop(true)
            || completed(m, t.plus(step)),
{
    let n = m.after(step.answer);
    let u = t.plus(step);
    assert(u.closes =~= u.due.take(u.closes.len() as int));
    assert(u.offers =~= Seq::new(u.offers.len(), |i: int| i as usize));
    assert(u.closes =~= u.due);
    assert(u.expired =~= seq![]);
    assert(m.groups.take(0) =~= seq![]);
    assert(m.groups.take(m.groups.len() as int) =~= m.groups);
    match m.phase {
        Phase::Preparing(at) => {
            assert(m.groups.take(at as int).push(m.groups[at as int]) =~= m.groups.take(at + 1));
            assert(u.prepared == m.groups.take(at + 1));
            assert(u.prepared.is_prefix_of(m.groups));
        },
        _ => {},
    }
}

#[verifier::spinoff_prover]
#[verifier::rlimit(80)]
proof fn lemma_close_step(m: RoundModel, t: Tally, step: Step)
    requires
        placed(m, t),
        step.action == m.action(),
        fits(step.action, step.answer),
        match m.phase {
            Phase::Expiring(_)
            | Phase::Sparing(_, _)
            | Phase::Closing(_, _)
            | Phase::Confirming(_, _)
            | Phase::Sending(_, _) => true,
            _ => false,
        },
    ensures
        placed(m.after(step.answer), t.plus(step)),
        m.after(step.answer).enabled == m.enabled,
        m.after(step.answer).phase == Phase::Over(Ok(())) ==> step.answer == AnswerModel::Stop(true)
            || completed(m, t.plus(step)),
{
    let n = m.after(step.answer);
    let u = t.plus(step);
    assert(u.offers =~= Seq::new(u.offers.len(), |i: int| i as usize));
    assert(m.groups.take(m.groups.len() as int) =~= m.groups);
    assert(u.due.take(u.due.len() as int) =~= u.due);
    match m.phase {
        Phase::Expiring(at) => {
            assert(m.groups.take(at as int).push(m.groups[at as int]) =~= m.groups.take(at + 1));
            assert(u.closes =~= u.due.take(u.closes.len() as int));
        },
        Phase::Closing(_, session) => {
            assert(m.sessions[session as int] == t.due[t.due.len() - m.sessions.len() + session]);
            assert(u.closes =~= u.due.take(u.closes.len() as int));
        },
        _ => {},
    }
}

proof fn lemma_step(m: RoundModel, t: Tally, step: Step)
    requires
        placed(m, t),
        step.action == m.action(),
        fits(step.action, step.answer),
    ensures
        placed(m.after(step.answer), t.plus(step)),
        m.after(step.answer).enabled == m.enabled,
        m.after(step.answer).phase == Phase::Over(Ok(())) ==> step.answer == AnswerModel::Stop(true)
            || completed(m, t.plus(step)),
{
    match m.phase {
        Phase::Validating
        | Phase::Refreshing
        | Phase::Revalidating
        | Phase::Entering
        | Phase::Listing => lemma_opening_step(m, t, step),
        Phase::Expiring(_)
        | Phase::Sparing(_, _)
        | Phase::Closing(_, _)
        | Phase::Confirming(_, _)
        | Phase::Sending(_, _) => lemma_close_step(m, t, step),
        Phase::Over(_) => {},
        _ => lemma_balance_step(m, t, step),
    }
}

proof fn lemma_placed(enabled: bool, run: Seq<Step>)
    requires
        plays(enabled, run),
    ensures
        placed(reached(enabled, run), tally(run)),
        reached(enabled, run).enabled == enabled,
    decreases run.len(),
{
    if run.len() > 0 {
        lemma_placed(enabled, run.drop_last());
        lemma_step(reached(enabled, run.drop_last()), tally(run.drop_last()), run.last());
    } else {
        assert(tally(run).closes =~= tally(run).due.take(0));
        assert(tally(run).offers =~= Seq::new(0, |i: int| i as usize));
    }
}

/// Every session that was read as timed out is closed, in order: their closes are
/// prepared one after another, and before the next group is read, or the round ends
/// of itself, none is left. What is ready is sent, and nothing else, each session
/// for the group that it was read of.
pub proof fn law_every_timed_out_session_is_closed(enabled: bool, run: Seq<Step>)
    requires
        plays(enabled, run),
    ensures
        ({
            let t = tally(run);
            let next = next_action(enabled, run);
            &&& t.closes.is_prefix_of(t.due)
            &&& next is ReadExpired ==> t.closes == t.due && t.sent == t.ready
            &&& next == Action::Finish(Ok(())) && run.last().answer != AnswerModel::Stop(true)
                ==> t.closes == t.due && t.sent == t.ready
            &&& next matches Action::PrepareClose(session) ==> t.closes.len() < t.due.len()
                && session == t.due[t.closes.len() as int] && t.sent == t.ready
            &&& next matches Action::SendClose { group, session } ==> {
                &&& t.expired.len() > 0
                &&& group == t.expired.last()
                &&& t.closes.len() > 0
                &&& session == t.closes.last()
                &&& t.ready == t.sent.push(session)
            }
        }),
{
    lemma_placed(enabled, run);
    let m = reached(enabled, run);
    let t = tally(run);
    lemma_ended(enabled, run);
    match m.phase {
        Phase::Closing(_, session) => {
            assert(m.sessions[session as int] == t.due[t.due.len() - m.sessions.len() + session]);
        },
        Phase::Sending(_, session) => {
            assert(m.sessions[session as int] == t.due[t.due.len() - m.sessions.len() + session]);
        },
        _ => {},
    }
}

/// While sessions that timed out are left, a round that is not stopped or refused
/// goes on with the next one, whatever became of the last close.
pub proof fn law_a_close_is_followed_by_the_next(enabled: bool, run: Seq<Step>, accepted: bool)
    requires
        plays(enabled, run),
        next_action(enabled, run) is SendClose,
        tally(run).closes.len() < tally(run).due.len(),
    ensures
        ({
            let t = tally(run);
            let sent = run.push(
                Step {
                    action: next_action(enabled, run),
                    answer: AnswerModel::Offered(Ok(accepted)),
                },
            );
            let asked = sent.push(
                Step { action: Action::ReadStop, answer: AnswerModel::Stop(false) },
            );
            &&& next_action(enabled, sent) == Action::ReadStop
            &&& next_action(enabled, asked) == Action::PrepareClose(t.due[t.closes.len() as int])
        }),
{
    lemma_placed(enabled, run);
    let m = reached(enabled, run);
    let t = tally(run);
    let sent = run.push(
        Step {
            action: next_action(enabled, run),
            answer: AnswerModel::Offered(Ok(accepted)),
        },
    );
    let asked = sent.push(Step { action: Action::ReadStop, answer: AnswerModel::Stop(false) });
    assert(sent.drop_last() =~= run);
    assert(asked.drop_last() =~= sent);
    match m.phase {
        Phase::Sending(_, session) => {
            assert(m.sessions[session + 1] == t.due[t.due.len() - m.sessions.len() + session + 1]);
        },
        _ => {},
    }
}

/// The offers of a migration are made in order from the first one on, as many as
/// its budget allows: a further offer is made only while one is left and fewer were
/// accepted than budgeted, and the group is not left before that unless the stop
/// signal was seen up.
pub proof fn law_offers_use_up_the_budget(enabled: bool, run: Seq<Step>)
    requires
        plays(enabled, run),
    ensures
        ({
            let t = tally(run);
            let next = next_action(enabled, run);
            &&& t.offers == Seq::new(t.offers.len(), |i: int| i as usize)
            &&& t.accepted <= t.budget
            &&& next matches Action::Offer { group, at } ==> {
                &&& t.prepared.len() > 0
                &&& group == t.prepared.last()
                &&& at == t.offers.len() < t.total
                &&& t.accepted < t.budget
            }
            &&& next is Prepare || next is ReadExpired || next is PrepareClose ==> !t.owes_offers()
            &&& next == Action::Finish(Ok(())) && run.last().answer != AnswerModel::Stop(true)
                ==> !t.owes_offers()
        }),
{
    lemma_placed(enabled, run);
    lemma_ended(enabled, run);
}

/// While the stop signal is down, offers are left and fewer were accepted than
/// budgeted, the next offer of the same group is made.
pub proof fn law_an_owed_offer_is_made(enabled: bool, run: Seq<Step>)
    requires
        plays(enabled, run),
        run.len() > 0,
        run.last().answer == AnswerModel::Stop(false),
        tally(run).owes_offers(),
    ensures
        next_action(enabled, run) == (Action::Offer {
            group: tally(run).prepared.last(),
            at: tally(run).offers.len() as usize,
        }),
{
    let before = run.drop_last();
    lemma_placed(enabled, before);
    lemma_placed(enabled, run);
    assert(reached(enabled, before).action() is ReadStop);
}

/// An offer that was made and noted is followed by a look at the stop signal while
/// more are owed.
pub proof fn law_offers_go_on(enabled: bool, run: Seq<Step>)
    requires
        plays(enabled, run),
        tally(run).owes_offers(),
    ensures
        ({
            let next = next_action(enabled, run);
            ||| next is Offer
            ||| next is NoteAccepted
            ||| next is ReadStop
            ||| next matches Action::Finish(result) && result is Err
        }),
{
    lemma_placed(enabled, run);
    lemma_ended(enabled, run);
    if run.len() > 0 {
        lemma_placed(enabled, run.drop_last());
    }
}

/// Each accepted offer is noted for its group before anything else is done, each
/// refused cross-keyspace pair that was chosen is recorded, and the budget of each
/// prepared migration is read.
pub proof fn law_outcomes_are_noted(enabled: bool, run: Seq<Step>)
    requires
        plays(enabled, run),
    ensures
        ({
            let t = tally(run);
            match next_action(enabled, run) {
                Action::NoteAccepted(group) => t.admitted == t.noted.push(group) && t.recorded
                    == t.refused && t.budgeted == t.planned,
                Action::RecordRefusal(group) => t.refused == t.recorded.push(group) && t.noted
                    == t.admitted && t.budgeted == t.planned,
                Action::ReadBudget(group) => t.planned == t.budgeted.push(group) && t.noted
                    == t.admitted && t.recorded == t.refused,
                Action::Finish(Err(_)) => true,
                _ => t.noted == t.admitted && t.recorded == t.refused && t.budgeted == t.planned,
            }
        }),
{
    lemma_placed(enabled, run);
}

/// Where redirects are enabled and supported, every group is balanced, in order, and
/// none where they are not. The timed-out sessions of every group are read after
/// that, in order.
pub proof fn law_every_group_is_visited(enabled: bool, run: Seq<Step>)
    requires
        plays(enabled, run),
    ensures
        ({
            let t = tally(run);
            let next = next_action(enabled, run);
            &&& t.prepared.is_prefix_of(t.wanted(enabled))
            &&& t.expired.is_prefix_of(t.groups())
            &&& t.expired.len() > 0 ==> t.prepared == t.wanted(enabled)
            &&& next matches Action::Prepare(group) ==> t.prepared.push(group).is_prefix_of(
                t.wanted(enabled),
            )
            &&& next matches Action::ReadExpired(group) ==> t.prepared == t.wanted(enabled)
                && t.expired.push(group).is_prefix_of(t.groups())
            &&& next == Action::Finish(Ok(())) && run.last().answer != AnswerModel::Stop(true)
                ==> t.listed is Some && t.prepared == t.wanted(enabled) && t.expired == t.groups()
        }),
{
    lemma_placed(enabled, run);
    lemma_ended(enabled, run);
    let m = reached(enabled, run);
    let t = tally(run);
    match m.phase {
        Phase::Preparing(at) => {
            assert(t.prepared.push(m.groups[at as int]) =~= m.groups.take(at + 1));
        },
        Phase::Expiring(at) => {
            assert(t.expired.push(m.groups[at as int]) =~= m.groups.take(at + 1));
        },
        _ => {},
    }
}

proof fn lemma_ended(enabled: bool, run: Seq<Step>)
    requires
        plays(enabled, run),
    ensures
        reached(enabled, run).phase == Phase::Over(Ok(())) ==> run.len() > 0 && (run.last().answer
            == AnswerModel::Stop(true) || completed(reached(enabled, run), tally(run))),
{
    if run.len() > 0 {
        lemma_placed(enabled, run.drop_last());
        lemma_step(reached(enabled, run.drop_last()), tally(run.drop_last()), run.last());
    }
}

/// A round ends with a refusal exactly where its last step was answered by one that
/// is not a session's or a pair's own, and with that one.
pub proof fn law_refusals_end_the_round(enabled: bool, run: Seq<Step>)
    requires
        plays(enabled, run),
        run.len() > 0,
    ensures
        match fatal(run.last()) {
            Some(error) => next_action(enabled, run) == Action::Finish(Err(error)),
            None => !(next_action(enabled, run) matches Action::Finish(result) && result is Err),
        },
{
    lemma_placed(enabled, run.drop_last());
    lemma_placed(enabled, run);
}

/// A round checks its sources, takes them over and checks them again, looks at the
/// stop signal and reads the groups, once and before anything else.
pub proof fn law_rounds_begin_with_their_sources(enabled: bool, run: Seq<Step>)
    requires
        plays(enabled, run),
        !(next_action(enabled, run) is Finish),
    ensures
        ({
            let next = next_action(enabled, run);
            &&& run.len() == 0 ==> next == Action::Validate
            &&& run.len() == 1 ==> next == Action::Refresh
            &&& run.len() == 2 ==> next == Action::Validate
            &&& run.len() == 3 ==> next == Action::ReadStop
            &&& run.len() == 4 ==> next == Action::ReadGroups
            &&& run.len() > 4 ==> !(next is Refresh) && !(next is ReadGroups)
        }),
{
    lemma_placed(enabled, run);
    lemma_steps(run);
}

proof fn lemma_steps(run: Seq<Step>)
    ensures
        tally(run).steps == run.len(),
    decreases run.len(),
{
    if run.len() > 0 {
        lemma_steps(run.drop_last());
    }
}

/// A group is prepared, an offer made and a close prepared only right after the stop
/// signal was seen down. A close is only sent right after its sources were found
/// current, and these are only looked at once its close is ready.
pub proof fn law_effects_follow_their_checks(enabled: bool, run: Seq<Step>)
    requires
        plays(enabled, run),
    ensures
        ({
            let next = next_action(enabled, run);
            &&& next is Prepare || next is Offer || next is PrepareClose ==> run.len() > 0
                && run.last().action == Action::ReadStop && run.last().answer == AnswerModel::Stop(
                false,
            )
            &&& next matches Action::SendClose { session, .. } ==> {
                &&& run.len() > 1
                &&& run.last().action == Action::Validate
                &&& (run.last().answer matches AnswerModel::Done(result) && result is Ok)
                &&& run[run.len() - 2].action == Action::PrepareClose(session)
                &&& run[run.len() - 2].answer == AnswerModel::Closable(ClosePrepared::Ready)
            }
        }),
{
    if run.len() > 0 {
        let before = run.drop_last();
        assert(plays(enabled, before));
        assert(reached(enabled, run) == reached(enabled, before).after(run.last().answer));
        if before.len() > 0 {
            let first = before.drop_last();
            assert(plays(enabled, first));
            assert(reached(enabled, before) == reached(enabled, first).after(before.last().answer));
            assert(before.last() == run[run.len() - 2]);
        }
    }
}

/// A stop that is seen before the groups are read, before a group is prepared or
/// before a session is closed ends the round. One that is seen between offers only
/// leaves the other offers of that group.
pub proof fn law_a_stop_ends_the_round(enabled: bool, run: Seq<Step>)
    requires
        plays(enabled, run),
        run.len() > 0,
        run.last().action == Action::ReadStop,
        run.last().answer == AnswerModel::Stop(true),
    ensures
        ({
            let t = tally(run.drop_last());
            let next = next_action(enabled, run);
            ||| next == Action::Finish(Ok(()))
            ||| {
                &&& t.planned.len() > 0
                &&& t.prepared.len() > 0
                &&& t.planned.last() == t.prepared.last()
                &&& t.offers.len() < t.total
                &&& t.expired.len() == 0
                &&& !t.stopped
                &&& next is ReadStop || next is ReadExpired
            }
        }),
{
    lemma_placed(enabled, run.drop_last());
    lemma_planned(enabled, run.drop_last());
}

/// While a migration's offers are made, its group is the last one that was prepared.
proof fn lemma_planned(enabled: bool, run: Seq<Step>)
    requires
        plays(enabled, run),
    ensures
        match reached(enabled, run).phase {
            Phase::Budgeting(_, _)
            | Phase::Checking(_, _)
            | Phase::Offering(_, _)
            | Phase::Accepting(_, _) => {
                let t = tally(run);
                t.planned.len() > 0 && t.prepared.len() > 0 && t.planned.last() == t.prepared.last()
            },
            _ => true,
        },
    decreases run.len(),
{
    if run.len() > 0 {
        lemma_planned(enabled, run.drop_last());
        lemma_placed(enabled, run.drop_last());
    }
}

/// An answer to anything but what was asked changes nothing, and one to it always
/// leads on.
pub proof fn law_only_what_was_asked_is_taken(m: RoundModel, answer: AnswerModel)
    requires
        m.wf(),
        answer matches AnswerModel::Groups(groups, _) ==> groups.len() <= usize::MAX,
        answer matches AnswerModel::Expired(sessions) ==> sessions.len() <= usize::MAX,
    ensures
        fits(m.action(), answer) <==> m.after(answer) != m,
{
}

/// A round that is called with one answer after the other plays the run of these
/// answers: it begins where every run begins, asks for what the run asks for next,
/// and with each answer takes the one step that the run takes.
pub proof fn law_calls_play_a_run(
    fresh: Round,
    round: &mut Round,
    enabled: bool,
    run: Seq<Step>,
    answer: Answer,
    asked: Action,
    r: (),
)
    requires
        call_ensures(Round::new, (enabled,), fresh),
        old(round)@ == reached(enabled, run),
        call_ensures(Round::action, (&*old(round),), asked),
        call_ensures(Round::handle, (round, answer), r),
    ensures
        fresh@ == reached(enabled, Seq::empty()),
        asked == next_action(enabled, run),
        final(round)@ == reached(enabled, run.push(Step { action: asked, answer: answer@ })),
{
    let longer = run.push(Step { action: asked, answer: answer@ });
    assert(longer.drop_last() =~= run);
}

} // verus!
