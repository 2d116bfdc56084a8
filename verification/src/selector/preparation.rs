//! One evaluation of a group under the router lock, as a machine: it chooses the
//! metrics, masks the members, evaluates the factors and prepares the migration
//! of the chosen pair.
use vstd::prelude::*;

use super::balance::{
    balance_mask, masked, prepare_balance, redirects_of, BalancePair, MetricUse, PreparedBalance,
    PreparedRedirect, Publication,
};
use super::round;
use super::{Member, RouteError};

verus! {

/// What an evaluation waits for.
#[derive(Clone, Copy, Debug, PartialEq, Eq)]
pub enum Phase {
    /// The metric publication is looked at.
    Reading,
    /// The metric publication is entered, if it is still current.
    Entering,
    /// The sources are checked with the metrics that will be used.
    Fencing(MetricUse),
    /// The members of the group are read.
    Listing(MetricUse),
    /// The factors are evaluated.
    Evaluating(MetricUse),
    /// The target of the chosen pair is looked for.
    Targeting(BalancePair),
    /// The sources are checked before anything is changed.
    Confirming,
    /// The factor history is kept.
    Keeping,
    /// The preparation may be used, or a check failed.
    Over(Result<(), RouteError>),
}

/// What is to be done for an evaluation.
#[derive(Clone, Copy, Debug, PartialEq, Eq)]
pub enum Action {
    /// Look at the candidate's metric publication.
    ReadMetrics,
    /// Enter the publication's fence, which is held until the preparation was
    /// used.
    EnterMetrics,
    /// Check that the captured sources are still current.
    Validate,
    /// Read every member of the group, unhealthy and draining ones too.
    ReadMembers,
    /// Evaluate the factors on the masked members.
    Evaluate(MetricUse),
    /// Look for the accounts of a pair and the physical sessions of its source.
    FindTarget(BalancePair),
    /// Keep the factor history.
    KeepFactors,
    /// Use the preparation, or return the error.
    Finish(Result<(), RouteError>),
}

/// The answer to an action.
#[derive(Debug)]
pub enum Answer {
    /// A check or the keeping.
    Done(Result<(), RouteError>),
    /// The metric publication.
    Metrics(Publication),
    /// Whether the publication was still current.
    Current(bool),
    /// Every member of the group.
    Members(Vec<Member>),
    /// The pair that the factors chose.
    Chosen(Option<BalancePair>),
    /// What was found for a pair.
    Target {
        /// Account of the source.
        source: u64,
        /// Account of the target, or why it is none.
        account: Result<u64, RouteError>,
        /// Physical sessions of the source, in order.
        sessions: Vec<u64>,
    },
}

/// What [`PreparedBalance`] holds.
#[verifier::ext_equal]
pub struct PlanModel {
    /// The chosen pair.
    pub pair: BalancePair,
    /// One preparation for each physical session of the source, in order.
    pub redirects: Seq<PreparedRedirect>,
}

/// What a preparation holds.
pub open spec fn plan_of(prepared: Result<Option<PreparedBalance>, RouteError>) -> Result<
    Option<PlanModel>,
    RouteError,
> {
    match prepared {
        Ok(Some(plan)) => Ok(Some(PlanModel { pair: plan.pair, redirects: plan.redirects@ })),
        Ok(None) => Ok(None),
        Err(error) => Err(error),
    }
}

/// What [`Preparation`] holds.
#[verifier::ext_equal]
pub struct PreparationModel {
    /// What the evaluation waits for.
    pub phase: Phase,
    /// The health that balance sees of each member.
    pub mask: Seq<bool>,
    /// The pair that the factors chose.
    pub pair: Option<BalancePair>,
    /// What was prepared.
    pub plan: Result<Option<PlanModel>, RouteError>,
}

/// An evaluation of a group.
pub struct Preparation {
    phase: Phase,
    mask: Vec<bool>,
    pair: Option<BalancePair>,
    prepared: Result<Option<PreparedBalance>, RouteError>,
}

impl View for Preparation {
    type V = PreparationModel;

    closed spec fn view(&self) -> PreparationModel {
        PreparationModel {
            phase: self.phase,
            mask: self.mask@,
            pair: self.pair,
            plan: plan_of(self.prepared),
        }
    }
}

impl PreparationModel {
    /// An evaluation that has not begun.
    pub open spec fn initial() -> PreparationModel {
        PreparationModel { phase: Phase::Reading, mask: seq![], pair: None, plan: Ok(None) }
    }

    /// The evaluation in another phase.
    pub open spec fn at(self, phase: Phase) -> PreparationModel {
        PreparationModel { phase, ..self }
    }

    /// What is to be done next.
    pub open spec fn action(self) -> Action {
        match self.phase {
            Phase::Reading => Action::ReadMetrics,
            Phase::Entering => Action::EnterMetrics,
            Phase::Fencing(_) | Phase::Confirming => Action::Validate,
            Phase::Listing(_) => Action::ReadMembers,
            Phase::Evaluating(metrics) => Action::Evaluate(metrics),
            Phase::Targeting(pair) => Action::FindTarget(pair),
            Phase::Keeping => Action::KeepFactors,
            Phase::Over(result) => Action::Finish(result),
        }
    }

    /// The evaluation after an answer. Any answer but the one that it waits for
    /// leaves it as it is.
    pub open spec fn after(self, answer: Answer) -> PreparationModel {
        match (self.phase, answer) {
            (Phase::Reading, Answer::Metrics(publication)) => if publication.usable() {
                self.at(Phase::Entering)
            } else {
                self.at(Phase::Fencing(MetricUse::Absent))
            },
            (Phase::Entering, Answer::Current(current)) => if current {
                self.at(Phase::Fencing(MetricUse::Current))
            } else {
                self.at(Phase::Fencing(MetricUse::Absent))
            },
            (Phase::Fencing(metrics), Answer::Done(Ok(_))) => self.at(Phase::Listing(metrics)),
            (Phase::Confirming, Answer::Done(Ok(_))) => self.at(Phase::Keeping),
            (Phase::Fencing(_), Answer::Done(Err(error)))
            | (Phase::Confirming, Answer::Done(Err(error))) => self.at(Phase::Over(Err(error))),
            (Phase::Listing(metrics), Answer::Members(members)) => PreparationModel {
                phase: Phase::Evaluating(metrics),
                mask: masked(members@),
                ..self
            },
            (Phase::Evaluating(_), Answer::Chosen(pair)) => PreparationModel {
                phase: match pair {
                    Some(pair) => Phase::Targeting(pair),
                    None => Phase::Confirming,
                },
                pair,
                ..self
            },
            (Phase::Targeting(pair), Answer::Target { source, account, sessions }) => {
                PreparationModel {
                    phase: Phase::Confirming,
                    plan: match account {
                        Ok(target) => Ok(
                            Some(
                                PlanModel {
                                    pair,
                                    redirects: redirects_of(sessions@, source, target, pair.to),
                                },
                            ),
                        ),
                        Err(error) => Err(error),
                    },
                    ..self
                }
            },
            (Phase::Keeping, Answer::Done(_)) => self.at(Phase::Over(Ok(()))),
            _ => self,
        }
    }

    /// What a round is told of the evaluation once it is over: a failed check as
    /// such, and otherwise how many redirects were prepared.
    pub open spec fn summary(self) -> round::AnswerModel {
        match self.phase {
            Phase::Over(Err(error)) => round::AnswerModel::Done(Err(error)),
            _ => round::AnswerModel::Prepared(
                match self.plan {
                    Ok(Some(plan)) => Ok(Some(plan.redirects.len() as usize)),
                    Ok(None) => Ok(None),
                    Err(error) => Err(error),
                },
                self.pair is Some,
            ),
        }
    }
}

impl Preparation {
    /// An evaluation that has not begun.
    pub fn new() -> (r: Self)
        ensures
            r@ == PreparationModel::initial(),
    {
        let r = Preparation {
            phase: Phase::Reading,
            mask: Vec::new(),
            pair: None,
            prepared: Ok(None),
        };
        assert(r@ =~= PreparationModel::initial());
        r
    }

    /// What is to be done next.
    pub fn action(&self) -> (r: Action)
        ensures
            r == self@.action(),
    {
        match self.phase {
            Phase::Reading => Action::ReadMetrics,
            Phase::Entering => Action::EnterMetrics,
            Phase::Fencing(_) | Phase::Confirming => Action::Validate,
            Phase::Listing(_) => Action::ReadMembers,
            Phase::Evaluating(metrics) => Action::Evaluate(metrics),
            Phase::Targeting(pair) => Action::FindTarget(pair),
            Phase::Keeping => Action::KeepFactors,
            Phase::Over(result) => Action::Finish(result),
        }
    }

    /// The health that balance sees of each member.
    pub fn mask(&self) -> (r: &Vec<bool>)
        ensures
            r@ == self@.mask,
    {
        &self.mask
    }

    /// The pair that the factors chose.
    pub fn pair(&self) -> (r: Option<BalancePair>)
        ensures
            r == self@.pair,
    {
        self.pair
    }

    /// The prepared migration, if there is one.
    pub fn plan(&self) -> (r: Option<&PreparedBalance>)
        ensures
            match self@.plan {
                Ok(Some(plan)) => r matches Some(p) && p.pair == plan.pair && p.redirects@
                    == plan.redirects,
                _ => r is None,
            },
    {
        match &self.prepared {
            Ok(Some(plan)) => Some(plan),
            _ => None,
        }
    }

    /// What a round is told of the evaluation once it is over.
    pub fn summary(&self) -> (r: round::Answer)
        ensures
            r@ == self@.summary(),
    {
        match self.phase {
            Phase::Over(Err(error)) => round::Answer::Done(Err(error)),
            _ => {
                let outcome = match &self.prepared {
                    Ok(Some(plan)) => Ok(Some(plan.redirects.len())),
                    Ok(None) => Ok(None),
                    Err(error) => Err(*error),
                };
                round::Answer::Prepared { outcome, paired: self.pair.is_some() }
            },
        }
    }

    /// Take the answer to the last action.
    pub fn handle(&mut self, answer: Answer)
        ensures
            final(self)@ == old(self)@.after(answer),
    {
        let ghost before = self@;
        let ghost taken = answer;
        let phase = self.phase;
        match (phase, answer) {
            (Phase::Reading, Answer::Metrics(publication)) => {
                self.phase = if publication.is_usable() {
                    Phase::Entering
                } else {
                    Phase::Fencing(MetricUse::Absent)
                };
            },
            (Phase::Entering, Answer::Current(current)) => {
                self.phase = if current {
                    Phase::Fencing(MetricUse::Current)
                } else {
                    Phase::Fencing(MetricUse::Absent)
                };
            },
            (Phase::Fencing(metrics), Answer::Done(Ok(_))) => {
                self.phase = Phase::Listing(metrics);
            },
            (Phase::Confirming, Answer::Done(Ok(_))) => {
                self.phase = Phase::Keeping;
            },
            (Phase::Fencing(_), Answer::Done(Err(error)))
            | (Phase::Confirming, Answer::Done(Err(error))) => {
                self.phase = Phase::Over(Err(error));
            },
            (Phase::Listing(metrics), Answer::Members(members)) => {
                self.mask = balance_mask(&members);
                self.phase = Phase::Evaluating(metrics);
            },
            (Phase::Evaluating(_), Answer::Chosen(pair)) => {
                self.pair = pair;
                self.phase = match pair {
                    Some(pair) => Phase::Targeting(pair),
                    None => Phase::Confirming,
                };
            },
            (Phase::Targeting(pair), Answer::Target { source, account, sessions }) => {
                self.prepared = prepare_balance(Some(pair), source, account, &sessions);
                self.phase = Phase::Confirming;
            },
            (Phase::Keeping, Answer::Done(_)) => {
                self.phase = Phase::Over(Ok(()));
            },
            _ => {},
        }
        proof {
            assert(self@ =~= before.after(taken));
        }
    }
}

/// The factor history is kept whatever became of the target: a refused pair does
/// not reset the history that it was chosen from.
pub proof fn law_refused_pair_keeps_its_factors(
    evaluation: PreparationModel,
    source: u64,
    account: Result<u64, RouteError>,
    sessions: Vec<u64>,
)
    requires
        evaluation.phase is Targeting,
    ensures
        evaluation.after(Answer::Target { source, account, sessions }).after(
            Answer::Done(Ok(())),
        ).action() is KeepFactors,
{
}

/// The factor history is only kept right after the sources were found current,
/// and nothing is kept once a check failed.
pub proof fn law_keeping_is_guarded(evaluation: PreparationModel, answer: Answer, error: RouteError)
    ensures
        evaluation.after(answer) != evaluation && evaluation.after(answer).action() is KeepFactors
            ==> evaluation.action() is Validate && (answer matches Answer::Done(result)
            && result is Ok),
        evaluation.action() is Validate ==> {
            let failed = evaluation.after(Answer::Done(Err(error)));
            failed.action() == Action::Finish(Err(error)) && failed.after(answer) == failed
        },
{
}

/// A group that can route is never evaluated on a mask that leaves it nothing to
/// route to.
pub proof fn law_evaluation_keeps_a_route(evaluation: PreparationModel, members: Vec<Member>)
    requires
        evaluation.phase is Listing,
        super::has_routeable(members@),
    ensures
        exists|i: int|
            0 <= i < members@.len() && (#[trigger] members@[i]).label_matches && evaluation.after(
                Answer::Members(members),
            ).mask[i],
{
    super::balance::law_mask_keeps_a_route(members@);
}

/// An evaluation that no check refuses uses the metrics exactly where there is a
/// readable publication of its own source that was still current. It masks a failed
/// member unless the group has routeable members and all of them failed, looks for
/// the target of the chosen pair and of no other, and keeps its factors. It prepares
/// one redirect of every session of the source to the target, in order, or has the
/// target's refusal.
pub proof fn law_evaluation_runs_through(
    publication: Publication,
    current: bool,
    members: Vec<Member>,
    pair: Option<BalancePair>,
    source: u64,
    account: Result<u64, RouteError>,
    sessions: Vec<u64>,
)
    requires
        sessions@.len() <= usize::MAX,
    ensures
        ({
            let usable = publication.present && publication.own_source && publication.readable;
            let ignored = (exists|i: int|
                0 <= i < members@.len() && (#[trigger] members@[i]).healthy
                    && members@[i].label_matches) && (forall|i: int|
                0 <= i < members@.len() && (#[trigger] members@[i]).healthy
                    && members@[i].label_matches ==> members@[i].failed);
            let read = PreparationModel::initial().after(Answer::Metrics(publication));
            let entered = if usable {
                read.after(Answer::Current(current))
            } else {
                read
            };
            let fenced = entered.after(Answer::Done(Ok(())));
            let masked = fenced.after(Answer::Members(members));
            let chosen = masked.after(Answer::Chosen(pair));
            let found = if pair is Some {
                chosen.after(Answer::Target { source, account, sessions })
            } else {
                chosen
            };
            let kept = found.after(Answer::Done(Ok(())));
            let over = kept.after(Answer::Done(Ok(())));
            &&& PreparationModel::initial().action() == Action::ReadMetrics
            &&& usable ==> read.action() == Action::EnterMetrics
            &&& entered.action() == Action::Validate
            &&& fenced.action() == Action::ReadMembers
            &&& masked.action() == Action::Evaluate(
                if usable && current {
                    MetricUse::Current
                } else {
                    MetricUse::Absent
                },
            )
            &&& masked.mask.len() == members@.len()
            &&& forall|i: int|
                0 <= i < members@.len() ==> (#[trigger] masked.mask[i] <==> members@[i].healthy && (
                ignored || !members@[i].failed))
            &&& pair matches Some(pair) ==> chosen.action() == Action::FindTarget(pair)
            &&& found.action() == Action::Validate
            &&& kept.action() == Action::KeepFactors
            &&& over.action() == Action::Finish(Ok(()))
            &&& over.pair == pair
            &&& over.mask == masked.mask
            &&& match (pair, account) {
                (None, _) => over.plan == Ok::<Option<PlanModel>, RouteError>(None)
                    && over.summary() == round::AnswerModel::Prepared(Ok(None), false),
                (Some(_), Err(error)) => over.plan == Err::<Option<PlanModel>, RouteError>(error)
                    && over.summary() == round::AnswerModel::Prepared(Err(error), true),
                (Some(pair), Ok(target)) => {
                    &&& over.plan matches Ok(Some(plan))
                    &&& plan.pair == pair
                    &&& plan.redirects.len() == sessions@.len()
                    &&& forall|i: int|
                        0 <= i < sessions@.len() ==> #[trigger] plan.redirects[i] == (
                        PreparedRedirect {
                            session: sessions@[i],
                            source,
                            target,
                            target_id: pair.to,
                        })
                    &&& over.summary() == round::AnswerModel::Prepared(
                        Ok(Some(sessions@.len() as usize)),
                        true,
                    )
                },
            }
        }),
{
    let usable = publication.present && publication.own_source && publication.readable;
    let read = PreparationModel::initial().after(Answer::Metrics(publication));
    let entered = if usable {
        read.after(Answer::Current(current))
    } else {
        read
    };
    let masked = entered.after(Answer::Done(Ok(()))).after(Answer::Members(members));
    let ignored = (exists|i: int|
        0 <= i < members@.len() && (#[trigger] members@[i]).healthy && members@[i].label_matches)
        && (forall|i: int|
        0 <= i < members@.len() && (#[trigger] members@[i]).healthy && members@[i].label_matches
            ==> members@[i].failed);
    assert(super::has_routeable(members@) == (exists|i: int|
        0 <= i < members@.len() && (#[trigger] members@[i]).healthy && members@[i].label_matches)) by {
        if exists|i: int|
            0 <= i < members@.len() && (#[trigger] members@[i]).healthy && members@[i].label_matches {
            let i = choose|i: int|
                0 <= i < members@.len() && (#[trigger] members@[i]).healthy
                    && members@[i].label_matches;
            assert(members@[i].routeable());
        }
    }
    assert(super::ignores_failed(members@) == ignored) by {
        if super::ignores_failed(members@) {
            assert forall|i: int|
                0 <= i < members@.len() && (#[trigger] members@[i]).healthy
                    && members@[i].label_matches implies members@[i].failed by {
                assert(members@[i].routeable());
            }
        }
    }
    assert(masked.mask =~= super::balance::masked(members@));
}

/// A check that fails ends an evaluation with its error, and a round is told of that
/// error and of nothing else.
pub proof fn law_failed_checks_are_passed_on(evaluation: PreparationModel, error: RouteError)
    requires
        evaluation.action() is Validate,
    ensures
        evaluation.after(Answer::Done(Err(error))).summary() == round::AnswerModel::Done(Err(error)),
        evaluation.after(Answer::Done(Err(error))).plan == evaluation.plan,
        evaluation.after(Answer::Done(Err(error))).pair == evaluation.pair,
{
}

/// An evaluation takes the answer to what it asked for and no other, and what is over
/// takes none. Only the members set its mask, only the choice its pair, and only the
/// target its plan.
pub proof fn law_only_what_was_asked_is_taken(evaluation: PreparationModel, answer: Answer)
    ensures
        evaluation.after(answer) != evaluation ==> match evaluation.action() {
            Action::ReadMetrics => answer is Metrics,
            Action::EnterMetrics => answer is Current,
            Action::Validate => answer is Done,
            Action::ReadMembers => answer is Members,
            Action::Evaluate(_) => answer is Chosen,
            Action::FindTarget(_) => answer is Target,
            Action::KeepFactors => answer is Done,
            Action::Finish(_) => false,
        },
        evaluation.after(answer).mask != evaluation.mask ==> answer is Members,
        evaluation.after(answer).pair != evaluation.pair ==> answer is Chosen,
        evaluation.after(answer).plan != evaluation.plan ==> answer is Target,
{
}

/// Keeping the factors ends an evaluation, whatever became of it.
pub proof fn law_keeping_ends_an_evaluation(evaluation: PreparationModel, result: Result<(), RouteError>)
    requires
        evaluation.action() is KeepFactors,
    ensures
        evaluation.after(Answer::Done(result)).action() == Action::Finish(Ok(())),
        evaluation.after(Answer::Done(result)).plan == evaluation.plan,
        evaluation.after(Answer::Done(result)).pair == evaluation.pair,
{
}

/// An evaluation is moved by each answer that it is called with, once.
pub proof fn law_calls_move_an_evaluation(evaluation: &mut Preparation, answer: Answer, r: ())
    requires
        call_ensures(Preparation::handle, (evaluation, answer), r),
    ensures
        final(evaluation)@ == old(evaluation)@.after(answer),
{
}

} // verus!
