//! One refresh of the failover clocks under the router lock, as a machine: what
//! it waits for next, and what an answer makes of it.
use vstd::prelude::*;

use super::balance::{MetricUse, Publication};
use super::scheduler::{effective, prepare_failover, scorings, views, FailoverUpdate, GroupMembers, ScoringModel};
use super::RouteError;

verus! {

/// What a refresh waits for.
#[derive(Clone, Copy, Debug, PartialEq, Eq)]
pub enum Phase {
    /// The captured sources are checked before anything is read.
    Validating,
    /// The sources are taken over.
    Refreshing,
    /// The sources are checked again.
    Revalidating,
    /// The wall clock is read.
    Timing,
    /// The metric publication is looked at.
    Reading,
    /// The metric publication is entered, if it is still current.
    Entering,
    /// The sources are checked with the metrics that will be used.
    Fencing(MetricUse),
    /// The members of every group are read and scored.
    Scoring(MetricUse),
    /// The sources are checked before anything is changed.
    Confirming,
    /// The update is applied.
    Applying,
    /// The refresh is over.
    Over(Result<(), RouteError>),
}

/// What is to be done for a refresh.
#[derive(Clone, Copy, Debug, PartialEq, Eq)]
pub enum Action {
    /// Check that the captured sources are still current.
    Validate,
    /// Take the captured sources over.
    Refresh,
    /// Read the wall clock.
    ReadClock,
    /// Look at the candidate's metric publication.
    ReadMetrics,
    /// Enter the publication's fence, which is held until the refresh is over.
    EnterMetrics,
    /// Read the members of every group.
    ReadMembers,
    /// Score the update's passes and change the clocks.
    Apply,
    /// Leave every fence and return.
    Finish(Result<(), RouteError>),
}

/// The answer to an action.
#[derive(Debug)]
pub enum Answer {
    /// A check, a refresh, the clock or the application.
    Done(Result<(), RouteError>),
    /// The metric publication.
    Metrics(Publication),
    /// Whether the publication was still current.
    Current(bool),
    /// The members of every group, in group order.
    Members(Vec<GroupMembers>),
}

/// What a refresh changes, as a value.
#[verifier::ext_equal]
pub struct UpdateModel {
    /// Scoring passes, in group order.
    pub scorings: Seq<ScoringModel>,
    /// Backends whose failure takes effect.
    pub effective: Seq<u64>,
}

/// What [`Failover`] holds.
#[verifier::ext_equal]
pub struct FailoverModel {
    /// The policy reads no metrics.
    pub connection: bool,
    /// What the refresh waits for.
    pub phase: Phase,
    /// What it changes, once the members were read.
    pub update: Option<UpdateModel>,
}

/// A refresh of the failover clocks.
pub struct Failover {
    connection: bool,
    phase: Phase,
    update: Option<FailoverUpdate>,
}

impl View for Failover {
    type V = FailoverModel;

    closed spec fn view(&self) -> FailoverModel {
        FailoverModel {
            connection: self.connection,
            phase: self.phase,
            update: match self.update {
                Some(update) => Some(
                    UpdateModel {
                        scorings: views(update.scorings@),
                        effective: update.effective@,
                    },
                ),
                None => None,
            },
        }
    }
}

impl FailoverModel {
    /// The refresh in another phase.
    pub open spec fn at(self, phase: Phase) -> FailoverModel {
        FailoverModel { phase, ..self }
    }

    /// What is to be done next.
    pub open spec fn action(self) -> Action {
        match self.phase {
            Phase::Validating | Phase::Revalidating | Phase::Fencing(_) | Phase::Confirming => {
                Action::Validate
            },
            Phase::Refreshing => Action::Refresh,
            Phase::Timing => Action::ReadClock,
            Phase::Reading => Action::ReadMetrics,
            Phase::Entering => Action::EnterMetrics,
            Phase::Scoring(_) => Action::ReadMembers,
            Phase::Applying => Action::Apply,
            Phase::Over(result) => Action::Finish(result),
        }
    }

    /// The phase after a successful step.
    pub open spec fn passed(self) -> Phase {
        match self.phase {
            Phase::Validating => Phase::Refreshing,
            Phase::Refreshing => Phase::Revalidating,
            Phase::Revalidating => Phase::Timing,
            Phase::Timing => if self.connection {
                Phase::Fencing(MetricUse::Absent)
            } else {
                Phase::Reading
            },
            Phase::Fencing(metrics) => Phase::Scoring(metrics),
            Phase::Confirming => Phase::Applying,
            Phase::Applying => Phase::Over(Ok(())),
            other => other,
        }
    }

    /// Whether the refresh waits for a step that can fail.
    pub open spec fn fallible(self) -> bool {
        match self.phase {
            Phase::Reading | Phase::Entering | Phase::Scoring(_) | Phase::Over(_) => false,
            _ => true,
        }
    }

    /// The refresh after an answer. Any answer but the one that it waits for
    /// leaves it as it is.
    pub open spec fn after(self, answer: Answer) -> FailoverModel {
        match (self.phase, answer) {
            (_, Answer::Done(Ok(_))) => self.at(self.passed()),
            (_, Answer::Done(Err(error))) => if self.fallible() {
                self.at(Phase::Over(Err(error)))
            } else {
                self
            },
            (Phase::Reading, Answer::Metrics(publication)) => if publication.usable() {
                self.at(Phase::Entering)
            } else {
                self.at(Phase::Fencing(MetricUse::Absent))
            },
            (Phase::Entering, Answer::Current(current)) => if current {
                self.at(Phase::Fencing(MetricUse::Current))
            } else {
                self.at(Phase::Fencing(MetricUse::Absent))
            },
            (Phase::Scoring(metrics), Answer::Members(groups)) => FailoverModel {
                phase: Phase::Confirming,
                update: Some(
                    UpdateModel {
                        scorings: scorings(groups@, groups@.len() as int, self.connection, metrics),
                        effective: effective(groups@, groups@.len() as int),
                    },
                ),
                ..self
            },
            _ => self,
        }
    }
}

impl Failover {
    /// A refresh that has not begun. A connection policy reads no metrics.
    pub fn new(connection: bool) -> (r: Self)
        ensures
            r@ == (FailoverModel { connection, phase: Phase::Validating, update: None }),
    {
        Failover { connection, phase: Phase::Validating, update: None }
    }

    /// What is to be done next.
    pub fn action(&self) -> (r: Action)
        ensures
            r == self@.action(),
    {
        match self.phase {
            Phase::Validating | Phase::Revalidating | Phase::Fencing(_) | Phase::Confirming => {
                Action::Validate
            },
            Phase::Refreshing => Action::Refresh,
            Phase::Timing => Action::ReadClock,
            Phase::Reading => Action::ReadMetrics,
            Phase::Entering => Action::EnterMetrics,
            Phase::Scoring(_) => Action::ReadMembers,
            Phase::Applying => Action::Apply,
            Phase::Over(result) => Action::Finish(result),
        }
    }

    /// What the refresh changes, once the members were read.
    pub fn update(&self) -> (r: Option<&FailoverUpdate>)
        ensures
            match (r, self@.update) {
                (Some(update), Some(model)) => views(update.scorings@) == model.scorings
                    && update.effective@ == model.effective,
                (None, None) => true,
                _ => false,
            },
    {
        self.update.as_ref()
    }

    fn pass(&self) -> (r: Phase)
        ensures
            r == self@.passed(),
    {
        match self.phase {
            Phase::Validating => Phase::Refreshing,
            Phase::Refreshing => Phase::Revalidating,
            Phase::Revalidating => Phase::Timing,
            Phase::Timing => if self.connection {
                Phase::Fencing(MetricUse::Absent)
            } else {
                Phase::Reading
            },
            Phase::Fencing(metrics) => Phase::Scoring(metrics),
            Phase::Confirming => Phase::Applying,
            Phase::Applying => Phase::Over(Ok(())),
            other => other,
        }
    }

    fn can_fail(&self) -> (r: bool)
        ensures
            r == self@.fallible(),
    {
        match self.phase {
            Phase::Reading | Phase::Entering | Phase::Scoring(_) | Phase::Over(_) => false,
            _ => true,
        }
    }

    /// Take the answer to the last action.
    pub fn handle(&mut self, answer: Answer)
        ensures
            final(self)@ == old(self)@.after(answer),
    {
        let ghost before = self@;
        let ghost taken = answer;
        let phase = self.phase;
        match (phase, answer) {
            (_, Answer::Done(Ok(_))) => {
                self.phase = self.pass();
            },
            (_, Answer::Done(Err(error))) => if self.can_fail() {
                self.phase = Phase::Over(Err(error));
            },
            (Phase::Reading, Answer::Metrics(publication)) => {
                self.phase = if publication.is_usable() {
                    Phase::Entering
                } else {
                    Phase::Fencing(MetricUse::Absent)
                };
            },
            (Phase::Entering, Answer::Current(current)) => {
                self.phase = if current {
                    Phase::Fencing(MetricUse::Current)
                } else {
                    Phase::Fencing(MetricUse::Absent)
                };
            },
            (Phase::Scoring(metrics), Answer::Members(groups)) => {
                self.update = Some(prepare_failover(&groups, self.connection, metrics));
                self.phase = Phase::Confirming;
            },
            _ => {},
        }
        proof {
            assert(self@ =~= before.after(taken));
        }
    }
}

/// The clocks only change right after the sources were found current.
pub proof fn law_apply_is_guarded(refresh: FailoverModel, answer: Answer)
    requires
        refresh.after(answer) != refresh,
        refresh.after(answer).action() is Apply,
    ensures
        refresh.action() is Validate,
        answer matches Answer::Done(result) && result is Ok,
{
}

/// A failed step ends the refresh with its error.
pub proof fn law_failures_end_a_refresh(refresh: FailoverModel, error: RouteError)
    requires
        refresh.fallible(),
    ensures
        refresh.after(Answer::Done(Err(error))).action() == Action::Finish(Err(error)),
        refresh.after(Answer::Done(Err(error))).update == refresh.update,
{
}

/// A connection policy never looks at the metrics.
pub proof fn law_connection_reads_no_metrics(refresh: FailoverModel, answer: Answer)
    requires
        refresh.connection,
        !(refresh.action() is ReadMetrics),
        !(refresh.action() is EnterMetrics),
    ensures
        refresh.after(answer).connection,
        !(refresh.after(answer).action() is ReadMetrics),
        !(refresh.after(answer).action() is EnterMetrics),
{
}

/// Metrics are only used where the publication was usable and still current
/// when it was entered.
pub proof fn law_only_current_metrics_are_used(refresh: FailoverModel, answer: Answer)
    requires
        refresh.after(answer) != refresh,
        refresh.after(answer).phase == Phase::Fencing(MetricUse::Current),
    ensures
        refresh.phase is Entering,
        answer == Answer::Current(true),
{
}

/// A refresh that nothing refuses checks its sources, takes them over and checks them
/// again, reads the clock, and uses the metrics exactly where its policy reads them
/// and there is a readable publication of its own source that was still current. It
/// checks its sources twice more, before the members are read and before the update
/// is applied, and that update is the one of the members that were read.
pub proof fn law_refresh_runs_through(
    connection: bool,
    publication: Publication,
    current: bool,
    groups: Vec<GroupMembers>,
)
    ensures
        ({
            let done = Answer::Done(Ok(()));
            let usable = publication.present && publication.own_source && publication.readable;
            let used = if !connection && usable && current {
                MetricUse::Current
            } else {
                MetricUse::Absent
            };
            let first = FailoverModel { connection, phase: Phase::Validating, update: None };
            let second = first.after(done);
            let third = second.after(done);
            let fourth = third.after(done);
            let timed = fourth.after(done);
            let read = if connection {
                timed
            } else {
                timed.after(Answer::Metrics(publication))
            };
            let entered = if !connection && usable {
                read.after(Answer::Current(current))
            } else {
                read
            };
            let fenced = entered.after(done);
            let scored = fenced.after(Answer::Members(groups));
            let applied = scored.after(done);
            &&& first.action() == Action::Validate
            &&& second.action() == Action::Refresh
            &&& third.action() == Action::Validate
            &&& fourth.action() == Action::ReadClock
            &&& !connection ==> timed.action() == Action::ReadMetrics
            &&& !connection && usable ==> read.action() == Action::EnterMetrics
            &&& entered.action() == Action::Validate
            &&& fenced.action() == Action::ReadMembers
            &&& fenced.update is None
            &&& scored.action() == Action::Validate
            &&& applied.action() == Action::Apply
            &&& applied.update == Some(
                UpdateModel {
                    scorings: scorings(groups@, groups@.len() as int, connection, used),
                    effective: effective(groups@, groups@.len() as int),
                },
            )
            &&& applied.after(done).action() == Action::Finish(Ok(()))
        }),
{
}

/// A check, a takeover, a clock reading or an application that fails ends the refresh
/// with its error, with nothing changed, and nothing moves it after that.
pub proof fn law_failed_steps_end_a_refresh(refresh: FailoverModel, error: RouteError, answer: Answer)
    requires
        refresh.action() is Validate || refresh.action() is Refresh || refresh.action() is ReadClock
            || refresh.action() is Apply,
    ensures
        refresh.after(Answer::Done(Err(error))).action() == Action::Finish(Err(error)),
        refresh.after(Answer::Done(Err(error))).update == refresh.update,
        refresh.after(Answer::Done(Err(error))).after(answer) == refresh.after(
            Answer::Done(Err(error)),
        ),
{
}

/// A refresh takes the answer to what it asked for and no other: a step answers a
/// step, metrics a reading of them, their currency an entry, and members a listing;
/// and what is over takes none.
pub proof fn law_only_what_was_asked_is_taken(refresh: FailoverModel, answer: Answer)
    ensures
        refresh.after(answer) != refresh ==> match refresh.action() {
            Action::Validate => answer is Done,
            Action::Refresh => answer is Done,
            Action::ReadClock => answer is Done,
            Action::Apply => answer is Done,
            Action::ReadMetrics => answer is Metrics,
            Action::EnterMetrics => answer is Current,
            Action::ReadMembers => answer is Members,
            Action::Finish(_) => false,
        },
        refresh.after(answer).update != refresh.update ==> refresh.action() is ReadMembers,
        refresh.after(answer).connection == refresh.connection,
{
}

/// A refresh is moved by each answer that it is called with, once.
pub proof fn law_calls_move_a_refresh(
    fresh: Failover,
    refresh: &mut Failover,
    connection: bool,
    answer: Answer,
    r: (),
)
    requires
        call_ensures(Failover::new, (connection,), fresh),
        call_ensures(Failover::handle, (refresh, answer), r),
    ensures
        fresh@ == (FailoverModel { connection, phase: Phase::Validating, update: None }),
        final(refresh)@ == old(refresh)@.after(answer),
{
}

} // verus!
