//! Router pass order, independent of individual Group transactions. The actual
//! Go loop balances every group first, then closes every group. Production
//! integration must feed only committed Group callers into this tracker.
use vstd::prelude::*;

use crate::shadow::{Epoch, InvalidReason};
use crate::slices;

verus! {

/// Frozen caller metadata group bound.
pub const MAX_GROUPS: usize = 64;

/// Bounded ordered group inventory. Construction does not create domain groups.
#[derive(Clone, Copy, Debug, PartialEq, Eq)]
pub struct Groups {
    ids: [u64; 64],
    len: usize,
}

impl View for Groups {
    type V = Seq<u64>;

    closed spec fn view(&self) -> Seq<u64> {
        self.ids@.take(self.len as int)
    }
}

impl Groups {
    /// The inventory fits its storage and names no group twice.
    pub closed spec fn wf(&self) -> bool {
        self.len <= 64 && slices::identities(self@)
    }

    /// The inventory of a well-formed value is bounded and names no group twice.
    pub proof fn lemma_wf(&self)
        requires
            self.wf(),
        ensures
            self@.len() <= MAX_GROUPS,
            slices::identities(self@),
    {
    }

    /// Copy an already-derived inventory or a wire witness, keeping their roles
    /// separate at the comparison call site.
    pub fn new(ids: &[u64]) -> (r: Result<Self, InvalidReason>)
        ensures
            ids@.len() > MAX_GROUPS ==> r == Err::<Self, InvalidReason>(InvalidReason::Capacity),
            ids@.len() <= MAX_GROUPS && !slices::identities(ids@) ==> r == Err::<
                Self,
                InvalidReason,
            >(InvalidReason::Identity),
            ids@.len() <= MAX_GROUPS && slices::identities(ids@) ==> r is Ok,
            r matches Ok(groups) ==> groups.wf() && groups@ == ids@,
    {
        if ids.len() > MAX_GROUPS {
            return Err(InvalidReason::Capacity);
        }
        if !slices::are_identities(ids) {
            return Err(InvalidReason::Identity);
        }
        let mut value = Groups { ids: [0u64; 64], len: ids.len() };
        let mut index: usize = 0;
        while index < ids.len()
            invariant
                index <= ids@.len() <= 64,
                value.len == ids@.len(),
                forall|i: int| 0 <= i < index ==> value.ids@[i] == ids@[i],
            decreases ids@.len() - index,
        {
            value.ids[index] = ids[index];
            index = index + 1;
        }
        assert(value@ =~= ids@);
        Ok(value)
    }

    /// Actual iteration order, without unused storage.
    pub fn as_slice(&self) -> (r: &[u64])
        requires
            self.wf(),
        ensures
            r@ == self@,
    {
        let all: &[u64] = &self.ids;
        vstd::slice::slice_subrange(all, 0, self.len)
    }
}

/// Header captured once while holding the existing router lock.
#[derive(Clone, Copy, Debug, PartialEq, Eq)]
pub struct Begin {
    /// Monotonic nonzero pass incarnation for this owner.
    pub pass: u64,
    /// Actual gate read, checked against retained configuration.
    pub support_redirection: bool,
    /// Actual order witness, checked against retained metadata order.
    pub groups: Groups,
}

/// Tail witnesses count completed Group calls, including calls doing no work.
#[derive(Clone, Copy, Debug, PartialEq, Eq, Structural)]
pub struct End {
    /// The open pass incarnation.
    pub pass: u64,
    /// Completed balance calls, zero when redirection is disabled.
    pub balanced: u16,
    /// Completed close calls, independent of the redirection gate.
    pub closed: u16,
}

/// Typed pass boundary. Neither variant carries children or creates groups.
#[derive(Clone, Copy, Debug, PartialEq, Eq)]
pub enum Event {
    /// Open the router pass before the first Group call.
    Begin(Begin),
    /// Close only after all expected Group callers committed.
    End(End),
}

/// One sequence point between, rather than across, Group transactions.
#[derive(Clone, Copy, Debug, PartialEq, Eq)]
pub struct Boundary {
    /// Full captured namespace identity.
    pub epoch: Epoch,
    /// Exactly one contiguous sequence point; span is always one.
    pub sequence: u64,
    /// Independently checked header or tail.
    pub event: Event,
}

/// Caller kind observed only after its atomic final comparison succeeded.
#[derive(Clone, Copy, Debug, PartialEq, Eq, Structural)]
pub enum Phase {
    /// A complete Group Balance, including a zero-rate early return.
    Balance,
    /// A complete Group Close, including no timed-out sessions.
    Close,
}

/// One Group call of a pass.
pub struct Visit {
    /// What the call does.
    pub phase: Phase,
    /// The group that it is for.
    pub group: u64,
}

/// The balances of a pass, none where redirection is disabled.
pub open spec fn balances(support_redirection: bool, groups: Seq<u64>) -> Seq<Visit> {
    if support_redirection {
        groups.map_values(|group: u64| Visit { phase: Phase::Balance, group })
    } else {
        Seq::empty()
    }
}

/// The closes of a pass.
pub open spec fn closes(groups: Seq<u64>) -> Seq<Visit> {
    groups.map_values(|group: u64| Visit { phase: Phase::Close, group })
}

/// Every Group call of a pass, in order.
pub open spec fn schedule(support_redirection: bool, groups: Seq<u64>) -> Seq<Visit> {
    balances(support_redirection, groups) + closes(groups)
}

/// A pass that has begun.
#[verifier::ext_equal]
pub struct Running {
    /// The pass incarnation.
    pub pass: u64,
    /// Whether groups are balanced.
    pub support_redirection: bool,
    /// The groups, in order.
    pub groups: Seq<u64>,
    /// Group calls that completed.
    pub completed: nat,
}

impl Running {
    /// Every Group call of the pass, in order.
    pub open spec fn schedule(self) -> Seq<Visit> {
        schedule(self.support_redirection, self.groups)
    }
}

/// What [`Tracker`] holds.
#[verifier::ext_equal]
pub struct TrackerModel {
    /// The last completed pass.
    pub last_pass: u64,
    /// The pass that is open.
    pub open: Option<Running>,
    /// The first failure.
    pub failed: Option<InvalidReason>,
}

impl TrackerModel {
    /// Before the first pass.
    pub open spec fn initial() -> TrackerModel {
        TrackerModel { last_pass: 0, open: None, failed: None }
    }

    /// The tracker after a failure: only the first one is kept.
    pub open spec fn poisoned(self, reason: InvalidReason) -> TrackerModel {
        match self.failed {
            Some(_) => self,
            None => TrackerModel { failed: Some(reason), ..self },
        }
    }

    /// Why a pass cannot begin, if it cannot.
    pub open spec fn begin_refusal(
        self,
        begin: Begin,
        known_groups: Seq<u64>,
        known_redirection: bool,
    ) -> Option<InvalidReason> {
        if self.failed is Some {
            self.failed
        } else if self.open is Some {
            Some(InvalidReason::Lifecycle)
        } else if self.last_pass + 1 != begin.pass {
            Some(InvalidReason::Sequence)
        } else if begin.groups@ != known_groups || begin.support_redirection
            != known_redirection {
            Some(InvalidReason::Witness)
        } else {
            None
        }
    }

    /// The tracker after a pass began.
    pub open spec fn begun(self, begin: Begin) -> TrackerModel {
        TrackerModel {
            open: Some(
                Running {
                    pass: begin.pass,
                    support_redirection: begin.support_redirection,
                    groups: begin.groups@,
                    completed: 0,
                },
            ),
            ..self
        }
    }

    /// Why a Group call is out of place, if it is.
    pub open spec fn group_refusal(self, pass: u64, phase: Phase, group: u64) -> Option<
        InvalidReason,
    > {
        match (self.failed, self.open) {
            (Some(reason), _) => Some(reason),
            (None, None) => Some(InvalidReason::Lifecycle),
            (None, Some(running)) => if pass != running.pass {
                Some(InvalidReason::Identity)
            } else if running.completed >= running.schedule().len()
                || running.schedule()[running.completed as int] != (Visit { phase, group }) {
                Some(InvalidReason::Witness)
            } else {
                None
            },
        }
    }

    /// The tracker after a Group call.
    pub open spec fn visited(self) -> TrackerModel {
        TrackerModel {
            open: Some(Running { completed: self.open->0.completed + 1, ..self.open->0 }),
            ..self
        }
    }

    /// Why a pass cannot end, if it cannot.
    pub open spec fn end_refusal(self, end: End) -> Option<InvalidReason> {
        match (self.failed, self.open) {
            (Some(reason), _) => Some(reason),
            (None, None) => Some(InvalidReason::Lifecycle),
            (None, Some(running)) => if end.pass != running.pass {
                Some(InvalidReason::Identity)
            } else if running.completed != running.schedule().len() || end.balanced != balances(
                running.support_redirection,
                running.groups,
            ).len() || end.closed != closes(running.groups).len() {
                Some(InvalidReason::Witness)
            } else {
                None
            },
        }
    }

    /// The tracker after a pass ended.
    pub open spec fn ended(self) -> TrackerModel {
        TrackerModel { last_pass: self.open->0.pass, open: None, ..self }
    }

    /// Why the history is not complete, if it is not.
    pub open spec fn tail_refusal(self) -> Option<InvalidReason> {
        if self.failed is Some {
            self.failed
        } else if self.open is Some {
            Some(InvalidReason::Lifecycle)
        } else {
            None
        }
    }
}

struct Open {
    begin: Begin,
    completed: usize,
}

/// Fixed retention per owner. No eviction, queued callbacks or heap history.
/// The integration must add this full charge to R before creating the owner.
pub struct Tracker {
    last_pass: u64,
    open: Option<Open>,
    failed: Option<InvalidReason>,
}

impl View for Tracker {
    type V = TrackerModel;

    closed spec fn view(&self) -> TrackerModel {
        TrackerModel {
            last_pass: self.last_pass,
            open: match self.open {
                Some(open) => Some(
                    Running {
                        pass: open.begin.pass,
                        support_redirection: open.begin.support_redirection,
                        groups: open.begin.groups@,
                        completed: open.completed as nat,
                    },
                ),
                None => None,
            },
            failed: self.failed,
        }
    }
}

impl Default for Tracker {
    fn default() -> (r: Self)
        ensures
            r.wf(),
            r@ == TrackerModel::initial(),
    {
        Tracker { last_pass: 0, open: None, failed: None }
    }
}

impl Tracker {
    /// An open pass has completed no more calls than it has.
    pub closed spec fn wf(&self) -> bool {
        self.open matches Some(open) ==> open.begin.groups.wf() && open.completed
            <= 2 * open.begin.groups@.len()
    }

    /// Full fixed retained footprint, including an open 64-group pass.
    pub fn charge() -> (r: usize)
        ensures
            r == vstd::layout::size_of::<Tracker>(),
    {
        core::mem::size_of::<Tracker>()
    }

    /// The last completed pass.
    pub fn last_pass(&self) -> (r: u64)
        ensures
            r == self@.last_pass,
    {
        self.last_pass
    }

    /// How many Group calls of the open pass completed.
    pub fn completed(&self) -> (r: Option<usize>)
        ensures
            r is Some <==> self@.open is Some,
            r matches Some(n) ==> n == self@.open->0.completed,
    {
        match &self.open {
            Some(open) => Some(open.completed),
            None => None,
        }
    }

    fn poison(&mut self, reason: InvalidReason)
        requires
            old(self).wf(),
        ensures
            final(self).wf(),
            final(self)@ == old(self)@.poisoned(reason),
    {
        if self.failed.is_none() {
            self.failed = Some(reason);
        }
    }

    /// Compare a header against independently derived router metadata/config.
    /// The observed header must never be used as `known_groups` or to initialize
    /// that inventory. Only one pass may remain open per owner.
    pub fn begin(&mut self, begin: &Begin, known_groups: &Groups, known_redirection: bool) -> (r:
        Result<(), InvalidReason>)
        requires
            old(self).wf(),
            begin.groups.wf(),
            known_groups.wf(),
        ensures
            final(self).wf(),
            match old(self)@.begin_refusal(*begin, known_groups@, known_redirection) {
                Some(reason) => r == Err::<(), InvalidReason>(reason) && final(self)@ == old(
                    self,
                )@.poisoned(reason),
                None => r is Ok && final(self)@ == old(self)@.begun(*begin),
            },
    {
        let refusal = if self.failed.is_some() {
            self.failed
        } else if self.open.is_some() {
            Some(InvalidReason::Lifecycle)
        } else if self.last_pass.checked_add(1) != Some(begin.pass) {
            Some(InvalidReason::Sequence)
        } else if !slices::same(begin.groups.as_slice(), known_groups.as_slice())
            || begin.support_redirection != known_redirection {
            Some(InvalidReason::Witness)
        } else {
            None
        };
        if let Some(reason) = refusal {
            self.poison(reason);
            return Err(reason);
        }
        self.open = Some(Open { begin: *begin, completed: 0 });
        Ok(())
    }

    /// Record one already-committed Group caller. Unrelated lifecycle callbacks
    /// may interleave and do not call this method. All Balance calls precede all
    /// Close calls; disabled redirection skips only the former loop.
    pub fn group(&mut self, pass: u64, phase: Phase, group: u64) -> (r: Result<(), InvalidReason>)
        requires
            old(self).wf(),
        ensures
            final(self).wf(),
            match old(self)@.group_refusal(pass, phase, group) {
                Some(reason) => r == Err::<(), InvalidReason>(reason) && final(self)@ == old(
                    self,
                )@.poisoned(reason),
                None => r is Ok && final(self)@ == old(self)@.visited(),
            },
    {
        let refusal = match (self.failed, &self.open) {
            (Some(reason), _) => Some(reason),
            (None, None) => Some(InvalidReason::Lifecycle),
            (None, Some(open)) => if pass != open.begin.pass {
                Some(InvalidReason::Identity)
            } else {
                let groups = open.begin.groups.as_slice();
                let balanced: usize = if open.begin.support_redirection {
                    groups.len()
                } else {
                    0
                };
                let expected = if open.completed < balanced {
                    Phase::Balance
                } else {
                    Phase::Close
                };
                let index: usize = if open.completed < balanced {
                    open.completed
                } else {
                    open.completed - balanced
                };
                if phase != expected || index >= groups.len() || groups[index] != group {
                    Some(InvalidReason::Witness)
                } else {
                    None
                }
            },
        };
        if let Some(reason) = refusal {
            self.poison(reason);
            return Err(reason);
        }
        if let Some(open) = &mut self.open {
            open.completed = open.completed + 1;
        }
        Ok(())
    }

    /// Compare a complete tail. No observed count can repair an omitted caller.
    pub fn end(&mut self, end: End) -> (r: Result<(), InvalidReason>)
        requires
            old(self).wf(),
        ensures
            final(self).wf(),
            match old(self)@.end_refusal(end) {
                Some(reason) => r == Err::<(), InvalidReason>(reason) && final(self)@ == old(
                    self,
                )@.poisoned(reason),
                None => r is Ok && final(self)@ == old(self)@.ended(),
            },
    {
        let refusal = match (self.failed, &self.open) {
            (Some(reason), _) => Some(reason),
            (None, None) => Some(InvalidReason::Lifecycle),
            (None, Some(open)) => if end.pass != open.begin.pass {
                Some(InvalidReason::Identity)
            } else {
                let closed: usize = open.begin.groups.as_slice().len();
                let balanced: usize = if open.begin.support_redirection {
                    closed
                } else {
                    0
                };
                if open.completed != balanced + closed || end.balanced as usize != balanced
                    || end.closed as usize != closed {
                    Some(InvalidReason::Witness)
                } else {
                    None
                }
            },
        };
        if let Some(reason) = refusal {
            self.poison(reason);
            return Err(reason);
        }
        self.last_pass = end.pass;
        self.open = None;
        Ok(())
    }

    /// A final qualification tail cannot leave a pass open.
    pub fn tail(&self) -> (r: Result<(), InvalidReason>)
        ensures
            match self@.tail_refusal() {
                Some(reason) => r == Err::<(), InvalidReason>(reason),
                None => r is Ok,
            },
    {
        if let Some(reason) = self.failed {
            return Err(reason);
        }
        if self.open.is_some() {
            Err(InvalidReason::Lifecycle)
        } else {
            Ok(())
        }
    }
}

/// Every balance precedes every close, each group is closed exactly once in
/// order, and disabled redirection skips only the balances.
pub proof fn law_balances_precede_closes(support_redirection: bool, groups: Seq<u64>)
    ensures
        ({
            let visits = schedule(support_redirection, groups);
            let balanced = if support_redirection {
                groups.len()
            } else {
                0
            };
            &&& visits.len() == balanced + groups.len()
            &&& forall|i: int|
                0 <= i < balanced ==> #[trigger] visits[i] == (Visit {
                    phase: Phase::Balance,
                    group: groups[i],
                })
            &&& forall|i: int|
                balanced <= i < visits.len() ==> #[trigger] visits[i] == (Visit {
                    phase: Phase::Close,
                    group: groups[i - balanced],
                })
        }),
{
}

/// A failure is permanent: every later operation repeats the first reason and
/// no pass completes after it.
pub proof fn law_failure_is_sticky(
    t: TrackerModel,
    begin: Begin,
    known: Seq<u64>,
    gate: bool,
    pass: u64,
    phase: Phase,
    group: u64,
    end: End,
)
    requires
        t.failed is Some,
    ensures
        t.begin_refusal(begin, known, gate) == t.failed,
        t.group_refusal(pass, phase, group) == t.failed,
        t.end_refusal(end) == t.failed,
        t.tail_refusal() == t.failed,
        t.poisoned(t.failed->0) == t,
{
}

/// A pass incarnation is never replayed: the next one is the successor of the
/// last one that ended.
pub proof fn law_passes_are_contiguous(t: TrackerModel, begin: Begin, known: Seq<u64>, gate: bool)
    requires
        t.begin_refusal(begin, known, gate) is None,
    ensures
        begin.pass == t.last_pass + 1,
        t.begun(begin).ended().last_pass == begin.pass,
{
}

/// A pass begins exactly where nothing failed, none is open, it is the next one
/// and it names the known groups, in order, and the known gate.
pub proof fn law_passes_begin_as_known(t: TrackerModel, begin: Begin, known: Seq<u64>, gate: bool)
    ensures
        t.begin_refusal(begin, known, gate) is None <==> {
            &&& t.failed is None
            &&& t.open is None
            &&& begin.pass == t.last_pass + 1
            &&& begin.groups@ == known
            &&& begin.support_redirection == gate
        },
{
}

/// The tracker after the first calls of a pass.
pub open spec fn visited_all(t: TrackerModel, count: nat) -> TrackerModel
    decreases count,
{
    if count == 0 {
        t
    } else {
        visited_all(t, (count - 1) as nat).visited()
    }
}

proof fn lemma_visited_all(t: TrackerModel, count: nat)
    requires
        t.open is Some,
    ensures
        visited_all(t, count).open is Some,
        visited_all(t, count).open->0 == (Running {
            completed: t.open->0.completed + count,
            ..t.open->0
        }),
        visited_all(t, count).failed == t.failed,
        visited_all(t, count).last_pass == t.last_pass,
    decreases count,
{
    if count != 0 {
        lemma_visited_all(t, (count - 1) as nat);
    }
}

/// With redirection, the calls of a pass are a balance of each group in order
/// and after them a close of each group in order; without it they are the
/// closes alone. No other call is taken, and the pass ends after the last one
/// and not before, with these counts.
pub proof fn law_a_pass_visits_every_group_in_order(
    t: TrackerModel,
    begin: Begin,
    count: nat,
    pass: u64,
    phase: Phase,
    group: u64,
    end: End,
)
    requires
        t.failed is None,
    ensures
        ({
            let n = begin.groups@.len();
            let after = visited_all(t.begun(begin), count);
            &&& begin.support_redirection ==> {
                &&& count < n ==> (after.group_refusal(pass, phase, group) is None <==> pass
                    == begin.pass && phase is Balance && group == begin.groups@[count as int])
                &&& n <= count < 2 * n ==> (after.group_refusal(pass, phase, group) is None <==> pass
                    == begin.pass && phase is Close && group == begin.groups@[count - n])
                &&& 2 * n <= count ==> after.group_refusal(pass, phase, group) is Some
                &&& after.end_refusal(end) is None <==> {
                    &&& count == 2 * n
                    &&& end.pass == begin.pass
                    &&& end.balanced == n
                    &&& end.closed == n
                }
            }
            &&& !begin.support_redirection ==> {
                &&& count < n ==> (after.group_refusal(pass, phase, group) is None <==> pass
                    == begin.pass && phase is Close && group == begin.groups@[count as int])
                &&& n <= count ==> after.group_refusal(pass, phase, group) is Some
                &&& after.end_refusal(end) is None <==> {
                    &&& count == n
                    &&& end.pass == begin.pass
                    &&& end.balanced == 0
                    &&& end.closed == n
                }
            }
            &&& after.tail_refusal() is Some
            &&& after.ended().last_pass == begin.pass
            &&& after.ended().tail_refusal() is None
        }),
{
    lemma_visited_all(t.begun(begin), count);
    law_balances_precede_closes(begin.support_redirection, begin.groups@);
    let after = visited_all(t.begun(begin), count);
    let visits = after.open->0.schedule();
    assert(visits == schedule(begin.support_redirection, begin.groups@));
    if count < visits.len() {
        let visit = visits[count as int];
    }
}

/// A tracker that is called at a boundary or with a Group call goes on exactly where
/// nothing refuses it, and what refuses it is remembered.
pub proof fn law_calls_are_tracked(
    beginning: &mut Tracker,
    begin: &Begin,
    known: &Groups,
    gate: bool,
    begun: Result<(), InvalidReason>,
    visiting: &mut Tracker,
    pass: u64,
    phase: Phase,
    group: u64,
    visited: Result<(), InvalidReason>,
    ending: &mut Tracker,
    end: End,
    ended: Result<(), InvalidReason>,
)
    requires
        call_ensures(Tracker::begin, (beginning, begin, known, gate), begun),
        call_ensures(Tracker::group, (visiting, pass, phase, group), visited),
        call_ensures(Tracker::end, (ending, end), ended),
    ensures
        begun is Ok <==> old(beginning)@.begin_refusal(*begin, known@, gate) is None,
        begun is Ok ==> final(beginning)@ == old(beginning)@.begun(*begin),
        begun is Err ==> final(beginning)@.failed is Some && final(beginning)@.last_pass
            == old(beginning)@.last_pass,
        visited is Ok <==> old(visiting)@.group_refusal(pass, phase, group) is None,
        visited is Ok ==> final(visiting)@ == old(visiting)@.visited(),
        visited is Err ==> final(visiting)@.failed is Some && final(visiting)@.last_pass
            == old(visiting)@.last_pass,
        ended is Ok <==> old(ending)@.end_refusal(end) is None,
        ended is Ok ==> final(ending)@ == old(ending)@.ended(),
        ended is Err ==> final(ending)@.failed is Some && final(ending)@.last_pass
            == old(ending)@.last_pass,
{
}

} // verus!
