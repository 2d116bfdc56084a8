//! The open refresh and the committed metadata that it replaces.
use vstd::prelude::*;

use super::state;
use super::state::{BackendModel, BackendState, GroupModel, GroupState, Outcome, State, StateModel, Visit};
use super::{
    Assign, Begin, Classification, End, Input, MemberModel, Refresh, Rule, MAX_BACKENDS,
    MAX_GROUPS, MAX_PORT_ENTRIES, MAX_REFRESH_VALUE_BYTES, MAX_RETAINED_VALUES,
    MAX_RETAINED_VALUE_BYTES, MAX_VALUES,
};
use crate::charge;
use crate::charge::Admission;
use crate::shadow::live::caller::pass::Groups;
use crate::shadow::live::caller::selection::ErrorClass;
use crate::shadow::live::LiveEvent;
use crate::shadow::InvalidReason;
use crate::slices;
use crate::texts;

verus! {

/// A group under construction: created, awaiting its native Init and binding.
#[derive(Clone, Copy, Debug, PartialEq, Eq, Structural)]
pub struct Construction {
    /// The group.
    pub id: u64,
    /// Its native Init was witnessed.
    pub init_seen: bool,
}

/// The groups under construction.
pub open spec fn construction_ids(list: Seq<Construction>) -> Seq<u64> {
    list.map_values(|construction: Construction| construction.id)
}

/// What an open refresh holds.
#[verifier::ext_equal]
pub struct OpenModel {
    /// The refresh.
    pub generation: u64,
    /// The health observer's error.
    pub observer_error: ErrorClass,
    /// The router's rule.
    pub rule: Rule,
    /// The health loop's inputs.
    pub inputs: Seq<Input>,
    /// The metadata as the refresh changes it.
    pub working: StateModel,
    /// Distinct backends decided so far.
    pub decided: Seq<u64>,
    /// A backend kept while unhealthy but busy, which the next decision revisits.
    pub revisit: Option<u64>,
    /// How many backends are to be decided.
    pub expected: nat,
    /// Groups created.
    pub created: nat,
    /// Backends removed.
    pub removed: nat,
    /// Groups whose values failed to parse.
    pub refresh_failed: nat,
    /// The next group to be refreshed.
    pub cursor: nat,
    /// The next decision index.
    pub next_index: nat,
    /// Created groups that no decision has bound.
    pub pending_created: Seq<Construction>,
    /// Groups created and removed before any binding.
    pub failed_constructions: Seq<Construction>,
    /// Live groups removed before the decision that empties them.
    pub pending_removed: Seq<u64>,
    /// Values read so far.
    pub read_values: nat,
    /// Bytes read so far.
    pub read_bytes: nat,
    /// A created group must show its native Init.
    pub require_native_init: bool,
}

/// What [`Tracker`] holds.
#[verifier::ext_equal]
pub struct TrackerModel {
    /// The last committed refresh.
    pub last_generation: u64,
    /// The committed metadata.
    pub state: StateModel,
    /// The refresh that is open.
    pub open: Option<OpenModel>,
    /// The first failure.
    pub failed: Option<InvalidReason>,
    /// A created group must show its native Init.
    pub require_native_init: bool,
}

/// The bytes of the lists that every refresh reserves.
pub open spec fn scratch_bytes() -> nat {
    2 * (MAX_BACKENDS as nat * vstd::layout::size_of::<u64>()) + 2 * (MAX_GROUPS as nat
        * vstd::layout::size_of::<Construction>())
}

/// Whether an admission covers a charge, and the admission afterwards.
pub open spec fn covering(admission: Admission, bytes: nat) -> (bool, Admission) {
    if charge::clamp(bytes) <= admission.limit {
        (true, admission.admitting(charge::clamp(bytes)))
    } else {
        (false, admission)
    }
}

/// The metadata after the health loop read one input: held backends update,
/// unknown held ones are added, others are ignored.
pub open spec fn noted(known: StateModel, input: Input) -> StateModel {
    if input.account == 0 {
        known
    } else if known.has_backend(input.account) {
        let at = known.backend_at(input.account);
        let backend = BackendModel {
            support_redirection: input.support_redirection,
            ..known.backends[at]
        };
        StateModel { backends: known.backends.update(at, backend), ..known }
    } else {
        let backend = BackendModel {
            account: input.account,
            support_redirection: input.support_redirection,
            group: 0,
            values: Seq::empty(),
            read_generation: 0,
        };
        StateModel { backends: known.backends.push(backend), ..known }
    }
}

/// The metadata after the health loop read some inputs.
pub open spec fn all_noted(known: StateModel, inputs: Seq<Input>) -> StateModel
    decreases inputs.len(),
{
    if inputs.len() == 0 {
        known
    } else {
        noted(all_noted(known, inputs.drop_last()), inputs.last())
    }
}

/// How many inputs the router holds.
pub open spec fn held_count(inputs: Seq<Input>) -> nat
    decreases inputs.len(),
{
    if inputs.len() == 0 {
        0
    } else {
        held_count(inputs.drop_last()) + if inputs.last().account != 0 {
            1nat
        } else {
            0nat
        }
    }
}

/// Whether every backend of the refreshed list supports redirection.
pub open spec fn gate(inputs: Seq<Input>) -> bool {
    forall|i: int| 0 <= i < inputs.len() ==> (#[trigger] inputs[i]).support_redirection
}

/// Whether some input names a backend.
pub open spec fn names(inputs: Seq<Input>, account: u64) -> bool {
    exists|i: int| 0 <= i < inputs.len() && (#[trigger] inputs[i]).account == account
}

/// The first input that names a backend.
pub open spec fn input_of(inputs: Seq<Input>, account: u64) -> Input {
    inputs[choose|i: int|
        0 <= i < inputs.len() && (#[trigger] inputs[i]).account == account && forall|j: int|
            0 <= j < i ==> (#[trigger] inputs[j]).account != account]
}

/// Every backend the router holds is an input, and a held input is either
/// already retained or healthy.
pub open spec fn covers_backends(known: StateModel, inputs: Seq<Input>) -> bool {
    &&& forall|i: int|
        0 <= i < known.backends.len() ==> names(inputs, (#[trigger] known.backends[i]).account)
    &&& forall|i: int|
        0 <= i < inputs.len() && (#[trigger] inputs[i]).account != 0 && !inputs[i].healthy
            ==> known.has_backend(inputs[i].account)
}

impl OpenModel {
    /// The heap bytes of the open refresh.
    pub open spec fn heap_bytes(self) -> nat {
        self.working.heap_bytes() + self.inputs.len() * vstd::layout::size_of::<Input>()
            + scratch_bytes()
    }

    /// The lists keep their bounds and name no group twice.
    pub open spec fn wf(self) -> bool {
        self.wf_within(0)
    }

    /// The same in the midst of a decision, which counts its group and its
    /// removal before itself.
    pub open spec fn wf_within(self, ahead: nat) -> bool {
        &&& self.working.wf()
        &&& self.working.reserved
        &&& self.inputs.len() <= MAX_BACKENDS
        &&& self.decided.len() <= MAX_BACKENDS
        &&& self.next_index <= MAX_BACKENDS
        &&& self.created <= self.decided.len() + ahead
        &&& self.removed <= self.decided.len() + ahead
        &&& self.pending_removed.no_duplicates()
        &&& self.refresh_failed <= self.cursor
        &&& self.cursor <= self.working.groups.len()
        &&& self.read_values <= MAX_VALUES
        &&& self.read_bytes <= MAX_REFRESH_VALUE_BYTES
        &&& self.pending_created.len() <= MAX_GROUPS
        &&& self.failed_constructions.len() <= MAX_GROUPS
        &&& self.pending_removed.len() <= MAX_GROUPS
        &&& slices::identities(construction_ids(self.pending_created))
        &&& forall|i: int|
            0 <= i < self.pending_created.len() ==> !self.working.has_group(
                (#[trigger] self.pending_created[i]).id,
            )
    }
}

impl TrackerModel {
    /// Before the first refresh.
    pub open spec fn initial(require_native_init: bool) -> TrackerModel {
        TrackerModel {
            last_generation: 0,
            state: StateModel::initial(),
            open: None,
            failed: None,
            require_native_init,
        }
    }

    /// The bytes that the tracker retains.
    pub open spec fn retained_bytes(self) -> nat {
        vstd::layout::size_of::<Tracker>() + self.state.heap_bytes() + match self.open {
            Some(open) => open.heap_bytes(),
            None => 0,
        }
    }

    /// The committed metadata is well-formed, and so is an open refresh unless
    /// the tracker has failed.
    pub open spec fn wf(self) -> bool {
        &&& self.state.wf()
        &&& self.failed is None ==> (self.open matches Some(open) ==> open.wf())
    }

    /// Whether a tracker failed after this one: the first reason stays, the
    /// committed metadata stays, and no refresh opens or closes.
    pub open spec fn fails(self, after: TrackerModel, reason: InvalidReason) -> bool {
        &&& after.last_generation == self.last_generation
        &&& after.state == self.state
        &&& after.require_native_init == self.require_native_init
        &&& after.open is Some <==> self.open is Some
        &&& self.failed is None ==> after.failed == Some(reason)
        &&& self.failed is Some ==> after == self && self.failed == Some(reason)
    }

    /// The charge of a refresh's working copy, inputs and scratch.
    pub open spec fn begin_bytes(self, inputs: Seq<Input>) -> nat {
        self.retained_bytes() + self.state.working_bytes() + inputs.len() * vstd::layout::size_of::<
            Input,
        >() + scratch_bytes()
    }

    /// Why a refresh cannot begin, before anything is reserved for it.
    pub open spec fn begin_refusal(self, begin: Begin) -> Option<InvalidReason> {
        if self.failed is Some {
            self.failed
        } else if self.open is Some {
            Some(InvalidReason::Lifecycle)
        } else if self.last_generation + 1 != begin.generation {
            Some(InvalidReason::Sequence)
        } else if begin.shape_refusal() is Some {
            begin.shape_refusal()
        } else if self.state.rule is Some && self.state.rule != Some(begin.rule) {
            Some(InvalidReason::Witness)
        } else if begin.observer_error is Success && !covers_backends(self.state, begin.inputs@) {
            Some(InvalidReason::Witness)
        } else {
            None
        }
    }

    /// The refresh that begins.
    pub open spec fn opened(self, begin: Begin) -> OpenModel {
        let inputs = begin.inputs@;
        let base = StateModel {
            rule: Some(begin.rule),
            observer_error: begin.observer_error,
            reserved: true,
            ..self.state
        };
        OpenModel {
            generation: begin.generation,
            observer_error: begin.observer_error,
            rule: begin.rule,
            inputs,
            working: if begin.observer_error is Success {
                StateModel { support_redirection: gate(inputs), ..all_noted(base, inputs) }
            } else {
                base
            },
            decided: Seq::empty(),
            revisit: None,
            expected: if begin.observer_error is Success {
                held_count(inputs)
            } else {
                0
            },
            created: 0,
            removed: 0,
            refresh_failed: 0,
            cursor: 0,
            next_index: 0,
            pending_created: Seq::empty(),
            failed_constructions: Seq::empty(),
            pending_removed: Seq::empty(),
            read_values: 0,
            read_bytes: 0,
            require_native_init: self.require_native_init,
        }
    }

    /// The refresh that begins or why it cannot, and the admission afterwards.
    pub open spec fn begin(self, begin: Begin, admission: Admission) -> (
        Result<OpenModel, InvalidReason>,
        Admission,
    ) {
        match self.begin_refusal(begin) {
            Some(reason) => (Err(reason), admission),
            None => {
                let (covered, after) = covering(admission, self.begin_bytes(begin.inputs@));
                if covered {
                    (Ok(self.opened(begin)), after)
                } else {
                    (Err(InvalidReason::Capacity), after)
                }
            },
        }
    }
}

struct Open {
    generation: u64,
    observer_error: ErrorClass,
    rule: Rule,
    inputs: Vec<Input>,
    working: State,
    decided: Vec<u64>,
    revisit: Option<u64>,
    expected: usize,
    created: u16,
    removed: u16,
    refresh_failed: u16,
    cursor: usize,
    next_index: u16,
    pending_created: Vec<Construction>,
    failed_constructions: Vec<Construction>,
    pending_removed: Vec<u64>,
    read_values: usize,
    read_bytes: usize,
    require_native_init: bool,
}

impl Open {
    spec fn model(self) -> OpenModel {
        OpenModel {
            generation: self.generation,
            observer_error: self.observer_error,
            rule: self.rule,
            inputs: self.inputs@,
            working: self.working@,
            decided: self.decided@,
            revisit: self.revisit,
            expected: self.expected as nat,
            created: self.created as nat,
            removed: self.removed as nat,
            refresh_failed: self.refresh_failed as nat,
            cursor: self.cursor as nat,
            next_index: self.next_index as nat,
            pending_created: self.pending_created@,
            failed_constructions: self.failed_constructions@,
            pending_removed: self.pending_removed@,
            read_values: self.read_values as nat,
            read_bytes: self.read_bytes as nat,
            require_native_init: self.require_native_init,
        }
    }

    fn heap(&self) -> (r: usize)
        ensures
            r == charge::clamp(self.model().heap_bytes()),
    {
        self.working.heap().saturating_add(
            charge::times(self.inputs.len(), core::mem::size_of::<Input>()),
        ).saturating_add(scratch_charge())
    }
}

fn scratch_charge() -> (r: usize)
    ensures
        r == charge::clamp(scratch_bytes()),
{
    let ids: usize = charge::times(MAX_BACKENDS, core::mem::size_of::<u64>());
    let constructions: usize = charge::times(MAX_GROUPS, core::mem::size_of::<Construction>());
    ids.saturating_add(ids).saturating_add(constructions).saturating_add(constructions)
}

/// Retained router metadata plus one open refresh. All changes are staged
/// until the End witness matches; a failure is sticky and keeps the last
/// committed state.
pub struct Tracker {
    last_generation: u64,
    state: State,
    open: Option<Open>,
    failed: Option<InvalidReason>,
    require_native_init: bool,
}

impl View for Tracker {
    type V = TrackerModel;

    closed spec fn view(&self) -> TrackerModel {
        TrackerModel {
            last_generation: self.last_generation,
            state: self.state@,
            open: match self.open {
                Some(open) => Some(open.model()),
                None => None,
            },
            failed: self.failed,
            require_native_init: self.require_native_init,
        }
    }
}

impl Default for Tracker {
    fn default() -> (r: Self)
        ensures
            r@ == TrackerModel::initial(false),
            r@.wf(),
    {
        Tracker {
            last_generation: 0,
            state: State::initial(),
            open: None,
            failed: None,
            require_native_init: false,
        }
    }
}

/// Noting an input keeps identities apart and leaves groups and charges alone.
proof fn lemma_noted(known: StateModel, input: Input)
    requires
        known.wf(),
    ensures
        noted(known, input).wf(),
        noted(known, input).groups == known.groups,
        noted(known, input).reserved == known.reserved,
        backends_charge_kept(known, noted(known, input)),
{
    let next = noted(known, input);
    if input.account != 0 {
        if known.has_backend(input.account) {
            let at = known.backend_at(input.account);
            assert(state::accounts(known.backends)[at] == input.account);
            assert(state::accounts(next.backends) =~= state::accounts(known.backends));
            lemma_backend_update_bytes(known.backends, at, next.backends[at]);
        } else {
            let added = next.backends.last();
            assert(next.backends.drop_last() =~= known.backends);
            assert(state::accounts(next.backends) =~= state::accounts(known.backends).push(
                input.account,
            ));
            let before = state::accounts(known.backends);
            let after = state::accounts(next.backends);
            assert forall|i: int, j: int|
                0 <= i < after.len() && 0 <= j < after.len() && i != j implies after[i]
                != after[j] by {
                if i < before.len() {
                    assert(before.contains(before[i]));
                }
                if j < before.len() {
                    assert(before.contains(before[j]));
                }
            }
            assert(!after.contains(0)) by {
                if after.contains(0) {
                    let i = after.index_of(0);
                    assert(after[i] == 0);
                    assert(before.contains(before[i]));
                }
            }
            assert(texts::copy_bytes(added.values) == 0);
        }
    }
}

/// Whether two states retain as many bytes of backend values.
pub open spec fn backends_charge_kept(a: StateModel, b: StateModel) -> bool {
    state::backends_bytes(a.backends) == state::backends_bytes(b.backends)
}

/// Replacing a backend changes the charge by its own values.
proof fn lemma_backend_update_bytes(backends: Seq<BackendModel>, at: int, next: BackendModel)
    requires
        0 <= at < backends.len(),
    ensures
        state::backends_bytes(backends.update(at, next)) == state::backends_bytes(backends)
            - texts::copy_bytes(backends[at].values) + texts::copy_bytes(next.values),
    decreases backends.len(),
{
    let updated = backends.update(at, next);
    if at == backends.len() - 1 {
        assert(updated.drop_last() =~= backends.drop_last());
    } else {
        assert(updated.drop_last() =~= backends.drop_last().update(at, next));
        lemma_backend_update_bytes(backends.drop_last(), at, next);
    }
}

/// Noting all inputs keeps identities apart and leaves groups and charges alone.
proof fn lemma_all_noted(known: StateModel, inputs: Seq<Input>)
    requires
        known.wf(),
    ensures
        all_noted(known, inputs).wf(),
        all_noted(known, inputs).groups == known.groups,
        all_noted(known, inputs).reserved == known.reserved,
        backends_charge_kept(known, all_noted(known, inputs)),
    decreases inputs.len(),
{
    if inputs.len() > 0 {
        lemma_all_noted(known, inputs.drop_last());
        lemma_noted(all_noted(known, inputs.drop_last()), inputs.last());
    }
}

/// A refresh begins with exactly the charge that was admitted for it.
pub proof fn law_begin_charge_is_exact(t: TrackerModel, begin: Begin)
    requires
        t.wf(),
        t.begin_refusal(begin) is None,
    ensures
        (TrackerModel { open: Some(t.opened(begin)), ..t }).retained_bytes() == t.begin_bytes(
            begin.inputs@,
        ),
{
    let base = StateModel {
        rule: Some(begin.rule),
        observer_error: begin.observer_error,
        reserved: true,
        ..t.state
    };
    lemma_all_noted(base, begin.inputs@);
}

impl Tracker {
    /// A tracker whose routers construct native policies: every created group
    /// must show its actual Init evaluation before it can be bound.
    pub fn native() -> (r: Self)
        ensures
            r@ == TrackerModel::initial(true),
            r@.wf(),
    {
        let mut tracker = Tracker::default();
        tracker.require_native_init = true;
        tracker
    }

    /// Bytes currently retained: own layout plus the committed state and the
    /// open refresh.
    pub fn retained_charge(&self) -> (r: usize)
        ensures
            r == charge::clamp(self@.retained_bytes()),
    {
        let open: usize = match &self.open {
            Some(open) => open.heap(),
            None => 0,
        };
        core::mem::size_of::<Tracker>().saturating_add(self.state.heap()).saturating_add(open)
    }

    /// Bytes the working copy of a refresh will hold.
    pub fn clone_charge(&self) -> (r: usize)
        ensures
            r == charge::clamp(self@.state.working_bytes()),
    {
        self.state.working_clone_heap()
    }

    /// Last committed folded redirection gate.
    pub fn support_redirection(&self) -> (r: bool)
        ensures
            r == self@.state.support_redirection,
    {
        self.state.support_redirection
    }

    /// Last committed generation.
    pub fn generation(&self) -> (r: u64)
        ensures
            r == self@.last_generation,
    {
        self.last_generation
    }

    fn poison(&mut self, reason: InvalidReason)
        requires
            old(self)@.failed is None || old(self)@.failed == Some(reason),
        ensures
            final(self)@ == (TrackerModel { failed: Some(reason), ..old(self)@ }),
    {
        self.failed = Some(reason);
    }

    fn check_begin(&self, begin: &Begin) -> (r: Option<InvalidReason>)
        requires
            self@.wf(),
        ensures
            r == self@.begin_refusal(*begin),
    {
        if self.failed.is_some() {
            return self.failed;
        }
        if self.open.is_some() {
            return Some(InvalidReason::Lifecycle);
        }
        if self.last_generation.checked_add(1) != Some(begin.generation) {
            return Some(InvalidReason::Sequence);
        }
        if let Err(reason) = begin.validate() {
            return Some(reason);
        }
        if let Some(rule) = self.state.rule {
            if rule != begin.rule {
                return Some(InvalidReason::Witness);
            }
        }
        if begin.observer_error == ErrorClass::Success && !self.check_coverage(begin) {
            return Some(InvalidReason::Witness);
        }
        None
    }

    /// Every backend the router holds is an input (present or dropped), and a
    /// held input is either already retained or healthy.
    fn check_coverage(&self, begin: &Begin) -> (r: bool)
        requires
            self@.wf(),
        ensures
            r == covers_backends(self@.state, begin.inputs@),
    {
        let ghost known = self@.state;
        let ghost inputs = begin.inputs@;
        let mut index: usize = 0;
        while index < self.state.backends.len()
            invariant
                known == self@.state,
                inputs == begin.inputs@,
                index <= known.backends.len(),
                forall|i: int|
                    0 <= i < index ==> names(inputs, (#[trigger] known.backends[i]).account),
            decreases known.backends.len() - index,
        {
            let account = self.state.backends[index].account;
            if !named(&begin.inputs, account) {
                assert(!names(inputs, known.backends[index as int].account));
                return false;
            }
            index = index + 1;
        }
        let mut index: usize = 0;
        while index < begin.inputs.len()
            invariant
                self@.wf(),
                known == self@.state,
                inputs == begin.inputs@,
                index <= inputs.len(),
                forall|i: int|
                    0 <= i < index && (#[trigger] inputs[i]).account != 0 && !inputs[i].healthy
                        ==> known.has_backend(inputs[i].account),
            decreases inputs.len() - index,
        {
            let input = begin.inputs[index];
            if input.held() && !input.healthy && self.state.backend_index(input.account).is_none() {
                assert(!known.has_backend(inputs[index as int].account));
                return false;
            }
            index = index + 1;
        }
        true
    }

    /// Open the next refresh with its complete inputs. Every retained backend
    /// must be covered by a held input. The working copy and the fixed
    /// per-refresh scratch are covered before they are allocated.
    pub fn begin(&mut self, begin: &Begin, admission: &mut Admission) -> (r: Result<
        (),
        InvalidReason,
    >)
        requires
            old(self)@.wf(),
        ensures
            final(self)@.wf(),
            *final(admission) == old(self)@.begin(*begin, *old(admission)).1,
            match old(self)@.begin(*begin, *old(admission)).0 {
                Ok(open) => r is Ok && final(self)@ == (TrackerModel {
                    open: Some(open),
                    ..old(self)@
                }),
                Err(reason) => r == Err::<(), InvalidReason>(reason) && old(self)@.fails(
                    final(self)@,
                    reason,
                ),
            },
    {
        let ghost before = self@;
        if let Some(reason) = self.check_begin(begin) {
            self.poison(reason);
            return Err(reason);
        }
        let needed: usize = self.retained_charge().saturating_add(
            self.clone_charge(),
        ).saturating_add(
            charge::times(begin.inputs.len(), core::mem::size_of::<Input>()),
        ).saturating_add(scratch_charge());
        assert(needed == charge::clamp(before.begin_bytes(begin.inputs@)));
        if !admission.cover(needed) {
            self.poison(InvalidReason::Capacity);
            return Err(InvalidReason::Capacity);
        }
        let mut working = self.state.working_clone();
        working.rule = Some(begin.rule);
        working.observer_error = begin.observer_error;
        let mut expected: usize = 0;
        proof {
            lemma_all_noted(working@, begin.inputs@);
        }
        if begin.observer_error == ErrorClass::Success {
            expected = working.note_all(&begin.inputs);
        }
        let mut inputs: Vec<Input> = Vec::with_capacity(begin.inputs.len());
        inputs.extend_from_slice(begin.inputs.as_slice());
        assert(inputs@ =~= begin.inputs@);
        self.open = Some(
            Open {
                generation: begin.generation,
                observer_error: begin.observer_error,
                rule: begin.rule,
                inputs,
                working,
                decided: Vec::with_capacity(MAX_BACKENDS),
                revisit: None,
                expected,
                created: 0,
                removed: 0,
                refresh_failed: 0,
                cursor: 0,
                next_index: 0,
                pending_created: Vec::with_capacity(MAX_GROUPS),
                failed_constructions: Vec::with_capacity(MAX_GROUPS),
                pending_removed: Vec::with_capacity(MAX_GROUPS),
                read_values: 0,
                read_bytes: 0,
                require_native_init: self.require_native_init,
            },
        );
        proof {
            assert(self@.open->0 =~= before.opened(*begin));
            assert(construction_ids(Seq::<Construction>::empty()) =~= Seq::empty());
        }
        Ok(())
    }
}

/// One more input withdraws redirection unless it supports it too.
proof fn lemma_gate(inputs: Seq<Input>, index: int)
    requires
        0 <= index < inputs.len(),
    ensures
        gate(inputs.take(index + 1)) == (gate(inputs.take(index))
            && inputs[index].support_redirection),
{
    let before = inputs.take(index);
    let after = inputs.take(index + 1);
    if gate(after) {
        assert forall|i: int| 0 <= i < before.len() implies (
        #[trigger] before[i]).support_redirection by {
            assert(after[i] == before[i]);
        }
        assert(after[index] == inputs[index]);
    }
    if gate(before) && inputs[index].support_redirection {
        assert forall|i: int| 0 <= i < after.len() implies (
        #[trigger] after[i]).support_redirection by {
            if i < index {
                assert(after[i] == before[i]);
            }
        }
    }
}

/// Decide [`names`].
fn named(inputs: &Vec<Input>, account: u64) -> (r: bool)
    ensures
        r == names(inputs@, account),
{
    let mut index: usize = 0;
    while index < inputs.len()
        invariant
            index <= inputs@.len(),
            forall|i: int| 0 <= i < index ==> (#[trigger] inputs@[i]).account != account,
        decreases inputs@.len() - index,
    {
        if inputs[index].account == account {
            return true;
        }
        index = index + 1;
    }
    false
}

impl State {
    fn note_all(&mut self, inputs: &Vec<Input>) -> (r: usize)
        requires
            old(self)@.wf(),
        ensures
            final(self)@.wf(),
            final(self)@ == (StateModel {
                support_redirection: gate(inputs@),
                ..all_noted(old(self)@, inputs@)
            }),
            r == held_count(inputs@),
    {
        let ghost base = self@;
        let ghost all = inputs@;
        let mut expected: usize = 0;
        let mut open_gate = true;
        let mut index: usize = 0;
        assert(all.take(0) =~= Seq::empty());
        while index < inputs.len()
            invariant
                all == inputs@,
                index <= all.len(),
                base.wf(),
                self@ == all_noted(base, all.take(index as int)),
                self@.wf(),
                expected == held_count(all.take(index as int)),
                expected <= index,
                open_gate == gate(all.take(index as int)),
            decreases all.len() - index,
        {
            let input = inputs[index];
            proof {
                assert(all.take(index + 1).drop_last() =~= all.take(index as int));
                assert(all.take(index + 1).last() == input);
                lemma_noted(self@, input);
                lemma_gate(all, index as int);
            }
            if !input.support_redirection {
                open_gate = false;
            }
            if input.held() {
                expected = expected + 1;
                self.note(input);
            }
            index = index + 1;
        }
        assert(all.take(all.len() as int) =~= all);
        self.support_redirection = open_gate;
        expected
    }

    fn note(&mut self, input: Input)
        requires
            old(self)@.wf(),
            input.account != 0,
        ensures
            final(self)@ == noted(old(self)@, input),
    {
        let ghost before = self@;
        match self.backend_index(input.account) {
            Some(at) => {
                self.backends[at].support_redirection = input.support_redirection;
                assert(self@.backends =~= noted(before, input).backends);
            },
            None => {
                let backend = BackendState {
                    account: input.account,
                    support_redirection: input.support_redirection,
                    group: 0,
                    values: Vec::new(),
                    read_generation: 0,
                };
                assert(backend@.values =~= Seq::empty());
                self.backends.push(backend);
                assert(self@.backends =~= noted(before, input).backends);
            },
        }
    }
}

impl OpenModel {
    /// Where a group under construction stands.
    pub open spec fn pending_at(self, id: u64) -> int {
        construction_ids(self.pending_created).index_of(id)
    }

    /// Whether a group is under construction.
    pub open spec fn is_pending(self, id: u64) -> bool {
        construction_ids(self.pending_created).contains(id)
    }

    /// The refresh after a group lifecycle event. A removal of an unbound
    /// created group is a failed construction; one of a live group awaits the
    /// decision that empties it.
    pub open spec fn group_event(self, event: LiveEvent) -> Result<OpenModel, InvalidReason> {
        match event {
            LiveEvent::GroupCreated(id) => if id == 0 || self.working.has_group(id)
                || self.is_pending(id) || construction_ids(self.failed_constructions).contains(
                id,
            ) {
                Err(InvalidReason::Lifecycle)
            } else if self.pending_created.len() + self.working.groups.len() >= MAX_GROUPS {
                Err(InvalidReason::Capacity)
            } else {
                Ok(
                    OpenModel {
                        pending_created: self.pending_created.push(
                            Construction { id, init_seen: false },
                        ),
                        ..self
                    },
                )
            },
            LiveEvent::GroupRemoved(id) => if self.is_pending(id) {
                if self.failed_constructions.len() == MAX_GROUPS {
                    Err(InvalidReason::Capacity)
                } else {
                    let at = self.pending_at(id);
                    Ok(
                        OpenModel {
                            pending_created: self.pending_created.remove(at),
                            failed_constructions: self.failed_constructions.push(
                                self.pending_created[at],
                            ),
                            ..self
                        },
                    )
                }
            } else if self.working.has_group(id) && !self.pending_removed.contains(id) {
                if self.pending_removed.len() == MAX_GROUPS {
                    Err(InvalidReason::Capacity)
                } else {
                    Ok(OpenModel { pending_removed: self.pending_removed.push(id), ..self })
                }
            } else {
                Err(InvalidReason::Lifecycle)
            },
            _ => Ok(self),
        }
    }

    /// The refresh after a native configuration of a group.
    pub open spec fn native_init(self, group: u64) -> Result<OpenModel, InvalidReason> {
        if self.is_pending(group) {
            let at = self.pending_at(group);
            Ok(
                OpenModel {
                    pending_created: self.pending_created.update(
                        at,
                        Construction { id: group, init_seen: true },
                    ),
                    ..self
                },
            )
        } else if self.working.has_group(group) {
            Ok(self)
        } else {
            Err(InvalidReason::Lifecycle)
        }
    }
}

impl TrackerModel {
    /// The tracker after a step of its open refresh.
    pub open spec fn stepped(self, open: OpenModel) -> TrackerModel {
        TrackerModel { open: Some(open), ..self }
    }

    /// What a step of the open refresh gives, or why there is none.
    pub open spec fn group_event(self, event: LiveEvent) -> Result<TrackerModel, InvalidReason> {
        match (self.failed, self.open) {
            (Some(reason), _) => Err(reason),
            (None, None) => Err(InvalidReason::Lifecycle),
            (None, Some(open)) => match open.group_event(event) {
                Ok(next) => Ok(self.stepped(next)),
                Err(reason) => Err(reason),
            },
        }
    }

    /// The tracker after a native configuration of a group: one under
    /// construction becomes eligible, a live one may be reconfigured.
    pub open spec fn native_init(self, group: u64) -> Result<TrackerModel, InvalidReason> {
        match (self.failed, self.open) {
            (Some(reason), _) => Err(reason),
            (None, None) => if self.state.has_group(group) {
                Ok(self)
            } else {
                Err(InvalidReason::Lifecycle)
            },
            (None, Some(open)) => match open.native_init(group) {
                Ok(next) => Ok(self.stepped(next)),
                Err(reason) => Err(reason),
            },
        }
    }

    /// Why committed metadata cannot be read, if it cannot.
    pub open spec fn tail_refusal(self) -> Option<InvalidReason> {
        if self.failed is Some {
            self.failed
        } else if self.open is Some {
            Some(InvalidReason::Lifecycle)
        } else {
            None
        }
    }
}

/// Where a group stands in a list of constructions.
fn construction_index(list: &Vec<Construction>, id: u64) -> (r: Option<usize>)
    ensures
        r is Some <==> construction_ids(list@).contains(id),
        r matches Some(at) ==> at < list@.len() && list@[at as int].id == id,
        construction_ids(list@).no_duplicates() ==> (r matches Some(at) ==> at == construction_ids(
            list@,
        ).index_of(id)),
{
    let mut index: usize = 0;
    while index < list.len()
        invariant
            index <= list@.len(),
            forall|i: int| 0 <= i < index ==> construction_ids(list@)[i] != id,
        decreases list@.len() - index,
    {
        if list[index].id == id {
            proof {
                assert(construction_ids(list@)[index as int] == id);
                if construction_ids(list@).no_duplicates() {
                    state::lemma_place(construction_ids(list@), index as int);
                }
            }
            return Some(index);
        }
        index = index + 1;
    }
    None
}

/// Taking a construction out keeps the others apart.
proof fn lemma_removed_construction(list: Seq<Construction>, at: int)
    requires
        slices::identities(construction_ids(list)),
        0 <= at < list.len(),
    ensures
        slices::identities(construction_ids(list.remove(at))),
        !construction_ids(list.remove(at)).contains(list[at].id),
{
    let before = construction_ids(list);
    let after = construction_ids(list.remove(at));
    assert forall|i: int| 0 <= i < after.len() implies #[trigger] after[i] == before[if i < at {
        i
    } else {
        i + 1
    }] by {}
    if after.contains(0) {
        let i = after.index_of(0);
        assert(after[i] == 0);
        assert(before.contains(before[if i < at {
            i
        } else {
            i + 1
        }]));
    }
    if after.contains(list[at].id) {
        let i = after.index_of(list[at].id);
        assert(after[i] == before[at]);
    }
}

impl Open {
    fn group_event(&mut self, event: LiveEvent) -> (r: Result<(), InvalidReason>)
        requires
            old(self).model().wf(),
        ensures
            match old(self).model().group_event(event) {
                Ok(open) => r is Ok && final(self).model() == open && open.wf(),
                Err(reason) => r == Err::<(), InvalidReason>(reason),
            },
    {
        let ghost before = self.model();
        match event {
            LiveEvent::GroupCreated(id) => {
                if id == 0 || self.working.group_index(id).is_some() || construction_index(
                    &self.pending_created,
                    id,
                ).is_some() || construction_index(&self.failed_constructions, id).is_some() {
                    return Err(InvalidReason::Lifecycle);
                }
                if self.pending_created.len() + self.working.groups.len() >= MAX_GROUPS {
                    return Err(InvalidReason::Capacity);
                }
                let construction = Construction { id, init_seen: false };
                self.pending_created.push(construction);
                proof {
                    let list = before.pending_created;
                    let ids = construction_ids(list);
                    let next = construction_ids(self.pending_created@);
                    assert(next =~= ids.push(id));
                    assert forall|i: int, j: int|
                        0 <= i < next.len() && 0 <= j < next.len() && i != j implies next[i]
                        != next[j] by {
                        if i < ids.len() {
                            assert(ids.contains(ids[i]));
                        }
                        if j < ids.len() {
                            assert(ids.contains(ids[j]));
                        }
                    }
                    if next.contains(0) {
                        let i = next.index_of(0);
                        assert(next[i] == 0);
                        assert(ids.contains(ids[i]));
                    }
                    assert(self.model() =~= before.group_event(event)->Ok_0);
                }
                Ok(())
            },
            LiveEvent::GroupRemoved(id) => {
                match construction_index(&self.pending_created, id) {
                    Some(at) => {
                        if self.failed_constructions.len() == MAX_GROUPS {
                            return Err(InvalidReason::Capacity);
                        }
                        proof {
                            lemma_removed_construction(before.pending_created, at as int);
                        }
                        let construction = self.pending_created.remove(at);
                        self.failed_constructions.push(construction);
                        proof {
                            assert(self.model() =~= before.group_event(event)->Ok_0);
                        }
                        Ok(())
                    },
                    None => {
                        if self.working.group_index(id).is_none() || slices::holds(
                            self.pending_removed.as_slice(),
                            id,
                        ) {
                            return Err(InvalidReason::Lifecycle);
                        }
                        if self.pending_removed.len() == MAX_GROUPS {
                            return Err(InvalidReason::Capacity);
                        }
                        self.pending_removed.push(id);
                        assert(self.model() =~= before.group_event(event)->Ok_0);
                        Ok(())
                    },
                }
            },
            _ => Ok(()),
        }
    }

    fn native_init(&mut self, group: u64) -> (r: Result<(), InvalidReason>)
        requires
            old(self).model().wf(),
        ensures
            match old(self).model().native_init(group) {
                Ok(open) => r is Ok && final(self).model() == open && open.wf(),
                Err(reason) => r == Err::<(), InvalidReason>(reason),
            },
    {
        let ghost before = self.model();
        match construction_index(&self.pending_created, group) {
            Some(at) => {
                self.pending_created.set(at, Construction { id: group, init_seen: true });
                proof {
                    assert(construction_ids(self.pending_created@) =~= construction_ids(
                        before.pending_created,
                    ));
                    assert(self.model() =~= before.native_init(group)->Ok_0);
                    assert forall|i: int| 0 <= i < self.pending_created@.len() implies !self.model().working.has_group(
                    (#[trigger] self.pending_created@[i]).id) by {
                        assert(self.pending_created@[i].id == before.pending_created[i].id);
                    }
                }
                Ok(())
            },
            None => if self.working.group_index(group).is_some() {
                Ok(())
            } else {
                Err(InvalidReason::Lifecycle)
            },
        }
    }
}

impl Tracker {
    /// Bind one actual group lifecycle event to the open refresh. Groups are
    /// only created or removed inside a refresh; a `GroupRemoved` of an unbound
    /// created group records a failed construction, one of a live group must
    /// be followed by the Assign that empties it. Other events are not group
    /// scoped and are ignored here.
    pub fn group_event(&mut self, event: &LiveEvent) -> (r: Result<(), InvalidReason>)
        requires
            old(self)@.wf(),
        ensures
            final(self)@.wf(),
            match old(self)@.group_event(*event) {
                Ok(next) => r is Ok && final(self)@ == next,
                Err(reason) => r == Err::<(), InvalidReason>(reason) && old(self)@.fails(
                    final(self)@,
                    reason,
                ),
            },
    {
        if let Some(reason) = self.failed {
            return Err(reason);
        }
        let result = match &mut self.open {
            Some(open) => open.group_event(*event),
            None => Err(InvalidReason::Lifecycle),
        };
        if let Err(reason) = result {
            self.poison(reason);
        }
        result
    }

    /// Witness a native policy configuration evaluation (`Init` / `SetConfig`)
    /// for `group`: a group under construction becomes eligible for binding; a
    /// live group may be reconfigured; anything else is unknown.
    pub fn native_init(&mut self, group: u64) -> (r: Result<(), InvalidReason>)
        requires
            old(self)@.wf(),
        ensures
            final(self)@.wf(),
            match old(self)@.native_init(group) {
                Ok(next) => r is Ok && final(self)@ == next,
                Err(reason) => r == Err::<(), InvalidReason>(reason) && old(self)@.fails(
                    final(self)@,
                    reason,
                ),
            },
    {
        if let Some(reason) = self.failed {
            return Err(reason);
        }
        let result = match &mut self.open {
            Some(open) => open.native_init(group),
            None => if self.state.group_index(group).is_some() {
                Ok(())
            } else {
                Err(InvalidReason::Lifecycle)
            },
        };
        if let Err(reason) = result {
            self.poison(reason);
        }
        result
    }

    /// A final compared tail cannot contain an open refresh.
    pub fn tail(&self) -> (r: Result<(), InvalidReason>)
        ensures
            match self@.tail_refusal() {
                Some(reason) => r == Err::<(), InvalidReason>(reason),
                None => r is Ok,
            },
    {
        if let Some(reason) = self.failed {
            return Err(reason);
        }
        if self.open.is_some() {
            Err(InvalidReason::Lifecycle)
        } else {
            Ok(())
        }
    }
}

/// The members of a group without one backend.
pub open spec fn others(members: Seq<u64>, account: u64) -> Seq<u64>
    decreases members.len(),
{
    if members.len() == 0 {
        Seq::empty()
    } else if members.last() == account {
        others(members.drop_last(), account)
    } else {
        others(members.drop_last(), account).push(members.last())
    }
}

/// The heap bytes that creating a group over some values takes.
pub open spec fn creation_bytes(values: Seq<Seq<char>>) -> nat {
    texts::copy_bytes(values) + texts::copy_bytes(values) + MAX_BACKENDS as nat
        * vstd::layout::size_of::<u64>()
}

impl OpenModel {
    /// Whether further reads keep the per-refresh aggregate.
    pub open spec fn may_read(self, values: nat, bytes: nat) -> bool {
        self.read_values + values <= MAX_VALUES && self.read_bytes + bytes
            <= MAX_REFRESH_VALUE_BYTES
    }

    /// The refresh after further reads.
    pub open spec fn having_read(self, values: nat, bytes: nat) -> OpenModel {
        OpenModel {
            read_values: self.read_values + values,
            read_bytes: self.read_bytes + bytes,
            ..self
        }
    }

    /// The group of a held backend.
    pub open spec fn group_of(self, account: u64) -> u64 {
        self.working.backends[self.working.backend_at(account)].group
    }

    /// The refresh after a backend's values were stored.
    pub open spec fn storing(self, account: u64, values: Seq<Seq<char>>) -> OpenModel {
        let at = self.working.backend_at(account);
        let backend = BackendModel {
            values,
            read_generation: self.generation,
            ..self.working.backends[at]
        };
        OpenModel {
            working: StateModel {
                backends: self.working.backends.update(at, backend),
                ..self.working
            },
            ..self
        }
    }

    /// The second visit of a backend kept while unhealthy but busy: its values
    /// are read for a value rule and its group is kept; nothing else changes.
    #[verifier::opaque]
    pub open spec fn revisited(
        self,
        a: Assign,
        account: u64,
        retained: nat,
        admission: Admission,
    ) -> (Result<OpenModel, InvalidReason>, Admission) {
        if !self.working.has_backend(account) || a.account != account || a.removed || a.created
            || a.group != self.group_of(account) || a.values_read != self.rule.needs_values() {
            (Err(InvalidReason::Witness), admission)
        } else {
            let (covered, after) = if a.values_read {
                covering(admission, retained + texts::copy_bytes(a.texts()))
            } else {
                (true, admission)
            };
            if !covered {
                (Err(InvalidReason::Capacity), after)
            } else {
                let stored = if a.values_read {
                    self.storing(account, a.texts())
                } else {
                    self
                };
                (
                    Ok(
                        OpenModel {
                            revisit: None,
                            next_index: self.next_index + 1,
                            ..stored
                        },
                    ),
                    after,
                )
            }
        }
    }

    /// A failed construction is bound to the pair that Go announced first.
    #[verifier::opaque]
    pub open spec fn failure_bound(self, failed: bool) -> Result<OpenModel, InvalidReason> {
        if !failed {
            Ok(self)
        } else if self.failed_constructions.len() == 0 {
            Err(InvalidReason::Witness)
        } else if self.require_native_init && !self.failed_constructions[0].init_seen {
            Err(InvalidReason::Lifecycle)
        } else {
            Ok(
                OpenModel {
                    failed_constructions: self.failed_constructions.remove(0),
                    ..self
                },
            )
        }
    }

    /// A created group is bound to its announced construction.
    #[verifier::opaque]
    pub open spec fn group_bound(self, a: Assign, created: bool) -> Result<
        OpenModel,
        InvalidReason,
    > {
        if !created {
            Ok(self)
        } else if !self.is_pending(a.group) {
            Err(InvalidReason::Lifecycle)
        } else if self.require_native_init && !self.pending_created[self.pending_at(
            a.group,
        )].init_seen {
            Err(InvalidReason::Lifecycle)
        } else if self.working.groups.len() >= MAX_GROUPS {
            Err(InvalidReason::Capacity)
        } else {
            let group = GroupModel {
                id: a.group,
                values: a.texts(),
                networks: a.texts(),
                members: Seq::empty(),
            };
            Ok(
                OpenModel {
                    pending_created: self.pending_created.remove(self.pending_at(a.group)),
                    working: StateModel {
                        groups: self.working.groups.push(group),
                        ..self.working
                    },
                    created: self.created + 1,
                    ..self
                },
            )
        }
    }

    /// A backend leaves its group. The group goes with its last member exactly
    /// when Go announced its removal.
    #[verifier::opaque]
    pub open spec fn leaving(self, account: u64, current: u64) -> Result<
        OpenModel,
        InvalidReason,
    > {
        if current == 0 {
            Ok(self)
        } else if !self.working.has_group(current) {
            Err(InvalidReason::Witness)
        } else {
            let at = self.working.group_at(current);
            let group = self.working.groups[at];
            let members = others(group.members, account);
            let announced = self.pending_removed.contains(current);
            if members.len() == 0 && announced {
                Ok(
                    OpenModel {
                        pending_removed: self.pending_removed.remove(
                            self.pending_removed.index_of(current),
                        ),
                        working: StateModel {
                            groups: self.working.groups.remove(at),
                            ..self.working
                        },
                        ..self
                    },
                )
            } else if members.len() != 0 && !announced {
                Ok(
                    OpenModel {
                        working: StateModel {
                            groups: self.working.groups.update(
                                at,
                                GroupModel { members, ..group },
                            ),
                            ..self.working
                        },
                        ..self
                    },
                )
            } else {
                Err(InvalidReason::Lifecycle)
            }
        }
    }

    /// A backend leaves the router.
    #[verifier::opaque]
    pub open spec fn dropping(self, account: u64, current: u64) -> Result<
        OpenModel,
        InvalidReason,
    > {
        match self.leaving(account, current) {
            Err(reason) => Err(reason),
            Ok(left) => Ok(
                OpenModel {
                    working: StateModel {
                        backends: left.working.backends.remove(left.working.backend_at(account)),
                        ..left.working
                    },
                    removed: self.removed + 1,
                    ..left
                },
            ),
        }
    }

    /// A backend joins a group.
    #[verifier::opaque]
    pub open spec fn joining(self, account: u64, group: u64) -> Result<OpenModel, InvalidReason> {
        if !self.working.has_group(group) {
            Err(InvalidReason::Witness)
        } else {
            let at = self.working.group_at(group);
            let joined = self.working.groups[at];
            let place = self.working.backend_at(account);
            if joined.members.len() == MAX_BACKENDS {
                Err(InvalidReason::Capacity)
            } else {
                Ok(
                    OpenModel {
                        working: StateModel {
                            groups: self.working.groups.update(
                                at,
                                GroupModel { members: joined.members.push(account), ..joined },
                            ),
                            backends: self.working.backends.update(
                                place,
                                BackendModel { group, ..self.working.backends[place] },
                            ),
                            ..self.working
                        },
                        ..self
                    },
                )
            }
        }
    }

    /// A backend stays in the router. One that is unhealthy was kept while
    /// busy and is visited again next.
    #[verifier::opaque]
    pub open spec fn keeping(self, a: Assign, input: Input, current: u64) -> Result<
        OpenModel,
        InvalidReason,
    > {
        let stored = if a.values_read {
            self.storing(a.account, a.texts())
        } else {
            self
        };
        let joined = if a.group != 0 && current == 0 {
            stored.joining(a.account, a.group)
        } else {
            Ok(stored)
        };
        match joined {
            Err(reason) => Err(reason),
            Ok(open) => Ok(
                OpenModel {
                    revisit: if !input.healthy || !input.present {
                        Some(a.account)
                    } else {
                        open.revisit
                    },
                    ..open
                },
            ),
        }
    }

    /// A decision is counted.
    pub open spec fn counting(self, account: u64) -> Result<OpenModel, InvalidReason> {
        if self.decided.len() == MAX_BACKENDS {
            Err(InvalidReason::Capacity)
        } else {
            Ok(
                OpenModel {
                    decided: self.decided.push(account),
                    next_index: self.next_index + 1,
                    ..self
                },
            )
        }
    }

    /// A derived decision takes effect.
    #[verifier::opaque]
    pub open spec fn applied(
        self,
        a: Assign,
        input: Input,
        current: u64,
        outcome: Outcome,
    ) -> Result<OpenModel, InvalidReason> {
        match self.failure_bound(outcome.construction_failed) {
            Err(reason) => Err(reason),
            Ok(first) => match first.group_bound(a, outcome.created) {
                Err(reason) => Err(reason),
                Ok(second) => match if a.removed {
                    second.dropping(a.account, current)
                } else {
                    second.keeping(a, input, current)
                } {
                    Err(reason) => Err(reason),
                    Ok(third) => third.counting(a.account),
                },
            },
        }
    }

    /// What Go decides for a backend.
    pub open spec fn outcome_of(self, a: Assign, idle: bool, parses: bool) -> Outcome {
        let input = input_of(self.inputs, a.account);
        let visit = Visit {
            healthy: input.healthy,
            present: input.present,
            current_group: self.group_of(a.account),
            witness_group: a.group,
            idle,
            parses,
        };
        self.working.outcome(self.rule, visit, a.texts())
    }

    /// The first visit of a backend.
    #[verifier::opaque]
    pub open spec fn decided_by(
        self,
        a: Assign,
        idle: bool,
        parses: bool,
        retained: nat,
        admission: Admission,
    ) -> (Result<OpenModel, InvalidReason>, Admission) {
        let input = input_of(self.inputs, a.account);
        let reads = input.healthy && input.present && self.rule.needs_values();
        let copied = texts::copy_bytes(a.texts());
        if self.decided.contains(a.account) {
            (Err(InvalidReason::Identity), admission)
        } else if !names(self.inputs, a.account) || !self.working.has_backend(a.account)
            || a.values_read != reads {
            (Err(InvalidReason::Witness), admission)
        } else {
            let current = self.group_of(a.account);
            let (tried, trial) = if reads && current == 0 {
                covering(admission, retained + copied)
            } else {
                (true, admission)
            };
            let outcome = self.outcome_of(a, idle, parses);
            let growth = (if reads {
                copied
            } else {
                0
            }) + if outcome.created {
                creation_bytes(a.texts())
            } else {
                0
            };
            let (covered, after) = covering(trial, retained + growth);
            if !tried {
                (Err(InvalidReason::Capacity), trial)
            } else if outcome.removed != a.removed || outcome.created != a.created || outcome.group
                != a.group {
                (Err(InvalidReason::Witness), trial)
            } else if !covered {
                (Err(InvalidReason::Capacity), after)
            } else {
                (self.applied(a, input, current, outcome), after)
            }
        }
    }

    /// The refresh after a decision witness.
    #[verifier::opaque]
    pub open spec fn assign(
        self,
        a: Assign,
        idle: bool,
        parses: bool,
        retained: nat,
        admission: Admission,
    ) -> (Result<OpenModel, InvalidReason>, Admission) {
        let values = a.texts().len();
        let bytes = texts::total_bytes(a.texts());
        if a.shape_refusal() is Some {
            (Err(a.shape_refusal()->0), admission)
        } else if self.generation != a.generation {
            (Err(InvalidReason::Identity), admission)
        } else if !(self.observer_error is Success) || self.cursor != 0 {
            (Err(InvalidReason::Lifecycle), admission)
        } else if a.index != self.next_index {
            (Err(InvalidReason::Sequence), admission)
        } else if !self.may_read(values, bytes) {
            (Err(InvalidReason::Capacity), admission)
        } else {
            let read = self.having_read(values, bytes);
            match self.revisit {
                Some(account) => read.revisited(a, account, retained, admission),
                None => read.decided_by(a, idle, parses, retained, admission),
            }
        }
    }
}

/// Compute [`others`].
fn without(members: &Vec<u64>, account: u64) -> (r: Vec<u64>)
    ensures
        r@ == others(members@, account),
        r@.len() <= members@.len(),
{
    let ghost all = members@;
    let mut rest: Vec<u64> = Vec::with_capacity(MAX_BACKENDS);
    let mut index: usize = 0;
    assert(all.take(0) =~= Seq::empty());
    while index < members.len()
        invariant
            all == members@,
            index <= all.len(),
            rest@ == others(all.take(index as int), account),
            rest@.len() <= index,
        decreases all.len() - index,
    {
        assert(all.take(index + 1).drop_last() =~= all.take(index as int));
        if members[index] != account {
            rest.push(members[index]);
        }
        index = index + 1;
    }
    assert(all.take(all.len() as int) =~= all);
    rest
}

/// The first input that names a backend.
fn find_input(inputs: &Vec<Input>, account: u64) -> (r: Option<Input>)
    ensures
        r is Some <==> names(inputs@, account),
        r matches Some(input) ==> input == input_of(inputs@, account),
{
    let ghost all = inputs@;
    let mut index: usize = 0;
    while index < inputs.len()
        invariant
            all == inputs@,
            index <= all.len(),
            forall|i: int| 0 <= i < index ==> (#[trigger] all[i]).account != account,
        decreases all.len() - index,
    {
        if inputs[index].account == account {
            proof {
                let at = choose|i: int|
                    0 <= i < all.len() && (#[trigger] all[i]).account == account && forall|j: int|
                        0 <= j < i ==> (#[trigger] all[j]).account != account;
                assert(all[index as int].account == account);
                assert(at == index);
            }
            return Some(inputs[index]);
        }
        index = index + 1;
    }
    None
}

/// Replacing a backend by one of the same identity keeps identities apart.
proof fn lemma_backend_replaced(known: StateModel, at: int, next: BackendModel)
    requires
        known.wf(),
        0 <= at < known.backends.len(),
        next.account == known.backends[at].account,
    ensures
        (StateModel { backends: known.backends.update(at, next), ..known }).wf(),
        state::accounts(known.backends.update(at, next)) == state::accounts(known.backends),
{
    assert(state::accounts(known.backends.update(at, next)) =~= state::accounts(known.backends));
}

/// Replacing a group by one of the same identity keeps identities apart.
proof fn lemma_group_replaced(known: StateModel, at: int, next: GroupModel)
    requires
        known.wf(),
        0 <= at < known.groups.len(),
        next.id == known.groups[at].id,
        next.members.len() <= MAX_BACKENDS,
    ensures
        (StateModel { groups: known.groups.update(at, next), ..known }).wf(),
        state::ids(known.groups.update(at, next)) == state::ids(known.groups),
{
    assert(state::ids(known.groups.update(at, next)) =~= state::ids(known.groups));
}

/// Taking an identity out keeps the others apart.
proof fn lemma_identity_removed(list: Seq<u64>, at: int)
    requires
        slices::identities(list),
        0 <= at < list.len(),
    ensures
        slices::identities(list.remove(at)),
        forall|id: u64| #[trigger] list.remove(at).contains(id) ==> list.contains(id),
{
    let rest = list.remove(at);
    assert forall|id: u64| #[trigger] rest.contains(id) implies list.contains(id) by {
        let i = rest.index_of(id);
        assert(rest[i] == id);
        if i < at {
            assert(list[i] == id);
        } else {
            assert(list[i + 1] == id);
        }
    }
}

/// Adding a fresh identity keeps all apart.
proof fn lemma_identity_added(list: Seq<u64>, id: u64)
    requires
        slices::identities(list),
        id != 0,
        !list.contains(id),
    ensures
        slices::identities(list.push(id)),
        forall|x: u64| #[trigger] list.push(id).contains(x) <==> list.contains(x) || x == id,
{
    let next = list.push(id);
    assert forall|i: int, j: int|
        0 <= i < next.len() && 0 <= j < next.len() && i != j implies next[i] != next[j] by {
        if i < list.len() {
            assert(list.contains(list[i]));
        }
        if j < list.len() {
            assert(list.contains(list[j]));
        }
    }
    assert forall|x: u64| #[trigger] next.contains(x) <==> list.contains(x) || x == id by {
        if list.contains(x) {
            let i = list.index_of(x);
            assert(next[i] == x);
        }
        assert(next[list.len() as int] == id);
        if next.contains(x) {
            let i = next.index_of(x);
            assert(next[i] == x);
            if i < list.len() {
                assert(list[i] == x);
            }
        }
    }
}

impl Open {
    fn store_values(&mut self, at: usize, values: &Vec<String>, ahead: Ghost<nat>)
        requires
            old(self).model().wf_within(ahead@),
            at < old(self).working.backends@.len(),
            at == old(self).model().working.backend_at(old(self).working.backends@[at as int].account),
        ensures
            final(self).model().wf_within(ahead@),
            final(self).model() == old(self).model().storing(
                old(self).working.backends@[at as int].account,
                texts::texts(values@),
            ),
            final(self).working.backends@.len() == old(self).working.backends@.len(),
            final(self).working.backends@[at as int].account == old(
                self,
            ).working.backends@[at as int].account,
            state::accounts(final(self).model().working.backends) == state::accounts(
                old(self).model().working.backends,
            ),
    {
        let ghost before = self.model();
        let ghost account = self.working.backends@[at as int].account;
        let generation = self.generation;
        self.working.backends[at].values = texts::copy(values);
        self.working.backends[at].read_generation = generation;
        proof {
            let next = before.storing(account, texts::texts(values@));
            assert(self.model().working.backends =~= next.working.backends);
            assert(self.model() =~= next);
            lemma_backend_replaced(before.working, at as int, next.working.backends[at as int]);
        }
    }

    fn apply_revisit(
        &mut self,
        a: &Assign,
        account: u64,
        retained: usize,
        admission: &mut Admission,
    ) -> (r: Result<(), InvalidReason>)
        requires
            old(self).model().wf(),
            old(self).next_index < MAX_BACKENDS,
        ensures
            ({
                let step = old(self).model().revisited(
                    *a,
                    account,
                    retained as nat,
                    *old(admission),
                );
                &&& *final(admission) == step.1
                &&& match step.0 {
                    Ok(open) => r is Ok && final(self).model() == open && open.wf(),
                    Err(reason) => r == Err::<(), InvalidReason>(reason),
                }
            }),
    {
        reveal(OpenModel::revisited);
        let Some(at) = self.working.backend_index(account) else {
            return Err(InvalidReason::Witness);
        };
        assert(self.model().working.backends[at as int] == self.working.backends@[at as int]@);
        if a.account != account || a.removed || a.created || a.group
            != self.working.backends[at].group || a.values_read != self.rule.reads_values() {
            return Err(InvalidReason::Witness);
        }
        if a.values_read {
            if !admission.cover(retained.saturating_add(texts::copy_charge(&a.values))) {
                return Err(InvalidReason::Capacity);
            }
            self.store_values(at, &a.values, Ghost(0));
        }
        self.revisit = None;
        self.next_index = self.next_index + 1;
        Ok(())
    }

    fn bind_failure(&mut self, failed: bool) -> (r: Result<(), InvalidReason>)
        requires
            old(self).model().wf(),
        ensures
            match old(self).model().failure_bound(failed) {
                Ok(open) => r is Ok && final(self).model() == open && open.wf(),
                Err(reason) => r == Err::<(), InvalidReason>(reason),
            },
    {
        reveal(OpenModel::failure_bound);
        if !failed {
            return Ok(());
        }
        if self.failed_constructions.len() == 0 {
            return Err(InvalidReason::Witness);
        }
        let construction = self.failed_constructions.remove(0);
        if self.require_native_init && !construction.init_seen {
            return Err(InvalidReason::Lifecycle);
        }
        Ok(())
    }

    /// Bind a created group to its announced construction and retain it with
    /// the fixed member capacity the admission charged.
    fn create_group(&mut self, a: &Assign, created: bool) -> (r: Result<(), InvalidReason>)
        requires
            old(self).model().wf(),
        ensures
            match old(self).model().group_bound(*a, created) {
                Ok(open) => r is Ok && final(self).model() == open && open.wf_within(1),
                Err(reason) => r == Err::<(), InvalidReason>(reason),
            },
    {
        reveal(OpenModel::group_bound);
        if !created {
            return Ok(());
        }
        let ghost before = self.model();
        let Some(at) = construction_index(&self.pending_created, a.group) else {
            return Err(InvalidReason::Lifecycle);
        };
        if self.require_native_init && !self.pending_created[at].init_seen {
            return Err(InvalidReason::Lifecycle);
        }
        if self.working.groups.len() >= MAX_GROUPS {
            return Err(InvalidReason::Capacity);
        }
        proof {
            lemma_removed_construction(before.pending_created, at as int);
            assert(!before.working.has_group(before.pending_created[at as int].id));
            assert(construction_ids(before.pending_created)[at as int] == a.group);
            assert(construction_ids(before.pending_created).contains(a.group));
            lemma_identity_added(state::ids(before.working.groups), a.group);
        }
        self.pending_created.remove(at);
        let group = GroupState {
            id: a.group,
            values: texts::copy(&a.values),
            networks: texts::copy(&a.values),
            members: Vec::with_capacity(MAX_BACKENDS),
        };
        self.working.groups.push(group);
        self.created = self.created + 1;
        proof {
            let next = before.group_bound(*a, created)->Ok_0;
            assert(group@ =~= next.working.groups.last());
            assert(self.model().working.groups =~= next.working.groups);
            assert(self.model() =~= next);
            assert(state::ids(next.working.groups) =~= state::ids(before.working.groups).push(
                a.group,
            ));
            assert forall|i: int| 0 <= i < next.pending_created.len() implies !next.working.has_group(
            (#[trigger] next.pending_created[i]).id) by {
                let j = if i < at {
                    i
                } else {
                    i + 1
                };
                assert(next.pending_created[i] == before.pending_created[j]);
                assert(construction_ids(next.pending_created)[i] == next.pending_created[i].id);
                assert(construction_ids(next.pending_created).contains(
                    next.pending_created[i].id,
                ));
            }
            assert forall|i: int| 0 <= i < next.working.groups.len() implies (
            #[trigger] next.working.groups[i]).members.len() <= MAX_BACKENDS by {
                if i < before.working.groups.len() {
                    assert(next.working.groups[i] == before.working.groups[i]);
                }
            }
        }
        Ok(())
    }
}

impl Open {
    fn leave_group(&mut self, account: u64, current: u64) -> (r: Result<(), InvalidReason>)
        requires
            old(self).model().wf_within(1),
            old(self).model().cursor == 0,
        ensures
            match old(self).model().leaving(account, current) {
                Ok(open) => r is Ok && final(self).model() == open && open.wf_within(1),
                Err(reason) => r == Err::<(), InvalidReason>(reason),
            },
    {
        reveal(OpenModel::leaving);
        if current == 0 {
            return Ok(());
        }
        let ghost before = self.model();
        let Some(at) = self.working.group_index(current) else {
            return Err(InvalidReason::Witness);
        };
        let members = without(&self.working.groups[at].members, account);
        let ghost group = before.working.groups[at as int];
        assert(group == self.working.groups@[at as int]@);
        let announced = slices::holds(self.pending_removed.as_slice(), current);
        if members.len() == 0 && announced {
            let mut index: usize = 0;
            while self.pending_removed[index] != current
                invariant
                    index < self.pending_removed@.len(),
                    self.pending_removed@.contains(current),
                    forall|i: int| 0 <= i < index ==> self.pending_removed@[i] != current,
                decreases self.pending_removed@.len() - index,
            {
                proof {
                    let i = self.pending_removed@.index_of(current);
                    assert(self.pending_removed@[i] == current);
                    assert(self.pending_removed.len() == self.pending_removed@.len());
                }
                index = index + 1;
            }
            proof {
                state::lemma_place(before.pending_removed, index as int);
                assert(state::ids(before.working.groups).remove(at as int) =~= state::ids(
                    before.working.groups.remove(at as int),
                ));
                lemma_identity_removed(state::ids(before.working.groups), at as int);
            }
            self.pending_removed.remove(index);
            self.working.groups.remove(at);
            proof {
                let next = before.leaving(account, current)->Ok_0;
                assert(self.model().working.groups =~= next.working.groups);
                assert(self.model() =~= next);
                assert forall|i: int| 0 <= i < next.working.groups.len() implies (
                #[trigger] next.working.groups[i]).members.len() <= MAX_BACKENDS by {
                    let j = if i < at {
                        i
                    } else {
                        i + 1
                    };
                    assert(next.working.groups[i] == before.working.groups[j]);
                }
            }
            return Ok(());
        }
        if members.len() != 0 && !announced {
            self.working.groups[at].members = members;
            proof {
                let next = before.leaving(account, current)->Ok_0;
                lemma_group_replaced(before.working, at as int, next.working.groups[at as int]);
                assert(self.model().working.groups =~= next.working.groups);
                assert(self.model() =~= next);
            }
            return Ok(());
        }
        Err(InvalidReason::Lifecycle)
    }

    fn drop_backend(&mut self, account: u64, current: u64) -> (r: Result<(), InvalidReason>)
        requires
            old(self).model().wf_within(1),
            old(self).model().cursor == 0,
            old(self).model().working.has_backend(account),
            old(self).model().removed <= old(self).model().decided.len(),
        ensures
            match old(self).model().dropping(account, current) {
                Ok(open) => r is Ok && final(self).model() == open && open.wf_within(1),
                Err(reason) => r == Err::<(), InvalidReason>(reason),
            },
    {
        reveal(OpenModel::dropping);
        reveal(OpenModel::leaving);
        let ghost start = self.model();
        if let Err(reason) = self.leave_group(account, current) {
            return Err(reason);
        }
        let ghost before = self.model();
        assert(before.working.backends == start.working.backends);
        if let Some(at) = self.working.backend_index(account) {
            proof {
                assert(state::accounts(before.working.backends).remove(at as int)
                    =~= state::accounts(before.working.backends.remove(at as int)));
                lemma_identity_removed(state::accounts(before.working.backends), at as int);
            }
            self.working.backends.remove(at);
            self.removed = self.removed + 1;
            proof {
                let next = start.dropping(account, current)->Ok_0;
                assert(self.model().working.backends =~= next.working.backends);
                assert(self.model() =~= next);
            }
        }
        Ok(())
    }

    fn join_group(&mut self, place: usize, group: u64) -> (r: Result<(), InvalidReason>)
        requires
            old(self).model().wf_within(1),
            place < old(self).working.backends@.len(),
            place == old(self).model().working.backend_at(
                old(self).working.backends@[place as int].account,
            ),
        ensures
            match old(self).model().joining(
                old(self).working.backends@[place as int].account,
                group,
            ) {
                Ok(open) => r is Ok && final(self).model() == open && open.wf_within(1),
                Err(reason) => r == Err::<(), InvalidReason>(reason),
            },
    {
        reveal(OpenModel::joining);
        let ghost before = self.model();
        let account = self.working.backends[place].account;
        let Some(at) = self.working.group_index(group) else {
            return Err(InvalidReason::Witness);
        };
        assert(before.working.groups[at as int] == self.working.groups@[at as int]@);
        assert(before.working.backends[place as int] == self.working.backends@[place as int]@);
        if self.working.groups[at].members.len() == MAX_BACKENDS {
            return Err(InvalidReason::Capacity);
        }
        proof {
            assert(before.working.groups[at as int].members.len() <= MAX_BACKENDS);
        }
        self.working.backends[place].group = group;
        self.working.groups[at].members.push(account);
        proof {
            let next = before.joining(account, group)->Ok_0;
            let moved = StateModel { groups: next.working.groups, ..before.working };
            lemma_group_replaced(before.working, at as int, next.working.groups[at as int]);
            lemma_backend_replaced(moved, place as int, next.working.backends[place as int]);
            assert(self.model().working.groups =~= next.working.groups);
            assert(self.model().working.backends =~= next.working.backends);
            assert(self.model() =~= next);
        }
        Ok(())
    }

    fn keep_backend(&mut self, a: &Assign, input: Input, current: u64) -> (r: Result<
        (),
        InvalidReason,
    >)
        requires
            old(self).model().wf_within(1),
            old(self).model().working.has_backend(a.account),
        ensures
            match old(self).model().keeping(*a, input, current) {
                Ok(open) => r is Ok && final(self).model() == open && open.wf_within(1),
                Err(reason) => r == Err::<(), InvalidReason>(reason),
            },
    {
        reveal(OpenModel::keeping);
        let Some(at) = self.working.backend_index(a.account) else {
            return Err(InvalidReason::Witness);
        };
        if a.values_read {
            self.store_values(at, &a.values, Ghost(1));
        }
        if a.group != 0 && current == 0 {
            if let Err(reason) = self.join_group(at, a.group) {
                return Err(reason);
            }
        }
        if !input.healthy || !input.present {
            self.revisit = Some(a.account);
        }
        Ok(())
    }

    proof fn lemma_bound(o: OpenModel, a: Assign, failed: bool, created: bool)
        ensures
            o.failure_bound(failed) matches Ok(first) ==> {
                &&& first.cursor == o.cursor
                &&& first.next_index == o.next_index
                &&& first.working == o.working
                &&& first.group_bound(a, created) matches Ok(second) ==> {
                    &&& second.cursor == o.cursor
                    &&& second.next_index == o.next_index
                    &&& second.working.backends == o.working.backends
                    &&& second.decided == o.decided
                    &&& second.removed == o.removed
                }
            },
    {
        reveal(OpenModel::failure_bound);
        reveal(OpenModel::group_bound);
    }

    proof fn lemma_settled(o: OpenModel, a: Assign, input: Input, current: u64)
        ensures
            o.dropping(a.account, current) matches Ok(third) ==> third.next_index == o.next_index
                && third.decided == o.decided,
            o.keeping(a, input, current) matches Ok(third) ==> third.next_index == o.next_index
                && third.decided == o.decided,
    {
        reveal(OpenModel::leaving);
        reveal(OpenModel::dropping);
        reveal(OpenModel::joining);
        reveal(OpenModel::keeping);
    }

    fn apply_assign(&mut self, a: &Assign, input: Input, current: u64, outcome: Outcome) -> (r:
        Result<(), InvalidReason>)
        requires
            old(self).model().wf(),
            old(self).model().cursor == 0,
            old(self).model().working.has_backend(a.account),
            old(self).next_index < MAX_BACKENDS,
        ensures
            match old(self).model().applied(*a, input, current, outcome) {
                Ok(open) => r is Ok && final(self).model() == open && open.wf(),
                Err(reason) => r == Err::<(), InvalidReason>(reason),
            },
    {
        reveal(OpenModel::applied);
        proof {
            Self::lemma_bound(self.model(), *a, outcome.construction_failed, outcome.created);
        }
        if let Err(reason) = self.bind_failure(outcome.construction_failed) {
            return Err(reason);
        }
        if let Err(reason) = self.create_group(a, outcome.created) {
            return Err(reason);
        }
        proof {
            Self::lemma_settled(self.model(), *a, input, current);
        }
        let settled = if a.removed {
            self.drop_backend(a.account, current)
        } else {
            self.keep_backend(a, input, current)
        };
        if let Err(reason) = settled {
            return Err(reason);
        }
        if self.decided.len() == MAX_BACKENDS {
            return Err(InvalidReason::Capacity);
        }
        self.decided.push(a.account);
        self.next_index = self.next_index + 1;
        Ok(())
    }

    fn decide(
        &mut self,
        a: &Assign,
        idle: bool,
        parses: bool,
        retained: usize,
        admission: &mut Admission,
    ) -> (r: Result<(), InvalidReason>)
        requires
            old(self).model().wf(),
            old(self).model().cursor == 0,
            old(self).next_index < MAX_BACKENDS,
        ensures
            ({
                let step = old(self).model().decided_by(
                    *a,
                    idle,
                    parses,
                    retained as nat,
                    *old(admission),
                );
                &&& *final(admission) == step.1
                &&& match step.0 {
                    Ok(open) => r is Ok && final(self).model() == open && open.wf(),
                    Err(reason) => r == Err::<(), InvalidReason>(reason),
                }
            }),
    {
        reveal(OpenModel::decided_by);
        if slices::holds(self.decided.as_slice(), a.account) {
            return Err(InvalidReason::Identity);
        }
        let Some(input) = find_input(&self.inputs, a.account) else {
            return Err(InvalidReason::Witness);
        };
        let Some(at) = self.working.backend_index(a.account) else {
            return Err(InvalidReason::Witness);
        };
        assert(self.model().working.backends[at as int] == self.working.backends@[at as int]@);
        let current = self.working.backends[at].group;
        let reads = input.healthy && input.present && self.rule.reads_values();
        if a.values_read != reads {
            return Err(InvalidReason::Witness);
        }
        let copied: usize = texts::copy_charge(&a.values);
        if reads && current == 0 {
            if !admission.cover(retained.saturating_add(copied)) {
                return Err(InvalidReason::Capacity);
            }
        }
        let visit = Visit {
            healthy: input.healthy,
            present: input.present,
            current_group: current,
            witness_group: a.group,
            idle,
            parses,
        };
        let outcome = self.working.derive_outcome(self.rule, visit, &a.values);
        assert(outcome == self.model().outcome_of(*a, idle, parses));
        if outcome.removed != a.removed || outcome.created != a.created || outcome.group
            != a.group {
            return Err(InvalidReason::Witness);
        }
        let mut growth: usize = if reads {
            copied
        } else {
            0
        };
        if outcome.created {
            growth = growth.saturating_add(copied).saturating_add(copied).saturating_add(
                charge::times(MAX_BACKENDS, core::mem::size_of::<u64>()),
            );
        }
        if !admission.cover(retained.saturating_add(growth)) {
            return Err(InvalidReason::Capacity);
        }
        self.apply_assign(a, input, current, outcome)
    }

    fn assign(
        &mut self,
        a: &Assign,
        idle: bool,
        parses: bool,
        retained: usize,
        admission: &mut Admission,
    ) -> (r: Result<(), InvalidReason>)
        requires
            old(self).model().wf(),
        ensures
            ({
                let step = old(self).model().assign(
                    *a,
                    idle,
                    parses,
                    retained as nat,
                    *old(admission),
                );
                &&& *final(admission) == step.1
                &&& match step.0 {
                    Ok(open) => r is Ok && final(self).model() == open && open.wf(),
                    Err(reason) => r == Err::<(), InvalidReason>(reason),
                }
            }),
    {
        reveal(OpenModel::assign);
        if let Err(reason) = a.validate() {
            return Err(reason);
        }
        if self.generation != a.generation {
            return Err(InvalidReason::Identity);
        }
        if self.observer_error != ErrorClass::Success || self.cursor != 0 {
            return Err(InvalidReason::Lifecycle);
        }
        if a.index != self.next_index {
            return Err(InvalidReason::Sequence);
        }
        if !self.account(a.values.len(), texts::total_length(&a.values)) {
            return Err(InvalidReason::Capacity);
        }
        match self.revisit {
            Some(account) => self.apply_revisit(a, account, retained, admission),
            None => self.decide(a, idle, parses, retained, admission),
        }
    }

    /// Charge one frame's reads against Go's per-refresh aggregate.
    fn account(&mut self, values: usize, bytes: usize) -> (r: bool)
        requires
            old(self).model().wf(),
            values <= MAX_VALUES,
            bytes <= MAX_REFRESH_VALUE_BYTES,
        ensures
            r == old(self).model().may_read(values as nat, bytes as nat),
            r ==> final(self).model() == old(self).model().having_read(values as nat, bytes as nat)
                && final(self).model().wf() && final(self).next_index == old(self).next_index
                && final(self).revisit == old(self).revisit,
    {
        if self.read_values + values > MAX_VALUES || self.read_bytes + bytes
            > MAX_REFRESH_VALUE_BYTES {
            return false;
        }
        self.read_values = self.read_values + values;
        self.read_bytes = self.read_bytes + bytes;
        true
    }
}

impl TrackerModel {
    /// The tracker after a decision witness, and the admission afterwards.
    pub open spec fn assign(self, a: Assign, idle: bool, parses: bool, admission: Admission) -> (
        Result<TrackerModel, InvalidReason>,
        Admission,
    ) {
        match (self.failed, self.open) {
            (Some(reason), _) => (Err(reason), admission),
            (None, None) => (Err(InvalidReason::Lifecycle), admission),
            (None, Some(open)) => {
                let retained = charge::clamp(self.retained_bytes());
                let (step, after) = open.assign(a, idle, parses, retained, admission);
                match step {
                    Ok(next) => (Ok(self.stepped(next)), after),
                    Err(reason) => (Err(reason), after),
                }
            },
        }
    }
}

impl Tracker {
    /// Consume one visit witness. `idle` is the ledger's view of the backend
    /// at the actual Group critical section: no physical connection and zero
    /// score. `parses` says whether a fresh matcher over the read values would
    /// parse. The witness must equal the independently derived outcome, a
    /// created or emptied group must match its real lifecycle, and a backend
    /// kept while unhealthy-but-busy must be revisited by the very next frame,
    /// exactly as Go's loop falls through to the ordinary group branch. Every
    /// retained copy is covered before it is made.
    pub fn assign(&mut self, a: &Assign, idle: bool, parses: bool, admission: &mut Admission) -> (r:
        Result<(), InvalidReason>)
        requires
            old(self)@.wf(),
        ensures
            final(self)@.wf(),
            *final(admission) == old(self)@.assign(*a, idle, parses, *old(admission)).1,
            match old(self)@.assign(*a, idle, parses, *old(admission)).0 {
                Ok(next) => r is Ok && final(self)@ == next,
                Err(reason) => r == Err::<(), InvalidReason>(reason) && old(self)@.fails(
                    final(self)@,
                    reason,
                ),
            },
    {
        if let Some(reason) = self.failed {
            return Err(reason);
        }
        let retained: usize = self.retained_charge();
        let result = match &mut self.open {
            Some(open) => open.assign(a, idle, parses, retained, admission),
            None => Err(InvalidReason::Lifecycle),
        };
        if let Err(reason) = result {
            self.poison(reason);
        }
        result
    }
}

/// The heap bytes of exact copies of all member reads.
pub open spec fn tape_bytes(tape: Seq<MemberModel>) -> nat
    decreases tape.len(),
{
    if tape.len() == 0 {
        0
    } else {
        tape_bytes(tape.drop_last()) + texts::copy_bytes(tape.last().values)
    }
}

/// Whether every backend of a tape belongs to a group.
pub open spec fn all_members(tape: Seq<MemberModel>, members: Seq<u64>) -> bool {
    forall|i: int| 0 <= i < tape.len() ==> members.contains((#[trigger] tape[i]).account)
}

impl OpenModel {
    /// The refresh after each member's values were stored, if it holds them all.
    pub open spec fn storing_all(self, tape: Seq<MemberModel>) -> Option<OpenModel>
        decreases tape.len(),
    {
        if tape.len() == 0 {
            Some(self)
        } else {
            match self.storing_all(tape.drop_last()) {
                None => None,
                Some(open) => if open.working.has_backend(tape.last().account) {
                    Some(open.storing(tape.last().account, tape.last().values))
                } else {
                    None
                },
            }
        }
    }

    /// A group's recomputation from its members' reads. A result that does not
    /// parse is stored, and the networks stay as they were.
    #[verifier::opaque]
    pub open spec fn recomputed(
        self,
        frame: Refresh,
        parses: bool,
        retained: nat,
        admission: Admission,
    ) -> (Result<OpenModel, InvalidReason>, Admission) {
        let group = self.working.groups[self.cursor as int];
        let tape = frame.tape();
        let growth = tape_bytes(tape) + texts::copy_bytes(frame.texts()) + texts::copy_bytes(
            frame.texts(),
        );
        let (covered, after) = covering(admission, retained + growth);
        if tape.len() != group.members.len() || !all_members(tape, group.members)
            || !state::is_union(frame.texts(), tape) {
            (Err(InvalidReason::Witness), admission)
        } else if !covered {
            (Err(InvalidReason::Capacity), after)
        } else {
            match self.storing_all(tape) {
                None => (Err(InvalidReason::Witness), after),
                Some(open) => if parses != frame.parsed {
                    (Err(InvalidReason::Witness), after)
                } else {
                    let stored = GroupModel {
                        values: frame.texts(),
                        networks: if parses {
                            frame.texts()
                        } else {
                            group.networks
                        },
                        ..group
                    };
                    (
                        Ok(
                            OpenModel {
                                working: StateModel {
                                    groups: open.working.groups.update(self.cursor as int, stored),
                                    ..open.working
                                },
                                refresh_failed: self.refresh_failed + if parses {
                                    0nat
                                } else {
                                    1nat
                                },
                                cursor: self.cursor + 1,
                                ..open
                            },
                        ),
                        after,
                    )
                },
            }
        }
    }

    /// The refresh after a recomputation witness, in group order after the
    /// last decision.
    #[verifier::opaque]
    pub open spec fn refresh(
        self,
        frame: Refresh,
        parses: bool,
        retained: nat,
        admission: Admission,
    ) -> (Result<OpenModel, InvalidReason>, Admission) {
        if frame.shape_refusal() is Some {
            (Err(frame.shape_refusal()->0), admission)
        } else if self.generation != frame.generation {
            (Err(InvalidReason::Identity), admission)
        } else if !(self.observer_error is Success) || self.revisit is Some || self.decided.len()
            != self.expected {
            (Err(InvalidReason::Lifecycle), admission)
        } else if self.cursor >= self.working.groups.len()
            || self.working.groups[self.cursor as int].id != frame.group {
            (Err(InvalidReason::Sequence), admission)
        } else if frame.values_read != self.rule.is_cidr() {
            (Err(InvalidReason::Witness), admission)
        } else if !self.may_read(frame.value_count(), frame.byte_count()) {
            (Err(InvalidReason::Capacity), admission)
        } else {
            let read = self.having_read(frame.value_count(), frame.byte_count());
            if self.rule.is_cidr() {
                read.recomputed(frame, parses, retained, admission)
            } else {
                (Ok(OpenModel { cursor: self.cursor + 1, ..read }), admission)
            }
        }
    }
}

impl TrackerModel {
    /// The tracker after a recomputation witness, and the admission afterwards.
    pub open spec fn refresh(self, frame: Refresh, parses: bool, admission: Admission) -> (
        Result<TrackerModel, InvalidReason>,
        Admission,
    ) {
        match (self.failed, self.open) {
            (Some(reason), _) => (Err(reason), admission),
            (None, None) => (Err(InvalidReason::Lifecycle), admission),
            (None, Some(open)) => {
                let retained = charge::clamp(self.retained_bytes());
                let (step, after) = open.refresh(frame, parses, retained, admission);
                match step {
                    Ok(next) => (Ok(self.stepped(next)), after),
                    Err(reason) => (Err(reason), after),
                }
            },
        }
    }
}

/// Storing members' values leaves everything else alone.
proof fn lemma_storing_all(open: OpenModel, tape: Seq<MemberModel>)
    requires
        open.wf(),
    ensures
        open.storing_all(tape) matches Some(next) ==> {
            &&& next.wf()
            &&& next.working.groups == open.working.groups
            &&& next.cursor == open.cursor
            &&& next.refresh_failed == open.refresh_failed
            &&& state::accounts(next.working.backends) == state::accounts(open.working.backends)
        },
    decreases tape.len(),
{
    if tape.len() > 0 {
        lemma_storing_all(open, tape.drop_last());
        if let Some(before) = open.storing_all(tape.drop_last()) {
            if before.working.has_backend(tape.last().account) {
                let at = before.working.backend_at(tape.last().account);
                let next = before.storing(tape.last().account, tape.last().values);
                assert(state::accounts(before.working.backends)[at] == tape.last().account);
                lemma_backend_replaced(before.working, at, next.working.backends[at]);
            }
        }
    }
}

impl Open {
    fn store_all(&mut self, members: &Vec<super::Member>) -> (r: bool)
        requires
            old(self).model().wf(),
        ensures
            match old(self).model().storing_all(super::reads(members@)) {
                Some(open) => r && final(self).model() == open,
                None => !r,
            },
    {
        let ghost before = self.model();
        let ghost tape = super::reads(members@);
        let mut index: usize = 0;
        assert(tape.take(0) =~= Seq::empty());
        while index < members.len()
            invariant
                before.wf(),
                before == old(self).model(),
                tape == super::reads(members@),
                index <= tape.len(),
                before.storing_all(tape.take(index as int)) == Some(self.model()),
                self.model().wf(),
            decreases tape.len() - index,
        {
            let member = &members[index];
            proof {
                assert(tape.take(index + 1).drop_last() =~= tape.take(index as int));
                assert(tape.take(index + 1).last() == member@);
            }
            match self.working.backend_index(member.account) {
                Some(at) => self.store_values(at, &member.values, Ghost(0)),
                None => {
                    proof {
                        lemma_missing(before, tape, index + 1);
                    }
                    return false;
                },
            }
            index = index + 1;
        }
        assert(tape.take(tape.len() as int) =~= tape);
        true
    }

    fn apply_cidr_refresh(
        &mut self,
        frame: &Refresh,
        parses: bool,
        retained: usize,
        admission: &mut Admission,
    ) -> (r: Result<(), InvalidReason>)
        requires
            old(self).model().wf(),
            old(self).cursor < old(self).working.groups@.len(),
        ensures
            ({
                let step = old(self).model().recomputed(
                    *frame,
                    parses,
                    retained as nat,
                    *old(admission),
                );
                &&& *final(admission) == step.1
                &&& match step.0 {
                    Ok(open) => r is Ok && final(self).model() == open && open.wf(),
                    Err(reason) => r == Err::<(), InvalidReason>(reason),
                }
            }),
    {
        reveal(OpenModel::recomputed);
        let ghost before = self.model();
        let cursor: usize = self.cursor;
        let ghost group = before.working.groups[cursor as int];
        let ghost tape = frame.tape();
        assert(group == self.working.groups@[cursor as int]@);
        if frame.members.len() != self.working.groups[cursor].members.len() {
            return Err(InvalidReason::Witness);
        }
        let mut growth: usize = 0;
        let mut index: usize = 0;
        assert(tape.take(0) =~= Seq::empty());
        while index < frame.members.len()
            invariant
                before == self.model(),
                group == before.working.groups[cursor as int],
                cursor < self.working.groups@.len(),
                group == self.working.groups@[cursor as int]@,
                tape == frame.tape(),
                tape.len() == group.members.len(),
                index <= tape.len(),
                growth == charge::clamp(tape_bytes(tape.take(index as int))),
                forall|i: int|
                    0 <= i < index ==> group.members.contains((#[trigger] tape[i]).account),
                *admission == *old(admission),
                before == old(self).model(),
                cursor == before.cursor,
            decreases tape.len() - index,
        {
            proof {
                assert(tape.take(index + 1).drop_last() =~= tape.take(index as int));
            }
            let member = &frame.members[index];
            assert(tape[index as int] == member@);
            if !slices::holds(self.working.groups[cursor].members.as_slice(), member.account) {
                reveal(OpenModel::recomputed);
                assert(!all_members(tape, group.members));
                return Err(InvalidReason::Witness);
            }
            growth = growth.saturating_add(texts::copy_charge(&member.values));
            index = index + 1;
        }
        assert(tape.take(tape.len() as int) =~= tape);
        // The stored result must be exactly the distinct union of the reads.
        if !state::union_of(&frame.values, &frame.members) {
            return Err(InvalidReason::Witness);
        }
        let copied: usize = texts::copy_charge(&frame.values);
        growth = growth.saturating_add(copied).saturating_add(copied);
        if !admission.cover(retained.saturating_add(growth)) {
            return Err(InvalidReason::Capacity);
        }
        proof {
            lemma_storing_all(before, tape);
        }
        if !self.store_all(&frame.members) {
            return Err(InvalidReason::Witness);
        }
        if parses != frame.parsed {
            return Err(InvalidReason::Witness);
        }
        let ghost middle = self.model();
        assert(self.working.groups@[cursor as int]@ == middle.working.groups[cursor as int]);
        self.working.groups[cursor].values = texts::copy(&frame.values);
        if parses {
            self.working.groups[cursor].networks = texts::copy(&frame.values);
        } else {
            self.refresh_failed = self.refresh_failed + 1;
        }
        self.cursor = self.cursor + 1;
        proof {
            let next = before.recomputed(*frame, parses, retained as nat, *old(admission)).0->Ok_0;
            lemma_group_replaced(
                middle.working,
                cursor as int,
                next.working.groups[cursor as int],
            );
            assert(self.model().working.groups =~= next.working.groups);
            assert(self.model() =~= next);
        }
        Ok(())
    }

    fn refresh(
        &mut self,
        frame: &Refresh,
        parses: bool,
        retained: usize,
        admission: &mut Admission,
    ) -> (r: Result<(), InvalidReason>)
        requires
            old(self).model().wf(),
        ensures
            ({
                let step = old(self).model().refresh(
                    *frame,
                    parses,
                    retained as nat,
                    *old(admission),
                );
                &&& *final(admission) == step.1
                &&& match step.0 {
                    Ok(open) => r is Ok && final(self).model() == open && open.wf(),
                    Err(reason) => r == Err::<(), InvalidReason>(reason),
                }
            }),
    {
        reveal(OpenModel::refresh);
        if let Err(reason) = frame.validate() {
            return Err(reason);
        }
        if self.generation != frame.generation {
            return Err(InvalidReason::Identity);
        }
        if self.observer_error != ErrorClass::Success || self.revisit.is_some()
            || self.decided.len() != self.expected {
            return Err(InvalidReason::Lifecycle);
        }
        let cursor: usize = self.cursor;
        if cursor >= self.working.groups.len() {
            return Err(InvalidReason::Sequence);
        }
        assert(self.model().working.groups[cursor as int] == self.working.groups@[cursor as int]@);
        if self.working.groups[cursor].id != frame.group {
            return Err(InvalidReason::Sequence);
        }
        let cidr = self.rule.cidr();
        if frame.values_read != cidr {
            return Err(InvalidReason::Witness);
        }
        let Some((values, bytes)) = frame.read_size() else {
            return Err(InvalidReason::Capacity);
        };
        if !self.account(values, bytes) {
            return Err(InvalidReason::Capacity);
        }
        if cidr {
            return self.apply_cidr_refresh(frame, parses, retained, admission);
        }
        self.cursor = self.cursor + 1;
        Ok(())
    }
}

/// A tape that fails to store fails as a whole.
proof fn lemma_missing(open: OpenModel, tape: Seq<MemberModel>, count: int)
    requires
        0 <= count <= tape.len(),
        open.storing_all(tape.take(count)) is None,
    ensures
        open.storing_all(tape) is None,
    decreases tape.len() - count,
{
    if count == tape.len() {
        assert(tape.take(count) =~= tape);
    } else {
        assert(tape.take(count + 1).drop_last() =~= tape.take(count));
        lemma_missing(open, tape, count + 1);
    }
}

impl Tracker {
    /// Consume one Group recomputation witness, in Go's group order after the
    /// last decision. For a CIDR rule the member read tape must cover exactly
    /// the derived membership; the stored result must be the distinct union of
    /// those reads, and `parses`, whether it parses, is compared with Go's own
    /// outcome. Every retained copy is covered before it is made.
    pub fn refresh(&mut self, frame: &Refresh, parses: bool, admission: &mut Admission) -> (r:
        Result<(), InvalidReason>)
        requires
            old(self)@.wf(),
        ensures
            final(self)@.wf(),
            *final(admission) == old(self)@.refresh(*frame, parses, *old(admission)).1,
            match old(self)@.refresh(*frame, parses, *old(admission)).0 {
                Ok(next) => r is Ok && final(self)@ == next,
                Err(reason) => r == Err::<(), InvalidReason>(reason) && old(self)@.fails(
                    final(self)@,
                    reason,
                ),
            },
    {
        if let Some(reason) = self.failed {
            return Err(reason);
        }
        let retained: usize = self.retained_charge();
        let result = match &mut self.open {
            Some(open) => open.refresh(frame, parses, retained, admission),
            None => Err(InvalidReason::Lifecycle),
        };
        if let Err(reason) = result {
            self.poison(reason);
        }
        result
    }
}

/// How many values some backends retain.
pub open spec fn backend_values(backends: Seq<BackendModel>) -> nat
    decreases backends.len(),
{
    if backends.len() == 0 {
        0
    } else {
        backend_values(backends.drop_last()) + backends.last().values.len()
    }
}

/// How many value bytes some backends retain.
pub open spec fn backend_value_bytes(backends: Seq<BackendModel>) -> nat
    decreases backends.len(),
{
    if backends.len() == 0 {
        0
    } else {
        backend_value_bytes(backends.drop_last()) + texts::total_bytes(backends.last().values)
    }
}

/// How many values some groups retain.
pub open spec fn group_values(groups: Seq<GroupModel>) -> nat
    decreases groups.len(),
{
    if groups.len() == 0 {
        0
    } else {
        group_values(groups.drop_last()) + groups.last().values.len()
    }
}

/// How many value bytes some groups retain.
pub open spec fn group_value_bytes(groups: Seq<GroupModel>) -> nat
    decreases groups.len(),
{
    if groups.len() == 0 {
        0
    } else {
        group_value_bytes(groups.drop_last()) + texts::total_bytes(groups.last().values)
    }
}

/// Whether the retained values keep their aggregate bounds.
pub open spec fn retainable(known: StateModel) -> bool {
    &&& backend_values(known.backends) + group_values(known.groups) <= MAX_RETAINED_VALUES
    &&& backend_value_bytes(known.backends) + group_value_bytes(known.groups)
        <= MAX_RETAINED_VALUE_BYTES
}

impl State {
    /// Retained grouping values across backends and groups, and their bytes,
    /// as far as a machine word can hold them.
    fn retained_values(&self) -> (r: (usize, usize))
        ensures
            r.0 == charge::clamp(backend_values(self@.backends) + group_values(self@.groups)),
            r.1 == charge::clamp(
                backend_value_bytes(self@.backends) + group_value_bytes(self@.groups),
            ),
    {
        let ghost backends = self@.backends;
        let ghost groups = self@.groups;
        let mut values: usize = 0;
        let mut bytes: usize = 0;
        let mut index: usize = 0;
        assert(backends.take(0) =~= Seq::empty());
        while index < self.backends.len()
            invariant
                backends == self@.backends,
                index <= backends.len(),
                values == charge::clamp(backend_values(backends.take(index as int))),
                bytes == charge::clamp(backend_value_bytes(backends.take(index as int))),
            decreases backends.len() - index,
        {
            assert(backends.take(index + 1).drop_last() =~= backends.take(index as int));
            values = values.saturating_add(self.backends[index].values.len());
            bytes = bytes.saturating_add(texts::total_length(&self.backends[index].values));
            index = index + 1;
        }
        assert(backends.take(backends.len() as int) =~= backends);
        let mut index: usize = 0;
        assert(groups.take(0) =~= Seq::empty());
        while index < self.groups.len()
            invariant
                backends == self@.backends,
                groups == self@.groups,
                index <= groups.len(),
                values == charge::clamp(
                    backend_values(backends) + group_values(groups.take(index as int)),
                ),
                bytes == charge::clamp(
                    backend_value_bytes(backends) + group_value_bytes(groups.take(index as int)),
                ),
            decreases groups.len() - index,
        {
            assert(groups.take(index + 1).drop_last() =~= groups.take(index as int));
            values = values.saturating_add(self.groups[index].values.len());
            bytes = bytes.saturating_add(texts::total_length(&self.groups[index].values));
            index = index + 1;
        }
        assert(groups.take(groups.len() as int) =~= groups);
        (values, bytes)
    }

    /// Compute [`port_bytes`] as far as a machine word can hold it, and the
    /// number of claims.
    fn port_plan(&self) -> (r: (usize, usize))
        requires
            group_values(self@.groups) <= MAX_RETAINED_VALUES,
        ensures
            r.0 == group_values(self@.groups),
            r.1 == charge::clamp(port_bytes(self@.groups)),
    {
        let ghost groups = self@.groups;
        let mut values: usize = 0;
        let mut bytes: usize = 0;
        let mut index: usize = 0;
        assert(groups.take(0) =~= Seq::empty());
        while index < self.groups.len()
            invariant
                groups == self@.groups,
                index <= groups.len(),
                values == charge::clamp(group_values(groups.take(index as int))),
                bytes == charge::clamp(group_value_bytes(groups.take(index as int))),
            decreases groups.len() - index,
        {
            assert(groups.take(index + 1).drop_last() =~= groups.take(index as int));
            values = values.saturating_add(self.groups[index].values.len());
            bytes = bytes.saturating_add(texts::total_length(&self.groups[index].values));
            index = index + 1;
        }
        assert(groups.take(groups.len() as int) =~= groups);
        let spines = charge::times(values, core::mem::size_of::<state::Claim>());
        (values, spines.saturating_add(bytes))
    }
}

/// The bytes of the port claims of some groups, which the conflicts are derived
/// from.
pub open spec fn port_bytes(groups: Seq<GroupModel>) -> nat {
    group_values(groups) * vstd::layout::size_of::<state::Claim>() + group_value_bytes(groups)
}

/// The claims of some groups are as many as their values.
proof fn lemma_claims(groups: Seq<GroupModel>)
    ensures
        state::claims(groups).len() == group_values(groups),
    decreases groups.len(),
{
    if groups.len() != 0 {
        lemma_claims(groups.drop_last());
    }
}

impl OpenModel {
    /// Whether the claimed ports exceed what a conflict table may bind.
    pub open spec fn overclaims(self) -> bool {
        self.rule is Port && state::ports(state::claims(self.working.groups)).len()
            > MAX_PORT_ENTRIES
    }

    /// The bytes that deriving the conflicts takes.
    pub open spec fn plan_bytes(self) -> nat {
        if self.rule is Port {
            port_bytes(self.working.groups)
        } else {
            0
        }
    }

    /// Ports that two clusters claim after this refresh.
    pub open spec fn conflicts(self) -> nat {
        if self.rule is Port {
            state::contested_ports(state::claims(self.working.groups)).len()
        } else {
            0
        }
    }

    /// The tail that a refresh with an observer error must show: nothing was
    /// rebuilt.
    pub open spec fn idle_tail(self, committed_gate: bool) -> End {
        End {
            generation: self.generation,
            support_redirection: committed_gate,
            groups: self.working.groups.len() as u16,
            created: 0,
            removed: 0,
            refresh_failed: 0,
            conflicts: 0,
        }
    }

    /// The tail that a complete refresh must show.
    pub open spec fn full_tail(self) -> End {
        End {
            generation: self.generation,
            support_redirection: self.working.support_redirection,
            groups: self.working.groups.len() as u16,
            created: self.created as u16,
            removed: self.removed as u16,
            refresh_failed: self.refresh_failed as u16,
            conflicts: self.conflicts() as u16,
        }
    }

    /// Whether every decision was made and every announced group was bound.
    pub open spec fn settled(self) -> bool {
        &&& self.decided.len() == self.expected
        &&& self.revisit is None
        &&& self.pending_created.len() == 0
        &&& self.failed_constructions.len() == 0
        &&& self.pending_removed.len() == 0
    }

    /// The metadata that a refresh commits, or why it cannot.
    #[verifier::opaque]
    pub open spec fn end(self, tail: End, committed_gate: bool, retained: nat, admission: Admission) -> (
        Result<StateModel, InvalidReason>,
        Admission,
    ) {
        if self.generation != tail.generation {
            (Err(InvalidReason::Identity), admission)
        } else if !self.settled() {
            (Err(InvalidReason::Lifecycle), admission)
        } else if !(self.observer_error is Success) {
            if tail == self.idle_tail(committed_gate) {
                (Ok(self.working), admission)
            } else {
                (Err(InvalidReason::Witness), admission)
            }
        } else if self.cursor != self.working.groups.len() {
            (Err(InvalidReason::Lifecycle), admission)
        } else if !retainable(self.working) || self.overclaims() {
            (Err(InvalidReason::Capacity), admission)
        } else {
            let (covered, after) = covering(admission, retained + self.plan_bytes());
            if !covered || self.conflicts() > u16::MAX {
                (Err(InvalidReason::Capacity), after)
            } else if tail != self.full_tail() {
                (Err(InvalidReason::Witness), after)
            } else {
                (
                    Ok(
                        StateModel {
                            conflicts: self.conflicts(),
                            detector_present: self.rule is Port,
                            ..self.working
                        },
                    ),
                    after,
                )
            }
        }
    }
}

impl TrackerModel {
    /// The tracker after a refresh tail, and the admission afterwards.
    pub open spec fn end(self, tail: End, admission: Admission) -> (
        Result<TrackerModel, InvalidReason>,
        Admission,
    ) {
        match (self.failed, self.open) {
            (Some(reason), _) => (Err(reason), admission),
            (None, None) => (Err(InvalidReason::Lifecycle), admission),
            (None, Some(open)) => {
                let retained = charge::clamp(self.retained_bytes());
                let gate = self.state.support_redirection;
                let (step, after) = open.end(tail, gate, retained, admission);
                match step {
                    Ok(state) => (
                        Ok(
                            TrackerModel {
                                last_generation: open.generation,
                                state,
                                open: None,
                                ..self
                            },
                        ),
                        after,
                    ),
                    Err(reason) => (Err(reason), after),
                }
            },
        }
    }
}

impl Open {
    fn end(
        &mut self,
        tail: End,
        committed_gate: bool,
        retained: usize,
        admission: &mut Admission,
    ) -> (r: Result<(), InvalidReason>)
        requires
            old(self).model().wf(),
        ensures
            final(self).generation == old(self).generation,
            ({
                let step = old(self).model().end(
                    tail,
                    committed_gate,
                    retained as nat,
                    *old(admission),
                );
                &&& *final(admission) == step.1
                &&& match step.0 {
                    Ok(state) => r is Ok && final(self).working@ == state && state.wf(),
                    Err(reason) => r == Err::<(), InvalidReason>(reason),
                }
            }),
    {
        reveal(OpenModel::end);
        if self.generation != tail.generation {
            return Err(InvalidReason::Identity);
        }
        if self.decided.len() != self.expected || self.revisit.is_some()
            || self.pending_created.len() != 0 || self.failed_constructions.len() != 0
            || self.pending_removed.len() != 0 {
            return Err(InvalidReason::Lifecycle);
        }
        let groups = self.working.groups.len() as u16;
        if self.observer_error != ErrorClass::Success {
            // Go returns before any grouping work: nothing is rebuilt and the
            // tail reports zero refresh failures and conflicts.
            let expected = End {
                generation: self.generation,
                support_redirection: committed_gate,
                groups,
                created: 0,
                removed: 0,
                refresh_failed: 0,
                conflicts: 0,
            };
            return if tail == expected {
                Ok(())
            } else {
                Err(InvalidReason::Witness)
            };
        }
        if self.cursor != self.working.groups.len() {
            return Err(InvalidReason::Lifecycle);
        }
        let (values, bytes) = self.working.retained_values();
        if values > MAX_RETAINED_VALUES || bytes > MAX_RETAINED_VALUE_BYTES {
            return Err(InvalidReason::Capacity);
        }
        // The claims are planned and covered before they are listed.
        let mut plan: usize = 0;
        if self.rule == Rule::Port {
            let (values, bytes) = self.working.port_plan();
            proof {
                lemma_claims(self.working@.groups);
                state::lemma_ports(state::claims(self.working@.groups));
            }
            if values > MAX_PORT_ENTRIES && state::count_ports(&self.working.port_claims())
                > MAX_PORT_ENTRIES {
                return Err(InvalidReason::Capacity);
            }
            plan = bytes;
        }
        if !admission.cover(retained.saturating_add(plan)) {
            return Err(InvalidReason::Capacity);
        }
        let conflicts: usize = if self.rule == Rule::Port {
            state::count_contested(&self.working.port_claims())
        } else {
            0
        };
        if conflicts > u16::MAX as usize {
            return Err(InvalidReason::Capacity);
        }
        let expected = End {
            generation: self.generation,
            support_redirection: self.working.support_redirection,
            groups,
            created: self.created,
            removed: self.removed,
            refresh_failed: self.refresh_failed,
            conflicts: conflicts as u16,
        };
        if tail != expected {
            return Err(InvalidReason::Witness);
        }
        self.working.conflicts = conflicts;
        self.working.detector_present = self.rule == Rule::Port;
        Ok(())
    }
}

/// The first of some groups that a client matches.
pub open spec fn first_match(groups: Seq<GroupModel>, rule: Rule, matches: Seq<bool>) -> Option<
    u64,
>
    decreases groups.len(),
{
    if groups.len() == 0 {
        None
    } else {
        match first_match(groups.drop_last(), rule, matches) {
            Some(id) => Some(id),
            None => if rule is All || groups.len() <= matches.len() && matches[groups.len() - 1] {
                Some(groups.last().id)
            } else {
                None
            },
        }
    }
}

impl TrackerModel {
    /// How committed metadata classifies a client. `matches` says of each group
    /// in order whether its networks hold the client's address.
    pub open spec fn classify(self, generation: u64, matches: Seq<bool>, port: Seq<u8>) -> Result<
        Classification,
        InvalidReason,
    > {
        if self.tail_refusal() is Some {
            Err(self.tail_refusal()->0)
        } else if generation != self.last_generation || generation == 0 {
            Err(InvalidReason::Identity)
        } else if !(self.state.observer_error is Success) {
            Ok(Classification::ObserverError(self.state.observer_error))
        } else if self.state.rule == Some(Rule::Port) {
            let list = state::claims(self.state.groups);
            if state::contested(list, port) {
                Ok(Classification::Conflict)
            } else {
                match state::first_claimant(list, port) {
                    Some(id) => Ok(Classification::Group(id)),
                    None => Ok(Classification::NoGroup),
                }
            }
        } else {
            let rule = match self.state.rule {
                Some(rule) => rule,
                None => Rule::ClientCidr,
            };
            match first_match(self.state.groups, rule, matches) {
                Some(id) => Ok(Classification::Group(id)),
                None => Ok(Classification::NoGroup),
            }
        }
    }

    /// The rule and observer error of the committed generation.
    pub open spec fn route_header(self, generation: u64) -> Result<
        (Rule, ErrorClass),
        InvalidReason,
    > {
        if self.tail_refusal() is Some {
            Err(self.tail_refusal()->0)
        } else if generation != self.last_generation || self.state.rule is None {
            Err(InvalidReason::Identity)
        } else {
            Ok((self.state.rule->0, self.state.observer_error))
        }
    }
}

impl Tracker {
    /// Close the refresh: cover and list the port claims, derive the conflicts
    /// and the folded redirection, compare the tail witness against the derived counts and commit.
    pub fn end(&mut self, tail: End, admission: &mut Admission) -> (r: Result<(), InvalidReason>)
        requires
            old(self)@.wf(),
        ensures
            final(self)@.wf(),
            *final(admission) == old(self)@.end(tail, *old(admission)).1,
            match old(self)@.end(tail, *old(admission)).0 {
                Ok(next) => r is Ok && final(self)@ == next,
                Err(reason) => r == Err::<(), InvalidReason>(reason) && old(self)@.fails(
                    final(self)@,
                    reason,
                ),
            },
    {
        if let Some(reason) = self.failed {
            return Err(reason);
        }
        let retained: usize = self.retained_charge();
        let gate = self.state.support_redirection;
        let result = match &mut self.open {
            Some(open) => open.end(tail, gate, retained, admission),
            None => Err(InvalidReason::Lifecycle),
        };
        if let Err(reason) = result {
            self.poison(reason);
            return Err(reason);
        }
        if let Some(open) = self.open.take() {
            self.last_generation = open.generation;
            self.state = open.working;
        }
        Ok(())
    }

    /// Last committed live group identities in Go order.
    pub fn known_groups(&self) -> (r: Result<Groups, InvalidReason>)
        requires
            self@.wf(),
        ensures
            r matches Ok(groups) && groups.wf() && groups@ == state::ids(self@.state.groups),
    {
        let mut list: Vec<u64> = Vec::new();
        let mut index: usize = 0;
        while index < self.state.groups.len()
            invariant
                index <= self.state.groups@.len(),
                list@.len() == index,
                forall|i: int| 0 <= i < index ==> list@[i] == state::ids(self@.state.groups)[i],
            decreases self.state.groups@.len() - index,
        {
            list.push(self.state.groups[index].id);
            index = index + 1;
        }
        assert(list@ =~= state::ids(self@.state.groups));
        Groups::new(list.as_slice())
    }

    /// A committed live group, for callers that replay the actual per-Group
    /// match reads in known-group order instead of using `classify`.
    pub fn matcher(&self, group: u64) -> (r: Result<Option<&GroupState>, InvalidReason>)
        requires
            self@.wf(),
        ensures
            match self@.tail_refusal() {
                Some(reason) => r == Err::<Option<&GroupState>, InvalidReason>(reason),
                None => r is Ok,
            },
            r matches Ok(found) ==> {
                &&& found is Some <==> self@.state.has_group(group)
                &&& found matches Some(state) ==> state@ == self@.state.groups[self@.state.group_at(
                    group,
                )]
            },
    {
        if let Err(reason) = self.tail() {
            return Err(reason);
        }
        match self.state.group_index(group) {
            Some(at) => Ok(Some(&self.state.groups[at])),
            None => Ok(None),
        }
    }

    /// The rule and observer error of the committed generation.
    pub fn route_header(&self, generation: u64) -> (r: Result<(Rule, ErrorClass), InvalidReason>)
        ensures
            r == self@.route_header(generation),
    {
        if let Err(reason) = self.tail() {
            return Err(reason);
        }
        if generation != self.last_generation {
            return Err(InvalidReason::Identity);
        }
        match self.state.rule {
            Some(rule) => Ok((rule, self.state.observer_error)),
            None => Err(InvalidReason::Identity),
        }
    }

    /// Whether the port detector has been built.
    pub fn detector_present(&self) -> (r: bool)
        ensures
            r == self@.state.detector_present,
    {
        self.state.detector_present
    }

    /// Classify a client against the last committed metadata of `generation`.
    /// `matches` says of each group in order whether its networks hold the
    /// client's address; it is read under a CIDR rule only.
    pub fn classify(&self, generation: u64, matches: &[bool], listener_port: &str) -> (r: Result<
        Classification,
        InvalidReason,
    >)
        requires
            self@.wf(),
        ensures
            r == self@.classify(generation, matches@, texts::bytes(listener_port@)),
    {
        if let Err(reason) = self.tail() {
            return Err(reason);
        }
        if generation != self.last_generation || generation == 0 {
            return Err(InvalidReason::Identity);
        }
        if self.state.observer_error != ErrorClass::Success {
            return Ok(Classification::ObserverError(self.state.observer_error));
        }
        if self.state.rule == Some(Rule::Port) {
            let list = self.state.port_claims();
            let port = listener_port.as_bytes();
            if state::is_contested(&list, port) {
                return Ok(Classification::Conflict);
            }
            return match state::claimant(&list, port) {
                Some(id) => Ok(Classification::Group(id)),
                None => Ok(Classification::NoGroup),
            };
        }
        let rule = match self.state.rule {
            Some(rule) => rule,
            None => Rule::ClientCidr,
        };
        let ghost groups = self@.state.groups;
        let mut index: usize = 0;
        assert(groups.take(0) =~= Seq::empty());
        while index < self.state.groups.len()
            invariant
                groups == self@.state.groups,
                index <= groups.len(),
                first_match(groups.take(index as int), rule, matches@) is None,
                self@.tail_refusal() is None,
                generation == self@.last_generation && generation != 0,
                self@.state.observer_error is Success,
                self@.state.rule != Some(Rule::Port),
                rule == (match self@.state.rule {
                    Some(known) => known,
                    None => Rule::ClientCidr,
                }),
            decreases groups.len() - index,
        {
            assert(groups.take(index + 1).drop_last() =~= groups.take(index as int));
            if rule == Rule::All || index < matches.len() && matches[index] {
                proof {
                    lemma_first_match(groups, rule, matches@, index + 1);
                }
                return Ok(Classification::Group(self.state.groups[index].id));
            }
            index = index + 1;
        }
        assert(groups.take(groups.len() as int) =~= groups);
        Ok(Classification::NoGroup)
    }
}

/// A match among the first groups is the match among all.
proof fn lemma_first_match(groups: Seq<GroupModel>, rule: Rule, matches: Seq<bool>, count: int)
    requires
        0 <= count <= groups.len(),
        first_match(groups.take(count), rule, matches) is Some,
    ensures
        first_match(groups, rule, matches) == first_match(groups.take(count), rule, matches),
    decreases groups.len() - count,
{
    if count == groups.len() {
        assert(groups.take(count) =~= groups);
    } else {
        assert(groups.take(count + 1).drop_last() =~= groups.take(count));
        lemma_first_match(groups, rule, matches, count + 1);
    }
}

impl TrackerModel {
    /// An equal tracker whose lists are reserved to their bounds.
    pub open spec fn snapshot(self) -> TrackerModel {
        TrackerModel {
            state: StateModel { reserved: true, ..self.state },
            open: match self.open {
                Some(open) => Some(
                    OpenModel {
                        working: StateModel { reserved: true, ..open.working },
                        ..open
                    },
                ),
                None => None,
            },
            ..self
        }
    }
}

impl Tracker {
    /// Bytes that a snapshot holds.
    pub fn snapshot_charge(&self) -> (r: usize)
        ensures
            r == charge::clamp(self@.snapshot().retained_bytes()),
    {
        let open: usize = match &self.open {
            Some(open) => open.working.working_clone_heap().saturating_add(
                charge::times(open.inputs.len(), core::mem::size_of::<Input>()),
            ).saturating_add(scratch_charge()),
            None => 0,
        };
        core::mem::size_of::<Tracker>().saturating_add(
            self.state.working_clone_heap(),
        ).saturating_add(open)
    }

    /// An equal tracker whose lists are reserved to their bounds.
    pub fn snapshot(&self) -> (r: Tracker)
        requires
            self@.wf(),
        ensures
            r@ == self@.snapshot(),
            r@.wf(),
    {
        let open = match &self.open {
            Some(open) => {
                let mut inputs: Vec<Input> = Vec::new();
                inputs.extend_from_slice(open.inputs.as_slice());
                let mut decided: Vec<u64> = Vec::with_capacity(MAX_BACKENDS);
                decided.extend_from_slice(open.decided.as_slice());
                let mut pending_created: Vec<Construction> = Vec::with_capacity(MAX_GROUPS);
                pending_created.extend_from_slice(open.pending_created.as_slice());
                let mut failed_constructions: Vec<Construction> = Vec::with_capacity(MAX_GROUPS);
                failed_constructions.extend_from_slice(open.failed_constructions.as_slice());
                let mut pending_removed: Vec<u64> = Vec::with_capacity(MAX_GROUPS);
                pending_removed.extend_from_slice(open.pending_removed.as_slice());
                proof {
                    assert(inputs@ =~= open.inputs@);
                    assert(decided@ =~= open.decided@);
                    assert(pending_created@ =~= open.pending_created@);
                    assert(failed_constructions@ =~= open.failed_constructions@);
                    assert(pending_removed@ =~= open.pending_removed@);
                }
                Some(
                    Open {
                        generation: open.generation,
                        observer_error: open.observer_error,
                        rule: open.rule,
                        inputs,
                        working: open.working.working_clone(),
                        decided,
                        revisit: open.revisit,
                        expected: open.expected,
                        created: open.created,
                        removed: open.removed,
                        refresh_failed: open.refresh_failed,
                        cursor: open.cursor,
                        next_index: open.next_index,
                        pending_created,
                        failed_constructions,
                        pending_removed,
                        read_values: open.read_values,
                        read_bytes: open.read_bytes,
                        require_native_init: open.require_native_init,
                    },
                )
            },
            None => None,
        };
        Tracker {
            last_generation: self.last_generation,
            state: self.state.working_clone(),
            open,
            failed: self.failed,
            require_native_init: self.require_native_init,
        }
    }
}

/// A failure is permanent: every later operation repeats the first reason.
pub proof fn law_failure_is_sticky(
    t: TrackerModel,
    begin: Begin,
    event: LiveEvent,
    group: u64,
    a: Assign,
    frame: Refresh,
    tail: End,
    flag: bool,
    admission: Admission,
)
    requires
        t.failed is Some,
    ensures
        t.begin(begin, admission).0 == Err::<OpenModel, _>(t.failed->0),
        t.group_event(event) == Err::<TrackerModel, _>(t.failed->0),
        t.native_init(group) == Err::<TrackerModel, _>(t.failed->0),
        t.assign(a, flag, flag, admission).0 == Err::<TrackerModel, _>(t.failed->0),
        t.refresh(frame, flag, admission).0 == Err::<TrackerModel, _>(t.failed->0),
        t.end(tail, admission).0 == Err::<TrackerModel, _>(t.failed->0),
        t.tail_refusal() == t.failed,
{
}

/// Only a matching tail commits: every other accepted step leaves the
/// committed metadata and its generation in place.
pub proof fn law_only_end_commits(
    t: TrackerModel,
    event: LiveEvent,
    group: u64,
    a: Assign,
    frame: Refresh,
    idle: bool,
    parses: bool,
    admission: Admission,
)
    ensures
        t.group_event(event) matches Ok(n) ==> n.state == t.state && n.last_generation
            == t.last_generation,
        t.native_init(group) matches Ok(n) ==> n.state == t.state && n.last_generation
            == t.last_generation,
        t.assign(a, idle, parses, admission).0 matches Ok(n) ==> n.state == t.state
            && n.last_generation == t.last_generation,
        t.refresh(frame, parses, admission).0 matches Ok(n) ==> n.state == t.state
            && n.last_generation == t.last_generation,
{
}

/// Generations are contiguous and each is committed once.
pub proof fn law_generations_are_contiguous(t: TrackerModel, begin: Begin)
    requires
        t.begin_refusal(begin) is None,
    ensures
        begin.generation == t.last_generation + 1,
        t.opened(begin).generation == begin.generation,
{
}

/// A committed refresh is complete: every held backend was decided, no busy
/// backend still awaits its second visit, and no announced group is unbound.
pub proof fn law_committed_refresh_is_settled(t: TrackerModel, tail: End, admission: Admission)
    requires
        t.end(tail, admission).0 is Ok,
    ensures
        t.open is Some,
        t.open->0.settled(),
        t.open->0.observer_error is Success ==> t.open->0.cursor
            == t.open->0.working.groups.len(),
        t.end(tail, admission).0->Ok_0.last_generation == t.open->0.generation,
        t.end(tail, admission).0->Ok_0.state.groups == t.open->0.working.groups,
        t.end(tail, admission).0->Ok_0.state.backends == t.open->0.working.backends,
{
    reveal(OpenModel::end);
}

} // verus!
