//! Retained metadata state, its charges and the pure derivations (decision,
//! CIDR union, port conflicts) that the tracker compares against Go's
//! witnesses. Value lists are charged as exact copies; the group, backend and
//! member lists of a working state are charged at their fixed bounds.
use vstd::prelude::*;

use super::{MemberModel, Rule, MAX_BACKENDS, MAX_GROUPS};
use crate::charge;
use crate::shadow::live::caller::selection::ErrorClass;
use crate::slices;
use crate::texts;

verus! {

/// One live group.
pub struct GroupState {
    /// Its identity.
    pub id: u64,
    /// Its last stored values.
    pub values: Vec<String>,
    /// The last stored values that parsed: the networks that it matches.
    pub networks: Vec<String>,
    /// Its members, at most `MAX_BACKENDS`.
    pub members: Vec<u64>,
}

/// What [`GroupState`] holds.
#[verifier::ext_equal]
pub struct GroupModel {
    /// Its identity.
    pub id: u64,
    /// Its last stored values.
    pub values: Seq<Seq<char>>,
    /// The last stored values that parsed.
    pub networks: Seq<Seq<char>>,
    /// Its members.
    pub members: Seq<u64>,
}

impl View for GroupState {
    type V = GroupModel;

    open spec fn view(&self) -> GroupModel {
        GroupModel {
            id: self.id,
            values: texts::texts(self.values@),
            networks: texts::texts(self.networks@),
            members: self.members@,
        }
    }
}

/// One backend that the router holds.
pub struct BackendState {
    /// Its identity.
    pub account: u64,
    /// Its redirection support.
    pub support_redirection: bool,
    /// Its group, or zero.
    pub group: u64,
    /// Last grouping values Go actually read for this backend.
    pub values: Vec<String>,
    /// Generation of that read; zero before any read.
    pub read_generation: u64,
}

/// What [`BackendState`] holds.
#[verifier::ext_equal]
pub struct BackendModel {
    /// Its identity.
    pub account: u64,
    /// Its redirection support.
    pub support_redirection: bool,
    /// Its group, or zero.
    pub group: u64,
    /// Last grouping values Go actually read.
    pub values: Seq<Seq<char>>,
    /// Generation of that read.
    pub read_generation: u64,
}

impl View for BackendState {
    type V = BackendModel;

    open spec fn view(&self) -> BackendModel {
        BackendModel {
            account: self.account,
            support_redirection: self.support_redirection,
            group: self.group,
            values: texts::texts(self.values@),
            read_generation: self.read_generation,
        }
    }
}

/// Router metadata of one generation.
pub struct State {
    /// The router's rule, once a refresh has begun.
    pub rule: Option<Rule>,
    /// The port detector has been built.
    pub detector_present: bool,
    /// The health observer's error.
    pub observer_error: ErrorClass,
    /// The folded redirection gate.
    pub support_redirection: bool,
    /// Live groups in Go's slice order: creation order with deletions.
    pub groups: Vec<GroupState>,
    /// Backends that the router holds.
    pub backends: Vec<BackendState>,
    /// Ports that two clusters claim.
    pub conflicts: usize,
    /// The lists have been reserved to their bounds.
    pub reserved: bool,
}

/// What [`State`] holds.
#[verifier::ext_equal]
pub struct StateModel {
    /// The router's rule, once a refresh has begun.
    pub rule: Option<Rule>,
    /// The port detector has been built.
    pub detector_present: bool,
    /// The health observer's error.
    pub observer_error: ErrorClass,
    /// The folded redirection gate.
    pub support_redirection: bool,
    /// Live groups in order.
    pub groups: Seq<GroupModel>,
    /// Backends that the router holds.
    pub backends: Seq<BackendModel>,
    /// Ports that two clusters claim.
    pub conflicts: nat,
    /// The lists have been reserved to their bounds.
    pub reserved: bool,
}

/// The groups of a list.
pub open spec fn group_models(groups: Seq<GroupState>) -> Seq<GroupModel> {
    groups.map_values(|group: GroupState| group@)
}

/// The backends of a list.
pub open spec fn backend_models(backends: Seq<BackendState>) -> Seq<BackendModel> {
    backends.map_values(|backend: BackendState| backend@)
}

impl View for State {
    type V = StateModel;

    open spec fn view(&self) -> StateModel {
        StateModel {
            rule: self.rule,
            detector_present: self.detector_present,
            observer_error: self.observer_error,
            support_redirection: self.support_redirection,
            groups: group_models(self.groups@),
            backends: backend_models(self.backends@),
            conflicts: self.conflicts as nat,
            reserved: self.reserved,
        }
    }
}

/// The identities of some groups.
pub open spec fn ids(groups: Seq<GroupModel>) -> Seq<u64> {
    groups.map_values(|group: GroupModel| group.id)
}

/// The identities of some backends.
pub open spec fn accounts(backends: Seq<BackendModel>) -> Seq<u64> {
    backends.map_values(|backend: BackendModel| backend.account)
}

/// The heap bytes of one group.
pub open spec fn group_bytes(group: GroupModel) -> nat {
    texts::copy_bytes(group.values) + texts::copy_bytes(group.networks) + MAX_BACKENDS as nat
        * vstd::layout::size_of::<u64>()
}

/// The heap bytes of some groups.
pub open spec fn groups_bytes(groups: Seq<GroupModel>) -> nat
    decreases groups.len(),
{
    if groups.len() == 0 {
        0
    } else {
        groups_bytes(groups.drop_last()) + group_bytes(groups.last())
    }
}

/// The heap bytes of some backends' values.
pub open spec fn backends_bytes(backends: Seq<BackendModel>) -> nat
    decreases backends.len(),
{
    if backends.len() == 0 {
        0
    } else {
        backends_bytes(backends.drop_last()) + texts::copy_bytes(backends.last().values)
    }
}

/// The bytes of the two lists at their bounds.
pub open spec fn spine_bytes() -> nat {
    MAX_GROUPS as nat * vstd::layout::size_of::<GroupState>() + MAX_BACKENDS as nat * vstd::layout::size_of::<
        BackendState,
    >()
}

impl StateModel {
    /// Before the first refresh.
    pub open spec fn initial() -> StateModel {
        StateModel {
            rule: None,
            detector_present: false,
            observer_error: ErrorClass::Success,
            support_redirection: false,
            groups: Seq::empty(),
            backends: Seq::empty(),
            conflicts: 0,
            reserved: false,
        }
    }

    /// No identity is zero or occurs twice, and the groups keep their bound.
    pub open spec fn wf(self) -> bool {
        &&& slices::identities(ids(self.groups))
        &&& slices::identities(accounts(self.backends))
        &&& self.groups.len() <= MAX_GROUPS
        &&& forall|i: int|
            0 <= i < self.groups.len() ==> (#[trigger] self.groups[i]).members.len()
                <= MAX_BACKENDS
    }

    /// The heap bytes of a copy whose lists are reserved to their bounds.
    pub open spec fn working_bytes(self) -> nat {
        spine_bytes() + groups_bytes(self.groups) + backends_bytes(self.backends)
    }

    /// The heap bytes that this state holds.
    pub open spec fn heap_bytes(self) -> nat {
        if self.reserved {
            self.working_bytes()
        } else {
            groups_bytes(self.groups) + backends_bytes(self.backends)
        }
    }

    /// Whether a group is live.
    pub open spec fn has_group(self, id: u64) -> bool {
        ids(self.groups).contains(id)
    }

    /// Where a live group stands.
    pub open spec fn group_at(self, id: u64) -> int {
        ids(self.groups).index_of(id)
    }

    /// Whether the router holds a backend.
    pub open spec fn has_backend(self, account: u64) -> bool {
        accounts(self.backends).contains(account)
    }

    /// Where a held backend stands.
    pub open spec fn backend_at(self, account: u64) -> int {
        accounts(self.backends).index_of(account)
    }
}

/// An identity list names each place once.
pub proof fn lemma_place(list: Seq<u64>, at: int)
    requires
        list.no_duplicates(),
        0 <= at < list.len(),
    ensures
        list.contains(list[at]),
        list.index_of(list[at]) == at,
{
    assert(list.contains(list[at]));
    let other = list.index_of(list[at]);
    assert(list[other] == list[at]);
}

impl GroupState {
    /// Heap bytes beyond the inline struct.
    pub fn heap(&self) -> (r: usize)
        ensures
            r == charge::clamp(group_bytes(self@)),
    {
        texts::copy_charge(&self.values).saturating_add(
            texts::copy_charge(&self.networks),
        ).saturating_add(charge::times(MAX_BACKENDS, core::mem::size_of::<u64>()))
    }

    /// An equal group.
    pub fn duplicate(&self) -> (r: GroupState)
        ensures
            r@ == self@,
    {
        let mut members: Vec<u64> = Vec::with_capacity(MAX_BACKENDS);
        members.extend_from_slice(self.members.as_slice());
        assert(members@ =~= self.members@);
        GroupState {
            id: self.id,
            values: texts::copy(&self.values),
            networks: texts::copy(&self.networks),
            members,
        }
    }
}

impl BackendState {
    /// An equal backend.
    pub fn duplicate(&self) -> (r: BackendState)
        ensures
            r@ == self@,
    {
        BackendState {
            account: self.account,
            support_redirection: self.support_redirection,
            group: self.group,
            values: texts::copy(&self.values),
            read_generation: self.read_generation,
        }
    }
}

impl State {
    /// Before the first refresh.
    pub fn initial() -> (r: State)
        ensures
            r@ == StateModel::initial(),
            r@.wf(),
    {
        let r = State {
            rule: None,
            detector_present: false,
            observer_error: ErrorClass::Success,
            support_redirection: false,
            groups: Vec::new(),
            backends: Vec::new(),
            conflicts: 0,
            reserved: false,
        };
        assert(r@.groups =~= Seq::empty());
        assert(r@.backends =~= Seq::empty());
        r
    }

    fn content_heap(&self) -> (r: usize)
        ensures
            r == charge::clamp(groups_bytes(self@.groups) + backends_bytes(self@.backends)),
    {
        let mut total: usize = 0;
        let mut index: usize = 0;
        let ghost groups = self@.groups;
        let ghost backends = self@.backends;
        assert(groups.take(0) =~= Seq::empty());
        while index < self.groups.len()
            invariant
                groups == self@.groups,
                index <= self.groups@.len(),
                total == charge::clamp(groups_bytes(groups.take(index as int))),
            decreases self.groups@.len() - index,
        {
            assert(groups.take(index + 1).drop_last() =~= groups.take(index as int));
            total = total.saturating_add(self.groups[index].heap());
            index = index + 1;
        }
        assert(groups.take(groups.len() as int) =~= groups);
        let mut index: usize = 0;
        assert(backends.take(0) =~= Seq::empty());
        while index < self.backends.len()
            invariant
                groups == self@.groups,
                backends == self@.backends,
                index <= self.backends@.len(),
                total == charge::clamp(
                    groups_bytes(groups) + backends_bytes(backends.take(index as int)),
                ),
            decreases self.backends@.len() - index,
        {
            assert(backends.take(index + 1).drop_last() =~= backends.take(index as int));
            total = total.saturating_add(texts::copy_charge(&self.backends[index].values));
            index = index + 1;
        }
        assert(backends.take(backends.len() as int) =~= backends);
        total
    }

    /// Heap the working copy made by a refresh will hold.
    pub fn working_clone_heap(&self) -> (r: usize)
        ensures
            r == charge::clamp(self@.working_bytes()),
    {
        charge::times(MAX_GROUPS, core::mem::size_of::<GroupState>()).saturating_add(
            charge::times(MAX_BACKENDS, core::mem::size_of::<BackendState>()),
        ).saturating_add(self.content_heap())
    }

    /// Heap bytes this state holds beyond its inline struct.
    pub fn heap(&self) -> (r: usize)
        ensures
            r == charge::clamp(self@.heap_bytes()),
    {
        if self.reserved {
            self.working_clone_heap()
        } else {
            self.content_heap()
        }
    }

    /// The working copy itself.
    pub fn working_clone(&self) -> (r: State)
        ensures
            r@ == (StateModel { reserved: true, ..self@ }),
    {
        let mut groups: Vec<GroupState> = Vec::with_capacity(MAX_GROUPS);
        let mut index: usize = 0;
        while index < self.groups.len()
            invariant
                index <= self.groups@.len(),
                groups@.len() == index,
                forall|i: int| 0 <= i < index ==> (#[trigger] groups@[i])@ == self.groups@[i]@,
            decreases self.groups@.len() - index,
        {
            groups.push(self.groups[index].duplicate());
            index = index + 1;
        }
        let mut backends: Vec<BackendState> = Vec::with_capacity(MAX_BACKENDS);
        let mut index: usize = 0;
        while index < self.backends.len()
            invariant
                index <= self.backends@.len(),
                backends@.len() == index,
                forall|i: int| 0 <= i < index ==> (#[trigger] backends@[i])@ == self.backends@[i]@,
            decreases self.backends@.len() - index,
        {
            backends.push(self.backends[index].duplicate());
            index = index + 1;
        }
        assert(group_models(groups@) =~= self@.groups);
        assert(backend_models(backends@) =~= self@.backends);
        State {
            rule: self.rule,
            detector_present: self.detector_present,
            observer_error: self.observer_error,
            support_redirection: self.support_redirection,
            groups,
            backends,
            conflicts: self.conflicts,
            reserved: true,
        }
    }

    /// Where a live group stands.
    pub fn group_index(&self, id: u64) -> (r: Option<usize>)
        requires
            self@.wf(),
        ensures
            r is Some <==> self@.has_group(id),
            r matches Some(at) ==> at < self.groups@.len() && self.groups@[at as int].id == id && at
                == self@.group_at(id),
    {
        let mut index: usize = 0;
        while index < self.groups.len()
            invariant
                self@.wf(),
                index <= self.groups@.len(),
                forall|i: int| 0 <= i < index ==> ids(self@.groups)[i] != id,
            decreases self.groups@.len() - index,
        {
            if self.groups[index].id == id {
                proof {
                    lemma_place(ids(self@.groups), index as int);
                }
                return Some(index);
            }
            index = index + 1;
        }
        None
    }

    /// Where a held backend stands.
    pub fn backend_index(&self, account: u64) -> (r: Option<usize>)
        requires
            self@.wf(),
        ensures
            r is Some <==> self@.has_backend(account),
            r matches Some(at) ==> at < self.backends@.len() && self.backends@[at as int].account
                == account && at == self@.backend_at(account),
    {
        let mut index: usize = 0;
        while index < self.backends.len()
            invariant
                self@.wf(),
                index <= self.backends@.len(),
                forall|i: int| 0 <= i < index ==> accounts(self@.backends)[i] != account,
            decreases self.backends@.len() - index,
        {
            if self.backends[index].account == account {
                proof {
                    lemma_place(accounts(self@.backends), index as int);
                }
                return Some(index);
            }
            index = index + 1;
        }
        None
    }
}

/// One backend visit as the tracker sees it: the health-loop input, the
/// retained and the witnessed group, and what the ledger and the parser say.
#[derive(Clone, Copy)]
pub struct Visit {
    /// The backend is healthy.
    pub healthy: bool,
    /// The backend is still listed.
    pub present: bool,
    /// The backend's group, or zero.
    pub current_group: u64,
    /// The group that Go reports, which names a created group.
    pub witness_group: u64,
    /// The backend has no connection and no score.
    pub idle: bool,
    /// A fresh matcher over the values would parse.
    pub parses: bool,
}

/// Go's decision for one backend.
#[derive(Clone, Copy, Debug, PartialEq, Eq, Structural)]
pub struct Outcome {
    /// The backend left the router.
    pub removed: bool,
    /// A group was created for it.
    pub created: bool,
    /// Its group afterwards, or zero.
    pub group: u64,
    /// A group was created and failed to construct.
    pub construction_failed: bool,
}

/// The first group that shares a value with a list.
pub open spec fn first_sharing(groups: Seq<GroupModel>, values: Seq<Seq<char>>) -> Option<u64>
    decreases groups.len(),
{
    if groups.len() == 0 {
        None
    } else if texts::share(values, groups[0].values) {
        Some(groups[0].id)
    } else {
        first_sharing(groups.drop_first(), values)
    }
}

impl StateModel {
    /// Go's decision for one backend, derived only from retained state and the
    /// visit. A created group takes the witness id because Go allocates
    /// identities.
    pub open spec fn outcome(self, rule: Rule, visit: Visit, values: Seq<Seq<char>>) -> Outcome {
        let kept = Outcome {
            removed: false,
            created: false,
            group: visit.current_group,
            construction_failed: false,
        };
        let created = Outcome { created: true, group: visit.witness_group, ..kept };
        let alone = Outcome { group: 0, ..kept };
        if !visit.healthy || !visit.present {
            if visit.current_group == 0 || visit.idle {
                Outcome { removed: true, ..alone }
            } else {
                kept
            }
        } else if visit.current_group != 0 {
            kept
        } else if rule is All {
            if self.groups.len() > 0 {
                Outcome { group: self.groups[0].id, ..kept }
            } else {
                created
            }
        } else if values.len() == 0 {
            alone
        } else {
            match first_sharing(self.groups, values) {
                Some(id) => Outcome { group: id, ..kept },
                None => if visit.parses {
                    created
                } else {
                    Outcome { construction_failed: true, ..alone }
                },
            }
        }
    }
}

impl State {
    /// Compute [`StateModel::outcome`].
    pub fn derive_outcome(&self, rule: Rule, visit: Visit, values: &Vec<String>) -> (r: Outcome)
        ensures
            r == self@.outcome(rule, visit, texts::texts(values@)),
    {
        let kept = Outcome {
            removed: false,
            created: false,
            group: visit.current_group,
            construction_failed: false,
        };
        if !visit.healthy || !visit.present {
            return if visit.current_group == 0 || visit.idle {
                Outcome { removed: true, created: false, group: 0, construction_failed: false }
            } else {
                kept
            };
        }
        if visit.current_group != 0 {
            return kept;
        }
        let created = Outcome {
            removed: false,
            created: true,
            group: visit.witness_group,
            construction_failed: false,
        };
        if rule == Rule::All {
            return if self.groups.len() > 0 {
                Outcome {
                    removed: false,
                    created: false,
                    group: self.groups[0].id,
                    construction_failed: false,
                }
            } else {
                created
            };
        }
        if values.len() == 0 {
            return kept;
        }
        let ghost groups = self@.groups;
        let ghost list = texts::texts(values@);
        let mut index: usize = 0;
        assert(groups.skip(0) =~= groups);
        while index < self.groups.len()
            invariant
                groups == self@.groups,
                list == texts::texts(values@),
                index <= self.groups@.len(),
                first_sharing(groups, list) == first_sharing(groups.skip(index as int), list),
                visit.healthy && visit.present && visit.current_group == 0,
                !(rule is All),
                list.len() != 0,
            decreases self.groups@.len() - index,
        {
            assert(groups.skip(index as int).drop_first() =~= groups.skip(index + 1));
            assert(groups.skip(index as int)[0] == groups[index as int]);
            if texts::shares(values, &self.groups[index].values) {
                return Outcome {
                    removed: false,
                    created: false,
                    group: self.groups[index].id,
                    construction_failed: false,
                };
            }
            index = index + 1;
        }
        if visit.parses {
            created
        } else {
            Outcome { removed: false, created: false, group: 0, construction_failed: true }
        }
    }
}

/// Whether a list holds each value that some member read, and nothing else,
/// once.
pub open spec fn is_union(result: Seq<Seq<char>>, members: Seq<MemberModel>) -> bool {
    &&& result.no_duplicates()
    &&& forall|i: int|
        0 <= i < members.len() ==> texts::covered((#[trigger] members[i]).values, result)
    &&& forall|i: int| 0 <= i < result.len() ==> read_by_some(members, #[trigger] result[i])
}

/// Whether some member read a value.
pub open spec fn read_by_some(members: Seq<MemberModel>, value: Seq<char>) -> bool {
    exists|i: int| 0 <= i < members.len() && (#[trigger] members[i]).values.contains(value)
}

/// Decide [`is_union`].
pub fn union_of(result: &Vec<String>, members: &Vec<super::Member>) -> (r: bool)
    ensures
        r == is_union(texts::texts(result@), super::reads(members@)),
{
    let ghost list = texts::texts(result@);
    let ghost tape = super::reads(members@);
    if !texts::distinct(result) {
        return false;
    }
    let mut index: usize = 0;
    while index < members.len()
        invariant
            list == texts::texts(result@),
            tape == super::reads(members@),
            index <= members@.len(),
            forall|i: int| 0 <= i < index ==> texts::covered((#[trigger] tape[i]).values, list),
        decreases members@.len() - index,
    {
        if !texts::covers(&members[index].values, result) {
            assert(!texts::covered(tape[index as int].values, list));
            return false;
        }
        index = index + 1;
    }
    let mut index: usize = 0;
    while index < result.len()
        invariant
            list == texts::texts(result@),
            tape == super::reads(members@),
            index <= result@.len(),
            forall|i: int| 0 <= i < index ==> read_by_some(tape, #[trigger] list[i]),
        decreases result@.len() - index,
    {
        let mut found = false;
        let mut member: usize = 0;
        while member < members.len() && !found
            invariant
                list == texts::texts(result@),
                tape == super::reads(members@),
                index < result@.len(),
                member <= members@.len(),
                found ==> read_by_some(tape, list[index as int]),
                !found ==> forall|i: int|
                    0 <= i < member ==> !(#[trigger] tape[i]).values.contains(list[index as int]),
            decreases members@.len() - member,
        {
            if texts::holds(&members[member].values, &result[index]) {
                assert(tape[member as int].values.contains(list[index as int]));
                found = true;
            } else {
                assert(!tape[member as int].values.contains(list[index as int]));
            }
            member = member + 1;
        }
        if !found {
            assert(!read_by_some(tape, list[index as int]));
            return false;
        }
        index = index + 1;
    }
    true
}

/// A listener port that a group claims for a cluster.
#[verifier::ext_equal]
pub struct ClaimModel {
    /// The claiming group.
    pub group: u64,
    /// The cluster that the port is claimed for.
    pub cluster: Seq<u8>,
    /// The port.
    pub port: Seq<u8>,
}

/// The claims of one group, in value order.
pub open spec fn group_claims(group: GroupModel) -> Seq<ClaimModel> {
    group.values.map_values(
        |value: Seq<char>|
            ClaimModel {
                group: group.id,
                cluster: texts::cluster_part(texts::bytes(value)),
                port: texts::port_part(texts::bytes(value)),
            },
    )
}

/// The claims of some groups, in group order.
pub open spec fn claims(groups: Seq<GroupModel>) -> Seq<ClaimModel>
    decreases groups.len(),
{
    if groups.len() == 0 {
        Seq::empty()
    } else {
        claims(groups.drop_last()) + group_claims(groups.last())
    }
}

/// Whether two clusters claim a port.
pub open spec fn contested(list: Seq<ClaimModel>, port: Seq<u8>) -> bool {
    exists|i: int, j: int|
        0 <= i < list.len() && 0 <= j < list.len() && (#[trigger] list[i]).port == port && (
        #[trigger] list[j]).port == port && list[i].cluster != list[j].cluster
}

/// The ports that two clusters claim.
pub open spec fn contested_ports(list: Seq<ClaimModel>) -> Set<Seq<u8>> {
    Set::new(|port: Seq<u8>| contested(list, port))
}

/// The ports that are claimed.
pub open spec fn ports(list: Seq<ClaimModel>) -> Set<Seq<u8>> {
    list.map_values(|claim: ClaimModel| claim.port).to_set()
}

/// The group of the first claim of a port.
pub open spec fn first_claimant(list: Seq<ClaimModel>, port: Seq<u8>) -> Option<u64>
    decreases list.len(),
{
    if list.len() == 0 {
        None
    } else if list[0].port == port {
        Some(list[0].group)
    } else {
        first_claimant(list.drop_first(), port)
    }
}

/// A claim by its bytes.
pub struct Claim {
    group: u64,
    cluster: Vec<u8>,
    port: Vec<u8>,
}

impl View for Claim {
    type V = ClaimModel;

    closed spec fn view(&self) -> ClaimModel {
        ClaimModel { group: self.group, cluster: self.cluster@, port: self.port@ }
    }
}

/// Some claims.
pub open spec fn claim_models(list: Seq<Claim>) -> Seq<ClaimModel> {
    list.map_values(|claim: Claim| claim@)
}

impl State {
    /// The claims of all live groups.
    pub fn port_claims(&self) -> (r: Vec<Claim>)
        ensures
            claim_models(r@) == claims(self@.groups),
    {
        let ghost groups = self@.groups;
        let mut result: Vec<Claim> = Vec::new();
        let mut index: usize = 0;
        assert(groups.take(0) =~= Seq::empty());
        assert(claim_models(result@) =~= claims(groups.take(0)));
        while index < self.groups.len()
            invariant
                groups == self@.groups,
                index <= self.groups@.len(),
                claim_models(result@) == claims(groups.take(index as int)),
            decreases self.groups@.len() - index,
        {
            let group = &self.groups[index];
            let ghost base = claims(groups.take(index as int));
            let ghost own = group_claims(groups[index as int]);
            let mut value: usize = 0;
            assert(base + own.take(0) =~= base);
            while value < group.values.len()
                invariant
                    groups == self@.groups,
                    index < self.groups@.len(),
                    *group == self.groups@[index as int],
                    own == group_claims(groups[index as int]),
                    value <= group.values@.len(),
                    own.len() == group.values@.len(),
                    claim_models(result@) == base + own.take(value as int),
                decreases group.values@.len() - value,
            {
                let text = &group.values[value];
                let (cluster, port) = texts::split(text.as_str().as_bytes());
                let claim = Claim {
                    group: group.id,
                    cluster: vstd::slice::slice_to_vec(cluster),
                    port: vstd::slice::slice_to_vec(port),
                };
                proof {
                    assert(texts::texts(group.values@)[value as int] == text@);
                    assert(claim@ == own[value as int]);
                    assert(own.take(value + 1) =~= own.take(value as int).push(claim@));
                    assert(claim_models(result@.push(claim)) =~= claim_models(result@).push(
                        claim@,
                    ));
                    assert(base + own.take(value + 1) =~= (base + own.take(value as int)).push(
                        claim@,
                    ));
                }
                result.push(claim);
                value = value + 1;
            }
            assert(own.take(own.len() as int) =~= own);
            assert(groups.take(index + 1).drop_last() =~= groups.take(index as int));
            index = index + 1;
        }
        assert(groups.take(groups.len() as int) =~= groups);
        result
    }
}

/// Whether two clusters claim a port.
pub fn is_contested(list: &Vec<Claim>, port: &[u8]) -> (r: bool)
    ensures
        r == contested(claim_models(list@), port@),
{
    let ghost all = claim_models(list@);
    let mut first: usize = 0;
    while first < list.len() && !texts::same_bytes(list[first].port.as_slice(), port)
        invariant
            all == claim_models(list@),
            first <= list@.len(),
            forall|i: int| 0 <= i < first ==> (#[trigger] all[i]).port != port@,
        decreases list@.len() - first,
    {
        assert(all[first as int].port != port@);
        first = first + 1;
    }
    if first == list.len() {
        return false;
    }
    assert(all[first as int].port == port@);
    let mut index: usize = first;
    while index < list.len()
        invariant
            all == claim_models(list@),
            first <= index <= list@.len(),
            first < list@.len(),
            all[first as int].port == port@,
            forall|i: int| 0 <= i < first ==> (#[trigger] all[i]).port != port@,
            forall|i: int|
                first <= i < index && (#[trigger] all[i]).port == port@ ==> all[i].cluster
                    == all[first as int].cluster,
        decreases list@.len() - index,
    {
        if texts::same_bytes(list[index].port.as_slice(), port) && !texts::same_bytes(
            list[index].cluster.as_slice(),
            list[first].cluster.as_slice(),
        ) {
            assert(all[index as int].port == port@);
            return true;
        }
        assert(all[index as int].port == port@ ==> all[index as int].cluster
            == all[first as int].cluster);
        index = index + 1;
    }
    false
}

/// The group of the first claim of a port.
pub fn claimant(list: &Vec<Claim>, port: &[u8]) -> (r: Option<u64>)
    ensures
        r == first_claimant(claim_models(list@), port@),
{
    let ghost all = claim_models(list@);
    let mut index: usize = 0;
    assert(all.skip(0) =~= all);
    while index < list.len()
        invariant
            all == claim_models(list@),
            index <= list@.len(),
            first_claimant(all, port@) == first_claimant(all.skip(index as int), port@),
        decreases list@.len() - index,
    {
        assert(all.skip(index as int)[0] == all[index as int]);
        assert(all.skip(index as int).drop_first() =~= all.skip(index + 1));
        if texts::same_bytes(list[index].port.as_slice(), port) {
            return Some(list[index].group);
        }
        index = index + 1;
    }
    None
}

/// No more ports are claimed than there are claims.
pub proof fn lemma_ports(list: Seq<ClaimModel>)
    ensures
        ports(list).finite(),
        ports(list).len() <= list.len(),
{
    let named = list.map_values(|claim: ClaimModel| claim.port);
    vstd::seq_lib::seq_to_set_is_finite(named);
    named.lemma_cardinality_of_set();
}

/// How many ports are claimed.
pub fn count_ports(list: &Vec<Claim>) -> (r: usize)
    ensures
        r == ports(claim_models(list@)).len(),
{
    let ghost all = claim_models(list@);
    let ghost named = all.map_values(|claim: ClaimModel| claim.port);
    let ghost mut counted: Set<Seq<u8>> = Set::empty();
    let mut count: usize = 0;
    let mut index: usize = 0;
    while index < list.len()
        invariant
            all == claim_models(list@),
            named == all.map_values(|claim: ClaimModel| claim.port),
            index <= list@.len(),
            count <= index,
            counted.finite(),
            counted.len() == count,
            forall|port: Seq<u8>| #[trigger]
                counted.contains(port) <==> exists|i: int|
                    0 <= i < index && #[trigger] named[i] == port,
        decreases list@.len() - index,
    {
        let ghost port = named[index as int];
        let mut earlier: usize = 0;
        while earlier < index && !texts::same_bytes(
            list[earlier].port.as_slice(),
            list[index].port.as_slice(),
        )
            invariant
                all == claim_models(list@),
                named == all.map_values(|claim: ClaimModel| claim.port),
                earlier <= index < list@.len(),
                port == named[index as int],
                forall|i: int| 0 <= i < earlier ==> #[trigger] named[i] != port,
            decreases index - earlier,
        {
            assert(named[earlier as int] != port);
            earlier = earlier + 1;
        }
        let ghost before = counted;
        if earlier == index {
            count = count + 1;
            proof {
                assert(!counted.contains(port));
                counted = counted.insert(port);
            }
        } else {
            assert(named[earlier as int] == port);
        }
        proof {
            assert forall|p: Seq<u8>| #[trigger] counted.contains(p) <==> exists|i: int|
                0 <= i < index + 1 && #[trigger] named[i] == p by {
                if before.contains(p) {
                    let i = choose|i: int| 0 <= i < index && #[trigger] named[i] == p;
                    assert(named[i] == p);
                }
                assert(named[index as int] == port);
            }
        }
        index = index + 1;
    }
    proof {
        assert(counted =~= ports(all)) by {
            assert forall|p: Seq<u8>| counted.contains(p) == ports(all).contains(p) by {
                if named.contains(p) {
                    let i = choose|i: int| 0 <= i < named.len() && named[i] == p;
                    assert(named[i] == p);
                }
            }
        }
    }
    count
}

/// How many ports two clusters claim.
pub fn count_contested(list: &Vec<Claim>) -> (r: usize)
    ensures
        r == contested_ports(claim_models(list@)).len(),
        contested_ports(claim_models(list@)).finite(),
{
    let ghost all = claim_models(list@);
    let ghost mut counted: Set<Seq<u8>> = Set::empty();
    let mut count: usize = 0;
    let mut index: usize = 0;
    while index < list.len()
        invariant
            all == claim_models(list@),
            index <= list@.len(),
            count <= index,
            counted.finite(),
            counted.len() == count,
            forall|port: Seq<u8>| #[trigger]
                counted.contains(port) <==> contested(all, port) && exists|i: int|
                    0 <= i < index && (#[trigger] all[i]).port == port,
        decreases list@.len() - index,
    {
        let ghost port = all[index as int].port;
        let mut earlier: usize = 0;
        while earlier < index && !texts::same_bytes(
            list[earlier].port.as_slice(),
            list[index].port.as_slice(),
        )
            invariant
                all == claim_models(list@),
                earlier <= index < list@.len(),
                port == all[index as int].port,
                forall|i: int| 0 <= i < earlier ==> (#[trigger] all[i]).port != port,
            decreases index - earlier,
        {
            assert(all[earlier as int].port != port);
            earlier = earlier + 1;
        }
        let ghost before = counted;
        if earlier == index {
            if is_contested(list, list[index].port.as_slice()) {
                count = count + 1;
                proof {
                    assert(!counted.contains(port));
                    counted = counted.insert(port);
                }
            }
        } else {
            assert(all[earlier as int].port == port);
        }
        proof {
            assert forall|p: Seq<u8>| #[trigger] counted.contains(p) <==> contested(all, p)
                && exists|i: int| 0 <= i < index + 1 && (#[trigger] all[i]).port == p by {
                if before.contains(p) {
                    let i = choose|i: int| 0 <= i < index && (#[trigger] all[i]).port == p;
                    assert(all[i].port == p);
                }
                assert(all[index as int].port == port);
            }
        }
        index = index + 1;
    }
    proof {
        assert(counted =~= contested_ports(all)) by {
            assert forall|p: Seq<u8>| contested(all, p) implies counted.contains(p) by {
                let (i, j) = choose|i: int, j: int|
                    0 <= i < all.len() && 0 <= j < all.len() && (#[trigger] all[i]).port == p && (
                    #[trigger] all[j]).port == p && all[i].cluster != all[j].cluster;
                assert(all[i].port == p);
            }
        }
    }
    count
}

/// The first sharing group is the first, in order, that stores one of the values;
/// there is none exactly where no group stores any.
#[verifier::rlimit(40)]
pub proof fn law_first_sharing_is_the_first(groups: Seq<GroupModel>, values: Seq<Seq<char>>)
    ensures
        first_sharing(groups, values) is None <==> forall|i: int, j: int|
            0 <= i < groups.len() && 0 <= j < values.len() ==> !(
            #[trigger] groups[i]).values.contains(#[trigger] values[j]),
        first_sharing(groups, values) matches Some(id) ==> exists|at: int|
            {
                &&& 0 <= at < groups.len()
                &&& (#[trigger] groups[at]).id == id
                &&& exists|j: int|
                    0 <= j < values.len() && groups[at].values.contains(#[trigger] values[j])
                &&& forall|i: int, j: int|
                    0 <= i < at && 0 <= j < values.len() ==> !(
                    #[trigger] groups[i]).values.contains(#[trigger] values[j])
            },
    decreases groups.len(),
{
    if groups.len() != 0 {
        let rest = groups.drop_first();
        law_first_sharing_is_the_first(rest, values);
        if texts::share(values, groups[0].values) {
            let j = choose|j: int| 0 <= j < values.len() && groups[0].values.contains(
                #[trigger] values[j],
            );
            assert(groups[0].values.contains(values[j]));
            assert(groups[0].id == first_sharing(groups, values)->0);
        } else {
            if first_sharing(rest, values) is None {
                assert forall|i: int, j: int|
                    0 <= i < groups.len() && 0 <= j < values.len() implies !(
                #[trigger] groups[i]).values.contains(#[trigger] values[j]) by {
                    if i > 0 {
                        assert(rest[i - 1] == groups[i]);
                    }
                }
            } else {
                let id = first_sharing(rest, values)->0;
                let at = choose|at: int|
                    {
                        &&& 0 <= at < rest.len()
                        &&& (#[trigger] rest[at]).id == id
                        &&& exists|j: int|
                            0 <= j < values.len() && rest[at].values.contains(#[trigger] values[j])
                        &&& forall|i: int, j: int|
                            0 <= i < at && 0 <= j < values.len() ==> !(
                            #[trigger] rest[i]).values.contains(#[trigger] values[j])
                    };
                assert(groups[at + 1] == rest[at]);
                assert forall|i: int, j: int|
                    0 <= i < at + 1 && 0 <= j < values.len() implies !(
                #[trigger] groups[i]).values.contains(#[trigger] values[j]) by {
                    if i > 0 {
                        assert(rest[i - 1] == groups[i]);
                    }
                }
                let j = choose|j: int| 0 <= j < values.len() && rest[at].values.contains(
                    #[trigger] values[j],
                );
                assert(groups[at + 1].values.contains(values[j]));
            }
        }
    }
}

/// A backend that is unhealthy or gone leaves the router exactly where it has no
/// group or is idle, and otherwise keeps its group for now.
pub proof fn law_unhealthy_backends_leave_when_idle(
    known: StateModel,
    rule: Rule,
    visit: Visit,
    values: Seq<Seq<char>>,
)
    requires
        !visit.healthy || !visit.present,
    ensures
        ({
            let outcome = known.outcome(rule, visit, values);
            &&& outcome.removed <==> visit.current_group == 0 || visit.idle
            &&& outcome.removed ==> outcome.group == 0
            &&& !outcome.removed ==> outcome.group == visit.current_group
            &&& !outcome.created
            &&& !outcome.construction_failed
        }),
{
}

/// A healthy backend never leaves the router, and one that has a group keeps it.
/// One that has none joins the first group where all are taken, or the first that
/// shares one of its values; where there is no such group one is created for it,
/// or fails to be where the values do not parse; and without values it stays
/// without a group.
pub proof fn law_healthy_backends_find_a_group(
    known: StateModel,
    rule: Rule,
    visit: Visit,
    values: Seq<Seq<char>>,
)
    requires
        visit.healthy,
        visit.present,
    ensures
        ({
            let outcome = known.outcome(rule, visit, values);
            let shared = exists|i: int, j: int|
                0 <= i < known.groups.len() && 0 <= j < values.len() && (
                #[trigger] known.groups[i]).values.contains(#[trigger] values[j]);
            &&& !outcome.removed
            &&& visit.current_group != 0 ==> outcome.group == visit.current_group
                && !outcome.created && !outcome.construction_failed
            &&& visit.current_group == 0 && rule is All ==> {
                &&& !outcome.construction_failed
                &&& outcome.created <==> known.groups.len() == 0
                &&& known.groups.len() != 0 ==> outcome.group == known.groups[0].id
                &&& outcome.created ==> outcome.group == visit.witness_group
            }
            &&& visit.current_group == 0 && !(rule is All) ==> {
                &&& outcome.created <==> values.len() != 0 && !shared && visit.parses
                &&& outcome.construction_failed <==> values.len() != 0 && !shared && !visit.parses
                &&& outcome.created ==> outcome.group == visit.witness_group
                &&& !outcome.created && !shared ==> outcome.group == 0
                &&& shared ==> Some(outcome.group) == first_sharing(known.groups, values)
            }
        }),
{
    law_first_sharing_is_the_first(known.groups, values);
}

/// The first claimant of a port holds the first claim of it; there is none exactly
/// where the port is not claimed.
pub proof fn law_first_claimant_is_the_first(list: Seq<ClaimModel>, port: Seq<u8>)
    ensures
        first_claimant(list, port) is None <==> forall|i: int|
            0 <= i < list.len() ==> (#[trigger] list[i]).port != port,
        first_claimant(list, port) matches Some(group) ==> exists|at: int|
            {
                &&& 0 <= at < list.len()
                &&& (#[trigger] list[at]).port == port
                &&& list[at].group == group
                &&& forall|i: int| 0 <= i < at ==> (#[trigger] list[i]).port != port
            },
    decreases list.len(),
{
    if list.len() != 0 {
        let rest = list.drop_first();
        law_first_claimant_is_the_first(rest, port);
        if list[0].port == port {
            assert(list[0].group == first_claimant(list, port)->0);
        } else if first_claimant(rest, port) is None {
            assert forall|i: int| 0 <= i < list.len() implies (#[trigger] list[i]).port != port by {
                if i > 0 {
                    assert(rest[i - 1] == list[i]);
                }
            }
        } else {
            let group = first_claimant(rest, port)->0;
            let at = choose|at: int|
                {
                    &&& 0 <= at < rest.len()
                    &&& (#[trigger] rest[at]).port == port
                    &&& rest[at].group == group
                    &&& forall|i: int| 0 <= i < at ==> (#[trigger] rest[i]).port != port
                };
            assert(list[at + 1] == rest[at]);
            assert forall|i: int| 0 <= i < at + 1 implies (#[trigger] list[i]).port != port by {
                if i > 0 {
                    assert(rest[i - 1] == list[i]);
                }
            }
        }
    }
}

/// Every value that a group stores claims a port, and nothing else does: the bytes
/// after its first colon, for the cluster before it.
#[verifier::rlimit(40)]
pub proof fn law_claims_are_the_stored_values(groups: Seq<GroupModel>, claim: ClaimModel)
    ensures
        claims(groups).contains(claim) <==> exists|i: int, j: int|
            {
                &&& 0 <= i < groups.len()
                &&& 0 <= j < groups[i].values.len()
                &&& groups[i].id == claim.group
                &&& claim.cluster == texts::cluster_part(
                    texts::bytes(#[trigger] groups[i].values[j]),
                )
                &&& claim.port == texts::port_part(texts::bytes(groups[i].values[j]))
            },
    decreases groups.len(),
{
    if groups.len() == 0 {
        assert(claims(groups).len() == 0);
    } else {
        let before = groups.drop_last();
        let last = groups.last();
        law_claims_are_the_stored_values(before, claim);
        let own = group_claims(last);
        let all = claims(groups);
        assert(all == claims(before) + own);
        if all.contains(claim) {
            let at = all.index_of(claim);
            if at < claims(before).len() {
                assert(claims(before)[at] == claim);
                assert(claims(before).contains(claim));
                let (i, j) = choose|i: int, j: int|
                    {
                        &&& 0 <= i < before.len()
                        &&& 0 <= j < before[i].values.len()
                        &&& before[i].id == claim.group
                        &&& claim.cluster == texts::cluster_part(
                            texts::bytes(#[trigger] before[i].values[j]),
                        )
                        &&& claim.port == texts::port_part(texts::bytes(before[i].values[j]))
                    };
                assert(groups[i].values[j] == before[i].values[j]);
            } else {
                let j = at - claims(before).len();
                assert(own[j] == claim);
                assert(groups[groups.len() - 1].values[j] == last.values[j]);
            }
        }
        if exists|i: int, j: int|
            {
                &&& 0 <= i < groups.len()
                &&& 0 <= j < groups[i].values.len()
                &&& groups[i].id == claim.group
                &&& claim.cluster == texts::cluster_part(
                    texts::bytes(#[trigger] groups[i].values[j]),
                )
                &&& claim.port == texts::port_part(texts::bytes(groups[i].values[j]))
            } {
            let (i, j) = choose|i: int, j: int|
                {
                    &&& 0 <= i < groups.len()
                    &&& 0 <= j < groups[i].values.len()
                    &&& groups[i].id == claim.group
                    &&& claim.cluster == texts::cluster_part(
                        texts::bytes(#[trigger] groups[i].values[j]),
                    )
                    &&& claim.port == texts::port_part(texts::bytes(groups[i].values[j]))
                };
            if i < before.len() {
                assert(before[i].values[j] == groups[i].values[j]);
                let at = claims(before).index_of(claim);
                assert(all[at] == claim);
            } else {
                assert(own[j] =~= claim);
                assert(all[claims(before).len() + j] == claim);
            }
        }
    }
}

/// A port is contested exactly where two claims of it are for different clusters;
/// the table counts every contested port once, and each is claimed.
pub proof fn law_contested_ports_are_claimed_twice(list: Seq<ClaimModel>, port: Seq<u8>)
    ensures
        contested_ports(list).contains(port) <==> exists|a: ClaimModel, b: ClaimModel|
            #[trigger] list.contains(a) && #[trigger] list.contains(b) && a.port == port && b.port
                == port && a.cluster != b.cluster,
        contested_ports(list).contains(port) ==> ports(list).contains(port),
        ports(list).contains(port) <==> first_claimant(list, port) is Some,
{
    law_first_claimant_is_the_first(list, port);
    let named = list.map_values(|claim: ClaimModel| claim.port);
    if contested(list, port) {
        let (i, j) = choose|i: int, j: int|
            0 <= i < list.len() && 0 <= j < list.len() && (#[trigger] list[i]).port == port && (
            #[trigger] list[j]).port == port && list[i].cluster != list[j].cluster;
        assert(list.contains(list[i]) && list.contains(list[j]));
        assert(named[i] == port);
        assert(named.contains(port));
    }
    if exists|a: ClaimModel, b: ClaimModel|
        #[trigger] list.contains(a) && #[trigger] list.contains(b) && a.port == port && b.port
            == port && a.cluster != b.cluster {
        let (a, b) = choose|a: ClaimModel, b: ClaimModel|
            #[trigger] list.contains(a) && #[trigger] list.contains(b) && a.port == port && b.port
                == port && a.cluster != b.cluster;
        assert(list[list.index_of(a)] == a);
        assert(list[list.index_of(b)] == b);
    }
    if named.contains(port) {
        let at = named.index_of(port);
        assert(list[at].port == port);
    }
    if first_claimant(list, port) is Some {
        let at = choose|at: int| 0 <= at < list.len() && (#[trigger] list[at]).port == port;
        assert(named[at] == port);
        assert(named.contains(port));
    }
}

} // verus!
