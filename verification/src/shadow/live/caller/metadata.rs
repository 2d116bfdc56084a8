//! Router metadata rebuilt independently from the original health refresh
//! inputs and the values each grouping decision actually read: group inventory
//! and order, membership, the redirection gate and the Group / `NoGroup` /
//! Conflict / `ObserverError` classification of a client. Go's outcomes arrive
//! only as witnesses. Group identities are bound to the real `GroupCreated` /
//! native Init / `GroupRemoved` lifecycle; a failed construction is an explicit
//! pair, never silently dropped. This component has no factory, wire dispatch,
//! ledger or effect capability; the caller supplies the ledger's per-account
//! idle view for removals, whether a value list parses, and the shared
//! admission for growth.
use vstd::prelude::*;

pub mod charges;
pub mod decisions;
pub mod state;
pub mod stored;
pub mod tracker;

pub use stored::StoredMetadata;
pub use tracker::Tracker;

use super::selection::ErrorClass;
use crate::shadow::{Epoch, InvalidReason};
use crate::texts;

verus! {

/// Backends per refresh; more is a Capacity failure, never truncation.
pub const MAX_BACKENDS: usize = 64;

/// Aggregate grouping values per refresh, per contract; no per-backend bound.
pub const MAX_VALUES: usize = 256;

/// Longest single grouping value, matching the caller string bound.
pub const MAX_VALUE_BYTES: usize = 512;

/// Aggregate value bytes per refresh, matching the caller aggregate bound.
pub const MAX_REFRESH_VALUE_BYTES: usize = 65_536;

/// Retained groups, matching the frozen caller group bound.
pub const MAX_GROUPS: usize = 64;

/// Retained values across all backends and groups: every backend keeps at
/// most one read of `MAX_VALUES`, and every group at most one stored result.
pub const MAX_RETAINED_VALUES: usize = 32_768;

/// Retained value bytes across all backends and groups, by the same rule.
pub const MAX_RETAINED_VALUE_BYTES: usize = 8_388_608;

/// Distinct listener ports the rebuilt conflict table may bind: every live
/// group's stored values.
pub const MAX_PORT_ENTRIES: usize = 16_384;

/// The router's fixed match rule, as the refresh actually read it.
#[derive(Clone, Copy, Debug, PartialEq, Eq, Structural)]
pub enum Rule {
    /// One group accepts every client.
    All,
    /// Logical client address against member CIDRs.
    ClientCidr,
    /// Immediate peer address against member CIDRs.
    ProxyCidr,
    /// Listener port dispatch with cluster-scoped conflicts.
    Port,
}

impl Rule {
    /// Wire value 1..=4.
    pub fn from_wire(value: u8) -> (r: Option<Self>)
        ensures
            r == (match value {
                1u8 => Some(Rule::All),
                2u8 => Some(Rule::ClientCidr),
                3u8 => Some(Rule::ProxyCidr),
                4u8 => Some(Rule::Port),
                _ => None,
            }),
    {
        match value {
            1 => Some(Rule::All),
            2 => Some(Rule::ClientCidr),
            3 => Some(Rule::ProxyCidr),
            4 => Some(Rule::Port),
            _ => None,
        }
    }

    /// Whether Go reads grouping values for a healthy backend under this rule.
    pub open spec fn needs_values(self) -> bool {
        !(self is All)
    }

    /// Decide [`Rule::needs_values`].
    pub fn reads_values(self) -> (r: bool)
        ensures
            r == self.needs_values(),
    {
        self != Rule::All
    }

    /// Whether groups match client addresses against value lists.
    pub open spec fn is_cidr(self) -> bool {
        self is ClientCidr || self is ProxyCidr
    }

    /// Decide [`Rule::is_cidr`].
    pub fn cidr(self) -> (r: bool)
        ensures
            r == self.is_cidr(),
    {
        self == Rule::ClientCidr || self == Rule::ProxyCidr
    }
}

/// One backend exactly as the health loop read it, before any Group lock. The
/// router holds a wrapper for it exactly when `account` is nonzero.
#[derive(Clone, Copy, Debug, PartialEq, Eq, Structural)]
pub struct Input {
    /// Stable observation identity; zero for a backend the router never held.
    pub account: u64,
    /// Health gate of this refresh.
    pub healthy: bool,
    /// Redirection support of this backend.
    pub support_redirection: bool,
    /// False when the fresh list no longer contains the backend.
    pub present: bool,
}

impl Input {
    /// The router holds a wrapper for this backend after the health loop.
    pub fn held(&self) -> (r: bool)
        ensures
            r == (self.account != 0),
    {
        self.account != 0
    }

    /// Go holds a wrapper for every healthy backend and for every backend it
    /// already held; a dropped backend is reported unhealthy.
    pub open spec fn coherent(self) -> bool {
        &&& self.account != 0 || !self.healthy && self.present
        &&& self.present || !self.healthy
    }
}

/// Refresh header: the complete input set of one actual refresh.
#[derive(Clone, Debug, PartialEq, Eq)]
pub struct Begin {
    /// Monotonic per owner; decisions reference it.
    pub generation: u64,
    /// Exact equality class of the health observer error.
    pub observer_error: ErrorClass,
    /// The router's rule.
    pub rule: Rule,
    /// Actual health-loop order; an observer error carries none.
    pub inputs: Vec<Input>,
}

/// Whether each input is coherent and no held backend occurs twice.
pub open spec fn inputs_coherent(inputs: Seq<Input>) -> bool {
    &&& forall|i: int| 0 <= i < inputs.len() ==> (#[trigger] inputs[i]).coherent()
    &&& forall|i: int, j: int|
        0 <= i < j < inputs.len() && inputs[j].account != 0 ==> (#[trigger] inputs[i]).account != (
        #[trigger] inputs[j]).account
}

impl Begin {
    /// Why the header has no valid shape, if it has none.
    pub open spec fn shape_refusal(self) -> Option<InvalidReason> {
        if self.generation == 0 || !(self.observer_error is Success) && self.inputs@.len() != 0 {
            Some(InvalidReason::Identity)
        } else if self.inputs@.len() > MAX_BACKENDS {
            Some(InvalidReason::Capacity)
        } else if !inputs_coherent(self.inputs@) {
            Some(InvalidReason::Identity)
        } else {
            None
        }
    }

    /// Bounds and identity checks shared by decode and domain admission.
    pub fn validate(&self) -> (r: Result<(), InvalidReason>)
        ensures
            match self.shape_refusal() {
                Some(reason) => r == Err::<(), InvalidReason>(reason),
                None => r is Ok,
            },
    {
        if self.generation == 0 || self.observer_error != ErrorClass::Success && self.inputs.len()
            != 0 {
            return Err(InvalidReason::Identity);
        }
        if self.inputs.len() > MAX_BACKENDS {
            return Err(InvalidReason::Capacity);
        }
        let mut index: usize = 0;
        while index < self.inputs.len()
            invariant
                index <= self.inputs@.len() <= MAX_BACKENDS,
                self.generation != 0,
                self.observer_error is Success || self.inputs@.len() == 0,
                forall|i: int| 0 <= i < index ==> (#[trigger] self.inputs@[i]).coherent(),
                forall|i: int, j: int|
                    0 <= i < j < index && self.inputs@[j].account != 0 ==> (
                    #[trigger] self.inputs@[i]).account != (#[trigger] self.inputs@[j]).account,
            decreases self.inputs@.len() - index,
        {
            let input = self.inputs[index];
            if !input.held() && (input.healthy || !input.present) || !input.present
                && input.healthy {
                assert(!self.inputs@[index as int].coherent());
                return Err(InvalidReason::Identity);
            }
            let mut earlier: usize = 0;
            while input.held() && earlier < index
                invariant
                    earlier <= index < self.inputs@.len() <= MAX_BACKENDS,
                    self.generation != 0,
                    self.observer_error is Success || self.inputs@.len() == 0,
                    input == self.inputs@[index as int],
                    forall|i: int|
                        0 <= i < earlier ==> (#[trigger] self.inputs@[i]).account != input.account,
                decreases index - earlier,
            {
                if self.inputs[earlier].account == input.account {
                    assert(!inputs_coherent(self.inputs@));
                    return Err(InvalidReason::Identity);
                }
                earlier = earlier + 1;
            }
            index = index + 1;
        }
        Ok(())
    }
}

/// One backend's actual outcome, in Go's decision order, with the grouping
/// values that decision read.
#[derive(Clone, Debug, PartialEq, Eq)]
pub struct Assign {
    /// Refresh this decision belongs to.
    pub generation: u64,
    /// Zero-based decision index.
    pub index: u16,
    /// Backend identity.
    pub account: u64,
    /// Group after the decision; zero when none.
    pub group: u64,
    /// Backend left the router.
    pub removed: bool,
    /// This decision created `group`.
    pub created: bool,
    /// Go read the backend's grouping values for this decision.
    pub values_read: bool,
    /// The values as read; empty when not read.
    pub values: Vec<String>,
}

/// Whether a value list keeps the per-refresh bounds.
pub open spec fn values_fit(values: Seq<Seq<char>>) -> bool {
    texts::bounded(
        values,
        MAX_VALUES as nat,
        MAX_VALUE_BYTES as nat,
        MAX_REFRESH_VALUE_BYTES as nat,
    )
}

impl Assign {
    /// The values that the decision read.
    pub open spec fn texts(self) -> Seq<Seq<char>> {
        texts::texts(self.values@)
    }

    /// Why the witness has no valid shape, if it has none.
    pub open spec fn shape_refusal(self) -> Option<InvalidReason> {
        if self.generation == 0 || self.account == 0 || self.removed && (self.group != 0
            || self.values_read) || self.created && self.group == 0 || self.removed && self.created
            || !self.values_read && self.values@.len() != 0 {
            Some(InvalidReason::Identity)
        } else if self.index >= MAX_BACKENDS || !values_fit(self.texts()) {
            Some(InvalidReason::Capacity)
        } else {
            None
        }
    }

    /// Shape checks shared by decode and domain admission.
    pub fn validate(&self) -> (r: Result<(), InvalidReason>)
        ensures
            match self.shape_refusal() {
                Some(reason) => r == Err::<(), InvalidReason>(reason),
                None => r is Ok,
            },
    {
        if self.generation == 0 || self.account == 0 || self.removed && (self.group != 0
            || self.values_read) || self.created && self.group == 0 || self.removed && self.created
            || !self.values_read && self.values.len() != 0 {
            return Err(InvalidReason::Identity);
        }
        if self.index as usize >= MAX_BACKENDS || !texts::within(
            &self.values,
            MAX_VALUES,
            MAX_VALUE_BYTES,
            MAX_REFRESH_VALUE_BYTES,
        ) {
            return Err(InvalidReason::Capacity);
        }
        Ok(())
    }
}

/// One member's actual `Cidr()` read inside `RefreshCidr`, in Go's map order.
#[derive(Clone, Debug, PartialEq, Eq)]
pub struct Member {
    /// Member backend identity.
    pub account: u64,
    /// The values as read.
    pub values: Vec<String>,
}

/// What [`Member`] says.
#[verifier::ext_equal]
pub struct MemberModel {
    /// Member backend identity.
    pub account: u64,
    /// The values as read.
    pub values: Seq<Seq<char>>,
}

impl View for Member {
    type V = MemberModel;

    open spec fn view(&self) -> MemberModel {
        MemberModel { account: self.account, values: texts::texts(self.values@) }
    }
}

/// The reads of some members.
pub open spec fn reads(members: Seq<Member>) -> Seq<MemberModel> {
    members.map_values(|member: Member| member@)
}

/// How many values some members read.
pub open spec fn read_count(members: Seq<MemberModel>) -> nat
    decreases members.len(),
{
    if members.len() == 0 {
        0
    } else {
        read_count(members.drop_last()) + members.last().values.len()
    }
}

/// How many bytes some members read.
pub open spec fn read_bytes(members: Seq<MemberModel>) -> nat
    decreases members.len(),
{
    if members.len() == 0 {
        0
    } else {
        read_bytes(members.drop_last()) + texts::total_bytes(members.last().values)
    }
}

/// Every read value keeps the length bound.
pub open spec fn reads_short(members: Seq<MemberModel>) -> bool {
    forall|i: int, j: int|
        0 <= i < members.len() && 0 <= j < members[i].values.len() ==> texts::bytes(
            #[trigger] members[i].values[j],
        ).len() <= MAX_VALUE_BYTES
}

/// The backends that were read.
pub open spec fn readers(members: Seq<MemberModel>) -> Seq<u64> {
    members.map_values(|member: MemberModel| member.account)
}

/// One Group's CIDR recomputation, witnessed inside that Group's lock: every
/// member read at its read site, then the value list exactly as stored.
#[derive(Clone, Debug, PartialEq, Eq)]
pub struct Refresh {
    /// Refresh this recomputation belongs to.
    pub generation: u64,
    /// The refreshed group.
    pub group: u64,
    /// Go recomputed values (CIDR rules only).
    pub values_read: bool,
    /// The per-member reads; empty when not recomputed.
    pub members: Vec<Member>,
    /// The stored result; empty when not recomputed.
    pub values: Vec<String>,
    /// Whether the stored result parsed.
    pub parsed: bool,
}

/// Actual completion counts after CIDR refresh and conflict rebuild.
#[derive(Clone, Copy, Debug, PartialEq, Eq, Structural)]
pub struct End {
    /// Refresh this tail closes.
    pub generation: u64,
    /// Folded redirection gate.
    pub support_redirection: bool,
    /// Live groups after the refresh.
    pub groups: u16,
    /// Groups created in this refresh.
    pub created: u16,
    /// Backends removed in this refresh.
    pub removed: u16,
    /// Groups whose CIDR refresh failed to parse.
    pub refresh_failed: u16,
    /// Listener ports blocked by cluster conflicts.
    pub conflicts: u16,
}

/// A decoded metadata frame.
#[derive(Clone, Debug, PartialEq, Eq)]
pub enum Event {
    /// Refresh header.
    Begin(Begin),
    /// One decision.
    Assign(Assign),
    /// One Group recomputation.
    Refresh(Refresh),
    /// Refresh tail.
    End(End),
}

/// Typed metadata boundary; carries no children and creates no groups.
#[derive(Clone, Debug, PartialEq, Eq)]
pub struct Boundary {
    /// Owner epoch.
    pub epoch: Epoch,
    /// Journal sequence of this frame.
    pub sequence: u64,
    /// Frame content.
    pub event: Event,
}

/// Independent classification of one client for a given generation.
#[derive(Clone, Copy, Debug, PartialEq, Eq, Structural)]
pub enum Classification {
    /// The derived group.
    Group(u64),
    /// No group matches or no group exists.
    NoGroup,
    /// The listener port is claimed by two clusters.
    Conflict,
    /// The health observer reported an error of this exact class.
    ObserverError(ErrorClass),
}

impl Refresh {
    /// The member reads.
    pub open spec fn tape(self) -> Seq<MemberModel> {
        reads(self.members@)
    }

    /// The stored result.
    pub open spec fn texts(self) -> Seq<Seq<char>> {
        texts::texts(self.values@)
    }

    /// Values that this frame reads, its stored result among them.
    pub open spec fn value_count(self) -> nat {
        read_count(self.tape()) + self.texts().len()
    }

    /// Bytes that this frame reads, its stored result among them.
    pub open spec fn byte_count(self) -> nat {
        read_bytes(self.tape()) + texts::total_bytes(self.texts())
    }

    /// Whether all values together keep the per-refresh bounds.
    pub open spec fn fits(self) -> bool {
        &&& self.value_count() <= MAX_VALUES
        &&& self.byte_count() <= MAX_REFRESH_VALUE_BYTES
        &&& reads_short(self.tape())
        &&& forall|i: int|
            0 <= i < self.texts().len() ==> texts::bytes(#[trigger] self.texts()[i]).len()
                <= MAX_VALUE_BYTES
    }

    /// Why the witness has no valid shape, if it has none.
    pub open spec fn shape_refusal(self) -> Option<InvalidReason> {
        if self.generation == 0 || self.group == 0 || !self.values_read && (self.members@.len() != 0
            || self.values@.len() != 0 || !self.parsed) {
            Some(InvalidReason::Identity)
        } else if self.members@.len() > MAX_BACKENDS {
            Some(InvalidReason::Capacity)
        } else if !crate::slices::identities(readers(self.tape())) {
            Some(InvalidReason::Identity)
        } else if !self.fits() {
            Some(InvalidReason::Capacity)
        } else {
            None
        }
    }
}

/// Further members never read less.
proof fn lemma_reads_grow(members: Seq<MemberModel>, count: int)
    requires
        0 <= count <= members.len(),
    ensures
        read_count(members.take(count)) <= read_count(members),
        read_bytes(members.take(count)) <= read_bytes(members),
    decreases members.len() - count,
{
    if count == members.len() {
        assert(members.take(count) =~= members);
    } else {
        lemma_reads_grow(members, count + 1);
        assert(members.take(count + 1).drop_last() =~= members.take(count));
    }
}

impl Refresh {
    /// Values and bytes this frame reads, for the per-refresh aggregate; none
    /// where one of them exceeds its bound.
    pub fn read_size(&self) -> (r: Option<(usize, usize)>)
        ensures
            r is Some <==> self.value_count() <= MAX_VALUES && self.byte_count()
                <= MAX_REFRESH_VALUE_BYTES,
            r matches Some((values, bytes)) ==> values == self.value_count() && bytes
                == self.byte_count(),
    {
        let ghost tape = self.tape();
        let mut values: usize = self.values.len();
        let mut bytes: usize = texts::total_length(&self.values);
        proof {
            lemma_reads_grow(tape, 0);
            assert(tape.take(0) =~= Seq::empty());
        }
        if values > MAX_VALUES || bytes > MAX_REFRESH_VALUE_BYTES {
            return None;
        }
        let mut index: usize = 0;
        while index < self.members.len()
            invariant
                tape == self.tape(),
                index <= self.members@.len(),
                values == self.texts().len() + read_count(tape.take(index as int)),
                bytes == texts::total_bytes(self.texts()) + read_bytes(tape.take(index as int)),
                values <= MAX_VALUES,
                bytes <= MAX_REFRESH_VALUE_BYTES,
            decreases self.members@.len() - index,
        {
            let list = &self.members[index].values;
            proof {
                lemma_reads_grow(tape, index + 1);
                assert(tape.take(index + 1).drop_last() =~= tape.take(index as int));
                assert(tape[index as int].values == texts::texts(list@));
            }
            let more: usize = texts::total_length(list);
            if list.len() > MAX_VALUES - values || more > MAX_REFRESH_VALUE_BYTES - bytes {
                return None;
            }
            values = values + list.len();
            bytes = bytes + more;
            index = index + 1;
        }
        assert(tape.take(tape.len() as int) =~= tape);
        Some((values, bytes))
    }

    /// Whether every read value keeps the length bound.
    fn short(&self) -> (r: bool)
        ensures
            r == reads_short(self.tape()),
    {
        let mut index: usize = 0;
        while index < self.members.len()
            invariant
                index <= self.members@.len(),
                forall|i: int, j: int|
                    0 <= i < index && 0 <= j < self.tape()[i].values.len() ==> texts::bytes(
                        #[trigger] self.tape()[i].values[j],
                    ).len() <= MAX_VALUE_BYTES,
            decreases self.members@.len() - index,
        {
            if !texts::all_within(&self.members[index].values, MAX_VALUE_BYTES) {
                proof {
                    let list = texts::texts(self.members@[index as int].values@);
                    let j = choose|j: int|
                        0 <= j < list.len() && texts::bytes(#[trigger] list[j]).len()
                            > MAX_VALUE_BYTES;
                    assert(self.tape()[index as int].values[j] == list[j]);
                }
                return false;
            }
            assert forall|j: int|
                0 <= j < self.tape()[index as int].values.len() implies texts::bytes(
                #[trigger] self.tape()[index as int].values[j],
            ).len() <= MAX_VALUE_BYTES by {
                assert(self.tape()[index as int].values[j] == texts::texts(
                    self.members@[index as int].values@,
                )[j]);
            }
            index = index + 1;
        }
        true
    }

    /// Shape checks shared by decode and domain admission.
    pub fn validate(&self) -> (r: Result<(), InvalidReason>)
        ensures
            match self.shape_refusal() {
                Some(reason) => r == Err::<(), InvalidReason>(reason),
                None => r is Ok,
            },
    {
        if self.generation == 0 || self.group == 0 || !self.values_read && (self.members.len() != 0
            || self.values.len() != 0 || !self.parsed) {
            return Err(InvalidReason::Identity);
        }
        if self.members.len() > MAX_BACKENDS {
            return Err(InvalidReason::Capacity);
        }
        let mut accounts: Vec<u64> = Vec::new();
        let mut index: usize = 0;
        while index < self.members.len()
            invariant
                index <= self.members@.len(),
                accounts@.len() == index,
                forall|i: int| 0 <= i < index ==> accounts@[i] == readers(self.tape())[i],
            decreases self.members@.len() - index,
        {
            accounts.push(self.members[index].account);
            index = index + 1;
        }
        assert(accounts@ =~= readers(self.tape()));
        if !crate::slices::are_identities(accounts.as_slice()) {
            return Err(InvalidReason::Identity);
        }
        if self.read_size().is_none() || !self.short() || !texts::all_within(
            &self.values,
            MAX_VALUE_BYTES,
        ) {
            return Err(InvalidReason::Capacity);
        }
        Ok(())
    }
}

} // verus!
