//! Group-local Route comparison. Router match/metadata and selector retry
//! binding are separate callers; this grants no installed coverage.
use vstd::prelude::*;

use super::selection::{Binding, DerivedResult, ErrorClass};
use super::{Scope, ScopeModel, Stage, StageModel};
use crate::shadow::ledger::MirrorModel;
use crate::shadow::live::{Batch, LiveEvent, LiveModel, LiveState};
use crate::shadow::native::{Entry, Evaluation};
use crate::shadow::native_compute::Computation;
use crate::shadow::{Epoch, Event, InvalidReason, Progress, Status};
use crate::{slices, texts};

verus! {

/// Already-read getter values in actual call order, with child completion positions.
#[derive(Clone, Debug, PartialEq, Eq)]
pub enum Read {
    /// Group's health getter (not a second factor getter).
    Healthy {
        /// Number of children completed at the actual read site.
        completed: u8,
        /// Admitted backend account being read.
        account: u64,
        /// Already evaluated getter result.
        value: bool,
    },
    /// Backend ID at each actually executed equality comparison.
    BackendId {
        /// Number of children completed at the actual read site.
        completed: u8,
        /// Admitted backend account being read.
        account: u64,
        /// Copied UTF-8 getter result, at most 512 bytes.
        value: String,
    },
    /// Excluded backend ID, preserving the Go loop's short circuit.
    ExcludedId {
        /// Number of children completed at the actual read site.
        completed: u8,
        /// Original exclusion slice index.
        index: u16,
        /// Copied UTF-8 getter result, at most 512 bytes.
        value: String,
    },
}

impl Read {
    /// Children completed at the read site.
    pub open spec fn position(self) -> u8 {
        match self {
            Read::Healthy { completed, .. } => completed,
            Read::BackendId { completed, .. } => completed,
            Read::ExcludedId { completed, .. } => completed,
        }
    }

    /// Whether the read names an account, or an index of the exclusion list.
    pub open spec fn names_subject(self, excluded: u16) -> bool {
        match self {
            Read::Healthy { account, .. } => account != 0,
            Read::BackendId { account, .. } => account != 0,
            Read::ExcludedId { index, .. } => index < excluded,
        }
    }

    /// Bytes of the copied text.
    pub open spec fn text_bytes(self) -> nat {
        match self {
            Read::Healthy { .. } => 0,
            Read::BackendId { value, .. } => texts::bytes(value@).len(),
            Read::ExcludedId { value, .. } => texts::bytes(value@).len(),
        }
    }

    /// Bytes of the copied text.
    pub fn text_length(&self) -> (r: usize)
        ensures
            r == self.text_bytes(),
    {
        match self {
            Read::Healthy { .. } => 0,
            Read::BackendId { value, .. } => texts::length(value),
            Read::ExcludedId { value, .. } => texts::length(value),
        }
    }

    fn refuse(&self, excluded: u16, children: usize) -> (r: bool)
        ensures
            r == (!self.names_subject(excluded) || self.position() > children),
    {
        match self {
            Read::Healthy { completed, account, .. } => *account == 0 || *completed as usize > children,
            Read::BackendId { completed, account, .. } => *account == 0 || *completed as usize
                > children,
            Read::ExcludedId { completed, index, .. } => *index >= excluded || *completed as usize
                > children,
        }
    }
}

/// Bytes of the texts of the first reads.
pub open spec fn read_bytes(reads: Seq<Read>, count: int) -> nat
    decreases count,
{
    if count <= 0 {
        0
    } else {
        read_bytes(reads, count - 1) + reads[count - 1].text_bytes()
    }
}

/// More reads hold no fewer bytes.
pub proof fn lemma_read_bytes(reads: Seq<Read>, from: int, to: int)
    requires
        from <= to,
    ensures
        read_bytes(reads, from) <= read_bytes(reads, to),
    decreases to - from,
{
    if from < to {
        lemma_read_bytes(reads, from, to - 1);
    }
}

/// Why the first reads are malformed, if they are.
pub open spec fn reads_refusal(reads: Seq<Read>, excluded: u16, children: nat, count: int) -> Option<
    InvalidReason,
>
    decreases count,
{
    if count <= 0 {
        None
    } else {
        match reads_refusal(reads, excluded, children, count - 1) {
            Some(reason) => Some(reason),
            None => {
                let read = reads[count - 1];
                if !read.names_subject(excluded) || read.position() > children {
                    Some(InvalidReason::Witness)
                } else if read.text_bytes() > 512 || read_bytes(reads, count) > 65_536 {
                    Some(InvalidReason::Capacity)
                } else {
                    None
                }
            },
        }
    }
}

proof fn lemma_reads_refusal_stays(reads: Seq<Read>, excluded: u16, children: nat, from: int, to: int)
    requires
        from <= to,
        reads_refusal(reads, excluded, children, from) is Some,
    ensures
        reads_refusal(reads, excluded, children, to) == reads_refusal(
            reads,
            excluded,
            children,
            from,
        ),
    decreases to - from,
{
    if from < to {
        lemma_reads_refusal_stays(reads, excluded, children, from, to - 1);
    }
}

fn refuse_reads(reads: &Vec<Read>, excluded: u16, children: usize) -> (r: Option<InvalidReason>)
    ensures
        r == reads_refusal(reads@, excluded, children as nat, reads@.len() as int),
{
    let mut strings: usize = 0;
    let mut index: usize = 0;
    while index < reads.len()
        invariant
            index <= reads@.len(),
            reads_refusal(reads@, excluded, children as nat, index as int) is None,
            strings == read_bytes(reads@, index as int),
            strings <= 65_536,
        decreases reads@.len() - index,
    {
        let read = &reads[index];
        let length = read.text_length();
        let refusal = if read.refuse(excluded, children) {
            Some(InvalidReason::Witness)
        } else if length > 512 || strings + length > 65_536 {
            Some(InvalidReason::Capacity)
        } else {
            None
        };
        assert(refusal == reads_refusal(reads@, excluded, children as nat, index + 1));
        if refusal.is_some() {
            proof {
                lemma_reads_refusal_stays(
                    reads@,
                    excluded,
                    children as nat,
                    index + 1,
                    reads@.len() as int,
                );
            }
            return refusal;
        }
        strings = strings + length;
        index = index + 1;
    }
    None
}

/// One complete native evaluation or compound lifecycle mutation.
#[derive(Clone, Debug)]
pub enum Child {
    /// Body retains its own epoch, sequence, Group, inputs and witnesses.
    Evaluation(Box<Evaluation>),
    /// Body retains all events and complete before/after witnesses.
    Batch(Batch),
}

impl Child {
    /// Owner incarnation.
    pub open spec fn epoch(self) -> Epoch {
        match self {
            Child::Evaluation(e) => e.epoch,
            Child::Batch(batch) => batch.epoch,
        }
    }

    /// First sequence.
    pub open spec fn sequence(self) -> u64 {
        match self {
            Child::Evaluation(e) => e.sequence,
            Child::Batch(batch) => batch.sequence,
        }
    }

    /// How many sequences the child takes.
    pub open spec fn span(self) -> nat {
        match self {
            Child::Evaluation(_) => 1,
            Child::Batch(batch) => batch.events@.len(),
        }
    }

    /// Why the child's own shape is refused, if it is.
    pub open spec fn shape_refusal(self, group: u64) -> Option<InvalidReason> {
        match self {
            Child::Evaluation(e) => if e.group != group {
                Some(InvalidReason::Identity)
            } else {
                None
            },
            Child::Batch(batch) => if batch.events@.len() == 0 || batch.events@.len() > 4
                || batch.witness.accounts@.len() > 2 {
                Some(InvalidReason::Capacity)
            } else {
                None
            },
        }
    }
}

/// How many sequences the first children take.
pub open spec fn children_span(children: Seq<Child>, count: int) -> nat
    decreases count,
{
    if count <= 0 {
        0
    } else {
        children_span(children, count - 1) + children[count - 1].span()
    }
}

/// How many of the first children are evaluations.
pub open spec fn evaluation_count(children: Seq<Child>, count: int) -> nat
    decreases count,
{
    if count <= 0 {
        0
    } else {
        evaluation_count(children, count - 1) + if children[count - 1] is Evaluation {
            1nat
        } else {
            0nat
        }
    }
}

/// Why the first children do not form a contiguous run, if they do not.
pub open spec fn children_refusal(
    children: Seq<Child>,
    epoch: Epoch,
    group: u64,
    sequence: u64,
    count: int,
) -> Option<InvalidReason>
    decreases count,
{
    if count <= 0 {
        None
    } else {
        match children_refusal(children, epoch, group, sequence, count - 1) {
            Some(reason) => Some(reason),
            None => {
                let child = children[count - 1];
                if let Some(reason) = child.shape_refusal(group) {
                    Some(reason)
                } else if child.epoch() != epoch {
                    Some(InvalidReason::Identity)
                } else if child.sequence() != sequence + children_span(children, count - 1)
                    || sequence + children_span(children, count) > u64::MAX {
                    Some(InvalidReason::Sequence)
                } else {
                    None
                }
            },
        }
    }
}

proof fn lemma_children_refusal_stays(
    children: Seq<Child>,
    epoch: Epoch,
    group: u64,
    sequence: u64,
    from: int,
    to: int,
)
    requires
        from <= to,
        children_refusal(children, epoch, group, sequence, from) is Some,
    ensures
        children_refusal(children, epoch, group, sequence, to) == children_refusal(
            children,
            epoch,
            group,
            sequence,
            from,
        ),
    decreases to - from,
{
    if from < to {
        lemma_children_refusal_stays(children, epoch, group, sequence, from, to - 1);
    }
}

/// Actual Group return value and its position after child completions.
#[derive(Clone, Copy, Debug, PartialEq, Eq, Structural)]
pub struct ResultValue {
    /// Selected account, zero exactly for `ErrNoBackend`.
    pub account: u64,
    /// Actual reservation identity, zero exactly for `ErrNoBackend`.
    pub operation: u64,
    /// Number of complete children at return.
    pub completed: u8,
}

/// Bounded value capture, not a source of inventory or routing authority.
#[derive(Clone, Debug)]
pub struct Route {
    /// Nonzero call identity, scoped by the owner and contiguous sequence.
    pub caller: u64,
    /// Group already admitted to the independent ledger.
    pub group: u64,
    /// Selection identity; the ledger owns its lifecycle and operation watermark.
    pub session: u64,
    /// Actual Go exclusion slice length.
    pub excluded_count: u16,
    /// Full Group iteration order; independently checked against retained inventory.
    pub members: Vec<u64>,
    /// Actual caller getter tape, at most 128 entries and 64KiB of strings.
    pub reads: Vec<Read>,
    /// Captured result to compare after independent selection.
    pub result: ResultValue,
}

/// One Group critical section with complete unescaped child bodies.
#[derive(Clone, Debug)]
pub struct Envelope {
    /// Owner incarnation shared by every child.
    pub epoch: Epoch,
    /// First child sequence (or final comparison for a childless caller).
    pub sequence: u64,
    /// Evaluations plus lifecycle events plus one final caller check.
    pub span: u64,
    /// Typed actual caller reads and return value.
    pub route: Route,
    /// Actual completion/mutation order, bounded by four evaluations and 64 batches.
    pub children: Vec<Child>,
}

impl Envelope {
    /// Why the envelope's shape is refused, if it is.
    pub open spec fn shape_refusal(self) -> Option<InvalidReason> {
        let r = self.route;
        let children = self.children@;
        let total = children.len() as int;
        let evaluations = evaluation_count(children, total);
        if self.epoch.process == 0 || self.epoch.owner == 0 || self.epoch.nonce == 0
            || self.sequence == 0 || r.caller == 0 || r.group == 0 || r.session == 0 || (
        r.result.account == 0) != (r.result.operation == 0) {
            Some(InvalidReason::Identity)
        } else if r.members@.len() > 64 || r.excluded_count > 64 || r.reads@.len() > 128
            || children.len() > 68 {
            Some(InvalidReason::Capacity)
        } else if !slices::identities(r.members@) {
            Some(InvalidReason::Identity)
        } else if let Some(reason) = reads_refusal(
            r.reads@,
            r.excluded_count,
            children.len(),
            r.reads@.len() as int,
        ) {
            Some(reason)
        } else if let Some(reason) = children_refusal(
            children,
            self.epoch,
            r.group,
            self.sequence,
            total,
        ) {
            Some(reason)
        } else if evaluations > 4 || total - evaluations > 64 {
            Some(InvalidReason::Capacity)
        } else if children_span(children, total) + 1 != self.span {
            Some(InvalidReason::Sequence)
        } else {
            None
        }
    }

    fn refuse_children(&self) -> (r: Option<InvalidReason>)
        requires
            self.children@.len() <= 68,
        ensures
            r == (match children_refusal(
                self.children@,
                self.epoch,
                self.route.group,
                self.sequence,
                self.children@.len() as int,
            ) {
                Some(reason) => Some(reason),
                None => {
                    let total = self.children@.len() as int;
                    let evaluations = evaluation_count(self.children@, total);
                    if evaluations > 4 || total - evaluations > 64 {
                        Some(InvalidReason::Capacity)
                    } else if children_span(self.children@, total) + 1 != self.span {
                        Some(InvalidReason::Sequence)
                    } else {
                        None
                    }
                },
            }),
    {
        let children = &self.children;
        let mut next: u64 = self.sequence;
        let mut evaluations: usize = 0;
        let mut index: usize = 0;
        while index < children.len()
            invariant
                children@ == self.children@,
                index <= children@.len() <= 68,
                evaluations <= index,
                evaluations == evaluation_count(children@, index as int),
                next == self.sequence + children_span(children@, index as int),
                children_refusal(
                    children@,
                    self.epoch,
                    self.route.group,
                    self.sequence,
                    index as int,
                ) is None,
            decreases children@.len() - index,
        {
            let child = &children[index];
            let (shape, epoch, sequence, span) = match child {
                Child::Evaluation(e) => (
                    if e.group != self.route.group {
                        Some(InvalidReason::Identity)
                    } else {
                        None
                    },
                    e.epoch,
                    e.sequence,
                    1,
                ),
                Child::Batch(batch) => (
                    if batch.events.len() == 0 || batch.events.len() > 4
                        || batch.witness.accounts.len() > 2 {
                        Some(InvalidReason::Capacity)
                    } else {
                        None
                    },
                    batch.epoch,
                    batch.sequence,
                    batch.events.len() as u64,
                ),
            };
            let after = next.checked_add(span);
            let refusal = if shape.is_some() {
                shape
            } else if epoch != self.epoch {
                Some(InvalidReason::Identity)
            } else if sequence != next || after.is_none() {
                Some(InvalidReason::Sequence)
            } else {
                None
            };
            assert(refusal == children_refusal(
                children@,
                self.epoch,
                self.route.group,
                self.sequence,
                index + 1,
            ));
            if refusal.is_some() {
                proof {
                    lemma_children_refusal_stays(
                        children@,
                        self.epoch,
                        self.route.group,
                        self.sequence,
                        index + 1,
                        children@.len() as int,
                    );
                }
                return refusal;
            }
            if let Child::Evaluation(_) = child {
                evaluations = evaluations + 1;
            }
            if let Some(after) = after {
                next = after;
            }
            index = index + 1;
        }
        if evaluations > 4 || children.len() - evaluations > 64 {
            return Some(InvalidReason::Capacity);
        }
        if (next - self.sequence).checked_add(1) != Some(self.span) {
            return Some(InvalidReason::Sequence);
        }
        None
    }

    /// Validate bounded domain values, also for callers that bypass the wire codec.
    ///
    /// # Errors
    /// Rejects invalid identities, size/count limits or non-contiguous child spans.
    pub fn validate(&self) -> (r: Result<(), InvalidReason>)
        ensures
            r == (match self.shape_refusal() {
                Some(reason) => Err::<(), InvalidReason>(reason),
                None => Ok(()),
            }),
    {
        let r = &self.route;
        if self.epoch.process == 0 || self.epoch.owner == 0 || self.epoch.nonce == 0
            || self.sequence == 0 || r.caller == 0 || r.group == 0 || r.session == 0 || (
        r.result.account == 0) != (r.result.operation == 0) {
            return Err(InvalidReason::Identity);
        }
        if r.members.len() > 64 || r.excluded_count > 64 || r.reads.len() > 128
            || self.children.len() > 68 {
            return Err(InvalidReason::Capacity);
        }
        if !slices::are_identities(r.members.as_slice()) {
            return Err(InvalidReason::Identity);
        }
        if let Some(reason) = refuse_reads(&r.reads, r.excluded_count, self.children.len()) {
            return Err(reason);
        }
        match self.refuse_children() {
            Some(reason) => Err(reason),
            None => Ok(()),
        }
    }
}

impl Route {
    /// The health verdict that the read at a position gives for an account.
    pub open spec fn healthy_at(self, at: int, account: u64) -> Option<bool> {
        if 0 <= at < self.reads@.len() {
            match self.reads@[at] {
                Read::Healthy { completed, account: got, value } => if completed == 0 && got
                    == account {
                    Some(value)
                } else {
                    None
                },
                _ => None,
            }
        } else {
            None
        }
    }

    /// The backend identity that the read at a position gives for an account.
    pub open spec fn backend_at(self, at: int, account: u64) -> Option<Seq<char>> {
        if 0 <= at < self.reads@.len() {
            match self.reads@[at] {
                Read::BackendId { completed, account: got, value } => if completed == 0 && got
                    == account {
                    Some(value@)
                } else {
                    None
                },
                _ => None,
            }
        } else {
            None
        }
    }

    /// The excluded identity that the read at a position gives for an index.
    pub open spec fn excluded_at(self, at: int, index: int) -> Option<Seq<char>> {
        if 0 <= at < self.reads@.len() {
            match self.reads@[at] {
                Read::ExcludedId { completed, index: got, value } => if completed == 0 && got
                    == index {
                    Some(value@)
                } else {
                    None
                },
                _ => None,
            }
        } else {
            None
        }
    }

    /// Compare an account with the exclusions from an index on: whether one is
    /// equal, and the position after the consumed reads. None where a read is
    /// missing or out of order.
    pub open spec fn exclusion(self, account: u64, at: int, index: int) -> Option<(bool, int)>
        decreases self.excluded_count - index,
    {
        if index >= self.excluded_count {
            Some((false, at))
        } else {
            match (self.backend_at(at, account), self.excluded_at(at + 1, index)) {
                (Some(id), Some(excluded)) => if id == excluded {
                    Some((true, at + 2))
                } else {
                    self.exclusion(account, at + 2, index + 1)
                },
                _ => None,
            }
        }
    }

    /// The healthy and not excluded accounts among the first members, and the
    /// position after the consumed reads.
    pub open spec fn eligible_among(self, count: int) -> Option<(Seq<u64>, int)>
        decreases count,
    {
        if count <= 0 {
            Some((seq![], 0))
        } else {
            match self.eligible_among(count - 1) {
                None => None,
                Some((list, at)) => {
                    let account = self.members@[count - 1];
                    match self.healthy_at(at, account) {
                        None => None,
                        Some(false) => Some((list, at + 1)),
                        Some(true) => match self.exclusion(account, at + 1, 0) {
                            None => None,
                            Some((true, next)) => Some((list, next)),
                            Some((false, next)) => Some((list.push(account), next)),
                        },
                    }
                },
            }
        }
    }

    /// The eligible accounts of the group, where the reads are exactly those
    /// that finding them takes.
    pub open spec fn eligible_accounts(self) -> Option<Seq<u64>> {
        match self.eligible_among(self.members@.len() as int) {
            Some((list, at)) => if at == self.reads@.len() {
                Some(list)
            } else {
                None
            },
            None => None,
        }
    }

    fn exclude(&self, account: u64, start: usize) -> (r: Option<(bool, usize)>)
        requires
            start <= self.reads@.len(),
        ensures
            match self.exclusion(account, start as int, 0) {
                Some((excluded, at)) => r == Some((excluded, at as usize)) && 0 <= at
                    <= self.reads@.len(),
                None => r is None,
            },
    {
        let mut at: usize = start;
        let mut index: u16 = 0;
        while index < self.excluded_count
            invariant
                at <= self.reads@.len(),
                index <= self.excluded_count,
                self.exclusion(account, start as int, 0) == self.exclusion(
                    account,
                    at as int,
                    index as int,
                ),
            decreases self.excluded_count - index,
        {
            if self.reads.len() - at < 2 {
                return None;
            }
            let id = match &self.reads[at] {
                Read::BackendId { completed, account: got, value } => if *completed == 0 && *got
                    == account {
                    value
                } else {
                    return None;
                },
                _ => return None,
            };
            let excluded = match &self.reads[at + 1] {
                Read::ExcludedId { completed, index: got, value } => if *completed == 0 && *got
                    == index {
                    value
                } else {
                    return None;
                },
                _ => return None,
            };
            if *id == *excluded {
                return Some((true, at + 2));
            }
            at = at + 2;
            index = index + 1;
        }
        Some((false, at))
    }

    /// Derive the eligible accounts from the captured reads.
    pub fn eligible(&self) -> (r: Result<Vec<u64>, InvalidReason>)
        ensures
            match self.eligible_accounts() {
                Some(list) => r is Ok && r->Ok_0@ == list,
                None => r is Err && r->Err_0 == InvalidReason::Witness,
            },
    {
        let mut eligible: Vec<u64> = Vec::new();
        let mut at: usize = 0;
        let mut index: usize = 0;
        while index < self.members.len()
            invariant
                index <= self.members@.len(),
                at <= self.reads@.len(),
                self.eligible_among(index as int) == Some((eligible@, at as int)),
            decreases self.members@.len() - index,
        {
            let account = self.members[index];
            let ghost total = self.members@.len() as int;
            let healthy = if at < self.reads.len() {
                match &self.reads[at] {
                    Read::Healthy { completed, account: got, value } => if *completed == 0 && *got
                        == account {
                        Some(*value)
                    } else {
                        None
                    },
                    _ => None,
                }
            } else {
                None
            };
            assert(healthy == self.healthy_at(at as int, account));
            match healthy {
                None => {
                    proof {
                        self.lemma_ineligible(index + 1, total);
                    }
                    return Err(InvalidReason::Witness);
                },
                Some(false) => {
                    at = at + 1;
                },
                Some(true) => match self.exclude(account, at + 1) {
                    None => {
                        proof {
                            self.lemma_ineligible(index + 1, total);
                        }
                        return Err(InvalidReason::Witness);
                    },
                    Some((excluded, next)) => {
                        if !excluded {
                            eligible.push(account);
                        }
                        at = next;
                    },
                },
            }
            index = index + 1;
        }
        if at != self.reads.len() {
            return Err(InvalidReason::Witness);
        }
        Ok(eligible)
    }

    proof fn lemma_ineligible(&self, from: int, to: int)
        requires
            from <= to,
            self.eligible_among(from) is None,
        ensures
            self.eligible_among(to) is None,
        decreases to - from,
    {
        if from < to {
            self.lemma_ineligible(from, to - 1);
        }
    }
}

/// Whether a list is exactly the retained inventory of a group.
pub open spec fn inventory(ledger: MirrorModel, group: u64, members: Seq<u64>) -> bool {
    forall|id: u64| #[trigger] members.contains(id) <==> ledger.in_group(group, id)
}

/// Whether the accounts of an evaluation are some accounts, in their order.
pub open spec fn evaluates(e: Evaluation, accounts: Seq<u64>) -> bool {
    &&& e.accounts@.len() == accounts.len()
    &&& forall|i: int| 0 <= i < accounts.len() ==> (#[trigger] e.accounts@[i]).account == accounts[i]
}

/// Decide [`evaluates`].
pub fn is_evaluated(e: &Evaluation, accounts: &Vec<u64>) -> (r: bool)
    ensures
        r == evaluates(*e, accounts@),
{
    if e.accounts.len() != accounts.len() {
        return false;
    }
    let mut index: usize = 0;
    while index < accounts.len()
        invariant
            e.accounts@.len() == accounts@.len(),
            index <= accounts@.len(),
            forall|i: int|
                0 <= i < index ==> (#[trigger] e.accounts@[i]).account == accounts@[i],
        decreases accounts@.len() - index,
    {
        if e.accounts[index].account != accounts[index] {
            assert(e.accounts@[index as int].account != accounts@[index as int]);
            return false;
        }
        index = index + 1;
    }
    true
}

/// The reservation that a mutation ends with, or zero.
pub open spec fn reserved_operation(batch: Batch) -> u64 {
    let events = batch.events@;
    if events.len() == 0 {
        0
    } else {
        match events.last() {
            LiveEvent::Lifecycle { event, .. } => match event {
                Event::Reserve { operation, .. } => operation,
                _ => 0,
            },
            _ => 0,
        }
    }
}

/// A lifecycle event without explicit endpoints.
pub open spec fn plain(event: Event) -> LiveEvent {
    LiveEvent::Lifecycle { event, source: 0, target: 0 }
}

/// Whether a mutation is the one that a selection makes: a rejection where no
/// account was selected, else its reservation, after the session's opening
/// where this is its first.
pub open spec fn pairs(batch: Batch, session: u64, group: u64, selected: u64) -> bool {
    let reserve = plain(
        Event::Reserve { session, operation: reserved_operation(batch), account: selected },
    );
    if selected == 0 {
        batch.events@ == seq![LiveEvent::RouteRejected { session, group }]
    } else {
        batch.events@ == seq![reserve] || batch.events@ == seq![
            plain(Event::Open(session)),
            reserve,
        ]
    }
}

fn reservation(batch: &Batch) -> (r: u64)
    ensures
        r == reserved_operation(*batch),
{
    let count = batch.events.len();
    if count == 0 {
        return 0;
    }
    match batch.events[count - 1] {
        LiveEvent::Lifecycle { event, .. } => match event {
            Event::Reserve { operation, .. } => operation,
            _ => 0,
        },
        _ => 0,
    }
}

fn is_paired(batch: &Batch, session: u64, group: u64, selected: u64) -> (r: bool)
    ensures
        r == pairs(*batch, session, group, selected),
{
    let operation = reservation(batch);
    let reserve = LiveEvent::Lifecycle {
        event: Event::Reserve { session, operation, account: selected },
        source: 0,
        target: 0,
    };
    let open = LiveEvent::Lifecycle { event: Event::Open(session), source: 0, target: 0 };
    let rejected = LiveEvent::RouteRejected { session, group };
    let events = &batch.events;
    if selected == 0 {
        let r = events.len() == 1 && events[0] == rejected;
        proof {
            if r {
                assert(events@ =~= seq![rejected]);
            }
        }
        r
    } else if events.len() == 1 {
        let r = events[0] == reserve;
        proof {
            if r {
                assert(events@ =~= seq![reserve]);
            }
        }
        r
    } else {
        let r = events.len() == 2 && events[0] == open && events[1] == reserve;
        proof {
            if r {
                assert(events@ =~= seq![open, reserve]);
            }
        }
        r
    }
}

/// The result of a selection.
pub open spec fn derived_result(selected: u64, group: u64, operation: u64) -> DerivedResult {
    DerivedResult {
        backend: selected,
        error: if selected == 0 {
            ErrorClass::NoBackend
        } else {
            ErrorClass::Success
        },
        binding: if selected == 0 {
            None
        } else {
            Some(Binding { account: selected, group, operation })
        },
    }
}

impl StageModel {
    /// The stage after the native child of a route was compared, and the account
    /// that the decision selects: zero where it selects none.
    pub open spec fn route_selection(self, e: Envelope, c: Computation) -> (
        StageModel,
        Result<u64, InvalidReason>,
    ) {
        let children = e.children@;
        match e.route.eligible_accounts() {
            None => (self, Err(InvalidReason::Witness)),
            Some(eligible) => if e.route.members@.len() == 0 {
                (self, Ok(0))
            } else if children.len() == 0 {
                (self, Err(InvalidReason::Witness))
            } else {
                match children[0] {
                    Child::Batch(_) => (self, Err(InvalidReason::Witness)),
                    Child::Evaluation(native) => if !(native.entry is Route) || !evaluates(
                        *native,
                        eligible,
                    ) {
                        (self, Err(InvalidReason::Witness))
                    } else {
                        match self.evaluation(*native, c) {
                            (next, Err(reason)) => (next, Err(reason)),
                            (next, Ok(decision)) => if decision.returned.len() == 0 {
                                (next, Ok(0))
                            } else if decision.returned.len() == 1 && decision.returned[0]
                                < native.accounts@.len() {
                                (next, Ok(native.accounts@[decision.returned[0] as int].account))
                            } else {
                                (next, Err(InvalidReason::Witness))
                            },
                        }
                    },
                }
            },
        }
    }

    /// The stage after a route was compared, and its independently derived
    /// result. Comparing every child does not suffice: the members must be the
    /// retained inventory, the mutation must be the one that the selection
    /// makes, and the caller must return that selection after all children.
    pub open spec fn compare_route(self, e: Envelope, c: Computation) -> (
        StageModel,
        Result<DerivedResult, InvalidReason>,
    ) {
        let r = e.route;
        let children = e.children@;
        let first = if r.members@.len() == 0 {
            0int
        } else {
            1int
        };
        if !inventory(self.part(), r.group, r.members@) {
            (self, Err(InvalidReason::Witness))
        } else {
            match self.route_selection(e, c) {
                (next, Err(reason)) => (next, Err(reason)),
                (next, Ok(selected)) => if children.len() <= first || !(children[first] is Batch) {
                    (next, Err(InvalidReason::Witness))
                } else {
                    let batch = children[first]->Batch_0;
                    let operation = reserved_operation(batch);
                    if !pairs(batch, r.session, r.group, selected) || selected != r.result.account
                        || operation != r.result.operation {
                        (next, Err(InvalidReason::Witness))
                    } else {
                        match next.batch(batch) {
                            (last, Err(reason)) => (last, Err(reason)),
                            (last, Ok(_)) => if children.len() != first + 1 || r.result.completed
                                != children.len() {
                                (last, Err(InvalidReason::Witness))
                            } else {
                                (last, Ok(derived_result(selected, r.group, operation)))
                            },
                        }
                    }
                },
            }
        }
    }
}

/// Whether a duplicate-free list is exactly the retained inventory of a group.
pub fn is_inventory(ids: &Vec<u64>, members: &Vec<u64>) -> (r: bool)
    requires
        ids@.no_duplicates(),
        members@.no_duplicates(),
    ensures
        r == (forall|id: u64| #[trigger] members@.contains(id) <==> ids@.contains(id)),
{
    if ids.len() != members.len() {
        proof {
            if forall|id: u64| #[trigger] members@.contains(id) <==> ids@.contains(id) {
                ids@.unique_seq_to_set();
                members@.unique_seq_to_set();
                assert(ids@.to_set() =~= members@.to_set());
            }
        }
        return false;
    }
    let mut index: usize = 0;
    while index < ids.len()
        invariant
            index <= ids@.len(),
            forall|i: int| 0 <= i < index ==> members@.contains(#[trigger] ids@[i]),
        decreases ids@.len() - index,
    {
        if !slices::holds(members.as_slice(), ids[index]) {
            assert(ids@.contains(ids@[index as int]));
            return false;
        }
        index = index + 1;
    }
    proof {
        ids@.unique_seq_to_set();
        members@.unique_seq_to_set();
        vstd::seq_lib::seq_to_set_is_finite(members@);
        assert forall|id: u64| ids@.to_set().contains(id) implies members@.to_set().contains(id) by {
            let at = ids@.index_of(id);
            assert(members@.contains(ids@[at]));
        }
        vstd::set_lib::lemma_subset_equality(ids@.to_set(), members@.to_set());
        assert forall|id: u64| #[trigger] members@.contains(id) <==> ids@.contains(id) by {
            assert(members@.to_set().contains(id) <==> ids@.to_set().contains(id));
        }
    }
    true
}

impl<'a> Stage<'a> {
    /// Whether a list is exactly the staged inventory of a group.
    pub fn holds_inventory(&self, group: u64, members: &Vec<u64>) -> (r: bool)
        requires
            self.wf(),
            members@.no_duplicates(),
        ensures
            r == inventory(self.model().part(), group, members@),
    {
        let ids = match self.staged.core.owner(self.epoch.owner_key()) {
            Some(owner) => owner.ledger.caller_account_ids(group),
            None => Vec::new(),
        };
        proof {
            assert(ids@.no_duplicates()) by {
                assert forall|i: int, j: int|
                    0 <= i < ids@.len() && 0 <= j < ids@.len() && i != j implies ids@[i]
                    != ids@[j] by {
                    if ids@[i] == ids@[j] {
                        crate::ordered::lemma_ascending_unique(ids@, i, j);
                    }
                }
            }
        }
        is_inventory(&ids, members)
    }

    fn route_selection(&mut self, e: &Envelope, c: &Computation) -> (r: Result<u64, InvalidReason>)
        requires
            old(self).wf(),
        ensures
            final(self).wf(),
            (final(self).model(), r) == old(self).model().route_selection(*e, *c),
            *final(final(self).original) == *final(old(self).original),
    {
        let eligible = match e.route.eligible() {
            Ok(eligible) => eligible,
            Err(reason) => return Err(reason),
        };
        if e.route.members.len() == 0 {
            return Ok(0);
        }
        if e.children.len() == 0 {
            return Err(InvalidReason::Witness);
        }
        match &e.children[0] {
            Child::Batch(_) => Err(InvalidReason::Witness),
            Child::Evaluation(native) => {
                if !matches!(native.entry, Entry::Route) || !is_evaluated(native, &eligible) {
                    return Err(InvalidReason::Witness);
                }
                let decision = match self.evaluation(native, c) {
                    Ok(decision) => decision,
                    Err(reason) => return Err(reason),
                };
                let returned = decision.returned();
                if returned.len() == 0 {
                    Ok(0)
                } else if returned.len() == 1 && (returned[0] as usize) < native.accounts.len() {
                    Ok(native.accounts[returned[0] as usize].account)
                } else {
                    Err(InvalidReason::Witness)
                }
            },
        }
    }

    /// Compare a Group Route with what its children and reads derive.
    ///
    /// # Errors
    /// Any mismatch of inventory, reads, children, pairing or return.
    pub(crate) fn compare_route(&mut self, e: &Envelope, c: &Computation) -> (r: Result<
        DerivedResult,
        InvalidReason,
    >)
        requires
            old(self).wf(),
            e.route.members@.no_duplicates(),
        ensures
            final(self).wf(),
            (final(self).model(), r) == old(self).model().compare_route(*e, *c),
            *final(final(self).original) == *final(old(self).original),
    {
        let route = &e.route;
        if !self.holds_inventory(route.group, &route.members) {
            return Err(InvalidReason::Witness);
        }
        let selected = match self.route_selection(e, c) {
            Ok(selected) => selected,
            Err(reason) => return Err(reason),
        };
        let first: usize = if route.members.len() == 0 {
            0
        } else {
            1
        };
        if e.children.len() <= first {
            return Err(InvalidReason::Witness);
        }
        let batch = match &e.children[first] {
            Child::Batch(batch) => batch,
            Child::Evaluation(_) => return Err(InvalidReason::Witness),
        };
        // The reservation child supplies its operation; the caller's return is
        // only a witness. The ledger validates this operation's lifetime.
        let operation = reservation(batch);
        if !is_paired(batch, route.session, route.group, selected) || selected
            != route.result.account || operation != route.result.operation {
            return Err(InvalidReason::Witness);
        }
        if let Err(reason) = self.batch(batch) {
            return Err(reason);
        }
        // Deliberately final: even a fully valid child pair cannot commit if the
        // enclosing caller omitted/added a child or returned at another position.
        if e.children.len() != first + 1 || route.result.completed as usize != e.children.len() {
            return Err(InvalidReason::Witness);
        }
        Ok(
            if selected == 0 {
                DerivedResult { backend: 0, error: ErrorClass::NoBackend, binding: None }
            } else {
                DerivedResult {
                    backend: selected,
                    error: ErrorClass::Success,
                    binding: Some(Binding { account: selected, group: route.group, operation }),
                }
            },
        )
    }
}

impl Envelope {
    /// The scope that the envelope is compared in.
    pub open spec fn scope(self, frame_bytes: usize) -> ScopeModel {
        ScopeModel {
            epoch: self.epoch,
            group: self.route.group,
            sequence: self.sequence,
            span: self.span,
            sessions: seq![self.route.session],
            frame_bytes,
        }
    }
}

impl LiveModel {
    /// The state after a well-formed Group Route was compared in a scope whose
    /// ledger copy was charged like this, its result, and what it derived.
    pub open spec fn group_route(
        self,
        e: Envelope,
        c: Computation,
        frame_bytes: usize,
        copy: Result<usize, InvalidReason>,
    ) -> (LiveModel, Progress, Option<DerivedResult>) {
        match self.plan(e.scope(frame_bytes), copy) {
            Err(reason) => {
                let (next, progress) = self.unentered(e.epoch, reason);
                (next, progress, None)
            },
            Ok(plan) => {
                let (stage, result) = self.staged(e.scope(frame_bytes), plan).compare_route(e, c);
                stage.resolved(result)
            },
        }
    }
}

impl LiveState {
    /// Compare a complete Group Route, then commit all factor and lifecycle changes
    /// together. No successful child or observed output grants its own commit.
    pub fn observe_group_route(&mut self, envelope: &Envelope, computation: &Computation, frame_bytes: usize) -> (r:
        Progress)
        requires
            old(self).wf(),
            old(self).model().accounted(),
        ensures
            final(self).wf(),
            final(self).model().accounted(),
            envelope.shape_refusal() matches Some(reason) ==> (final(self).model(), r) == old(
                self,
            ).model().malformed(envelope.epoch, reason),
            envelope.shape_refusal() is None ==> exists|copy: Result<usize, InvalidReason>|
                #[trigger] old(self).model().may_copy(envelope.scope(frame_bytes), copy) && {
                    let (next, progress, _) = old(self).model().group_route(
                        *envelope,
                        *computation,
                        frame_bytes,
                        copy,
                    );
                    final(self).model() == next && r == progress
                },
    {
        self.observe_group_route_result(envelope, computation, frame_bytes).0
    }

    /// Return the independently selected account and validated reservation only
    /// after the entire Group caller commits. Failed or replayed callers expose
    /// no result. This does not validate the router's choice of Group or install
    /// selector history; those remain separate caller integration boundaries.
    pub fn observe_group_route_result(
        &mut self,
        envelope: &Envelope,
        computation: &Computation,
        frame_bytes: usize,
    ) -> (r: (Progress, Option<DerivedResult>))
        requires
            old(self).wf(),
            old(self).model().accounted(),
        ensures
            final(self).wf(),
            final(self).model().accounted(),
            envelope.shape_refusal() matches Some(reason) ==> (final(self).model(), r.0) == old(
                self,
            ).model().malformed(envelope.epoch, reason) && r.1 is None,
            envelope.shape_refusal() is None ==> exists|copy: Result<usize, InvalidReason>|
                #[trigger] old(self).model().may_copy(envelope.scope(frame_bytes), copy) && (
                final(self).model(),
                r.0,
                r.1,
            ) == old(self).model().group_route(*envelope, *computation, frame_bytes, copy),
    {
        if let Err(reason) = envelope.validate() {
            return (self.invalidate(envelope.epoch, reason), None);
        }
        let previous = self.progress(envelope.epoch).compared_sequence;
        let sessions: [u64; 1] = [envelope.route.session];
        let scope = Scope {
            epoch: envelope.epoch,
            group: envelope.route.group,
            sequence: envelope.sequence,
            span: envelope.span,
            sessions: &sessions,
            frame_bytes,
        };
        assert(scope@ =~= envelope.scope(frame_bytes)) by {
            assert(scope.sessions@ =~= seq![envelope.route.session]);
        }
        match self.begin_caller(scope) {
            Ok(mut stage) => {
                let comparison = stage.compare_route(envelope, computation);
                let verdict = match comparison {
                    Ok(_) => Ok(()),
                    Err(reason) => Err(reason),
                };
                let progress = stage.finish(verdict);
                let derived = match (progress.status, comparison) {
                    (Status::Comparing, Ok(derived)) => Some(derived),
                    _ => None,
                };
                (progress, derived)
            },
            Err(reason) => (
                Progress {
                    status: Status::Invalid(reason),
                    compared_sequence: previous,
                    transition: None,
                },
                None,
            ),
        }
    }
}

/// Whether a read saw what some backends, their identities and an exclusion list
/// are.
pub open spec fn agrees(
    read: Read,
    healthy: spec_fn(u64) -> bool,
    name: spec_fn(u64) -> Seq<char>,
    excluded: spec_fn(int) -> Seq<char>,
) -> bool {
    match read {
        Read::Healthy { account, value, .. } => value == healthy(account),
        Read::BackendId { account, value, .. } => value@ == name(account),
        Read::ExcludedId { index, value, .. } => value@ == excluded(index as int),
    }
}

proof fn lemma_exclusion_is_right(
    r: Route,
    account: u64,
    at: int,
    index: int,
    healthy: spec_fn(u64) -> bool,
    name: spec_fn(u64) -> Seq<char>,
    excluded: spec_fn(int) -> Seq<char>,
)
    requires
        at >= 0,
        index >= 0,
        forall|i: int|
            0 <= i < r.reads@.len() ==> agrees(#[trigger] r.reads@[i], healthy, name, excluded),
    ensures
        r.exclusion(account, at, index) matches Some((hit, next)) ==> {
            &&& hit <==> exists|j: int|
                index <= j < r.excluded_count && #[trigger] excluded(j) == name(account)
            &&& next >= at
            &&& at <= r.reads@.len() ==> next <= r.reads@.len()
            &&& forall|i: int| at <= i < next ==> (#[trigger] r.reads@[i]).position() == 0
        },
    decreases r.excluded_count - index,
{
    if index < r.excluded_count {
        match (r.backend_at(at, account), r.excluded_at(at + 1, index)) {
            (Some(id), Some(other)) => {
                assert(agrees(r.reads@[at], healthy, name, excluded));
                assert(agrees(r.reads@[at + 1], healthy, name, excluded));
                assert(id == name(account));
                assert(other == excluded(index));
                if id != other {
                    lemma_exclusion_is_right(
                        r,
                        account,
                        at + 2,
                        index + 1,
                        healthy,
                        name,
                        excluded,
                    );
                }
            },
            _ => {},
        }
    }
}

proof fn lemma_eligible_is_right(
    r: Route,
    count: int,
    healthy: spec_fn(u64) -> bool,
    name: spec_fn(u64) -> Seq<char>,
    excluded: spec_fn(int) -> Seq<char>,
)
    requires
        0 <= count <= r.members@.len(),
        forall|i: int|
            0 <= i < r.reads@.len() ==> agrees(#[trigger] r.reads@[i], healthy, name, excluded),
    ensures
        r.eligible_among(count) matches Some((list, at)) ==> {
            &&& list == r.members@.take(count).filter(
                |account: u64|
                    healthy(account) && !exists|j: int|
                        0 <= j < r.excluded_count && #[trigger] excluded(j) == name(account),
            )
            &&& 0 <= at <= r.reads@.len()
            &&& forall|i: int| 0 <= i < at ==> (#[trigger] r.reads@[i]).position() == 0
        },
    decreases count,
{
    reveal(Seq::filter);
    if count > 0 {
        lemma_eligible_is_right(r, count - 1, healthy, name, excluded);
        let head = r.members@.take(count);
        assert(head.drop_last() =~= r.members@.take(count - 1));
        assert(head.last() == r.members@[count - 1]);
        match r.eligible_among(count - 1) {
            Some((list, at)) => {
                let account = r.members@[count - 1];
                match r.healthy_at(at, account) {
                    Some(value) => {
                        assert(agrees(r.reads@[at], healthy, name, excluded));
                        assert(value == healthy(account));
                        lemma_exclusion_is_right(r, account, at + 1, 0, healthy, name, excluded);
                    },
                    None => {},
                }
            },
            None => {},
        }
    } else {
        assert(r.members@.take(0).len() == 0);
    }
}

/// Whatever backends, identities and exclusions the reads saw: the eligible
/// accounts are the members that are healthy and carry no excluded identity, in
/// member order, and every read was made before any child completed.
pub proof fn law_eligible_are_the_healthy_and_not_excluded(
    r: Route,
    healthy: spec_fn(u64) -> bool,
    name: spec_fn(u64) -> Seq<char>,
    excluded: spec_fn(int) -> Seq<char>,
)
    requires
        forall|i: int|
            0 <= i < r.reads@.len() ==> agrees(#[trigger] r.reads@[i], healthy, name, excluded),
    ensures
        r.eligible_accounts() matches Some(list) ==> {
            &&& list == r.members@.filter(
                |account: u64|
                    healthy(account) && !exists|j: int|
                        0 <= j < r.excluded_count && #[trigger] excluded(j) == name(account),
            )
            &&& forall|i: int|
                0 <= i < r.reads@.len() ==> (#[trigger] r.reads@[i]).position() == 0
        },
{
    lemma_eligible_is_right(r, r.members@.len() as int, healthy, name, excluded);
    assert(r.members@.take(r.members@.len() as int) =~= r.members@);
}

proof fn lemma_exclusion_reads_a_prefix(a: Route, b: Route, account: u64, at: int, index: int)
    requires
        a.excluded_count == b.excluded_count,
        a.reads@.is_prefix_of(b.reads@),
        at >= 0,
        a.exclusion(account, at, index) is Some,
    ensures
        b.exclusion(account, at, index) == a.exclusion(account, at, index),
        (a.exclusion(account, at, index)->0).1 >= at,
    decreases a.excluded_count - index,
{
    if index < a.excluded_count {
        assert(a.reads@[at] == b.reads@[at]);
        assert(a.reads@[at + 1] == b.reads@[at + 1]);
        if a.backend_at(at, account)->0 != a.excluded_at(at + 1, index)->0 {
            lemma_exclusion_reads_a_prefix(a, b, account, at + 2, index + 1);
        }
    }
}

proof fn lemma_eligible_reads_a_prefix(a: Route, b: Route, count: int)
    requires
        a.excluded_count == b.excluded_count,
        a.members@ == b.members@,
        a.reads@.is_prefix_of(b.reads@),
        a.eligible_among(count) is Some,
    ensures
        b.eligible_among(count) == a.eligible_among(count),
        (a.eligible_among(count)->0).1 >= 0,
    decreases count,
{
    if count > 0 {
        lemma_eligible_reads_a_prefix(a, b, count - 1);
        let at = (a.eligible_among(count - 1)->0).1;
        let account = a.members@[count - 1];
        assert(a.healthy_at(at, account) is Some);
        assert(a.reads@[at] == b.reads@[at]);
        if a.healthy_at(at, account) == Some(true) {
            lemma_exclusion_reads_a_prefix(a, b, account, at + 1, 0);
        }
    }
}

/// The reads of a route are exactly those that finding its eligible accounts
/// takes: of two captures that differ only in that one made further reads after
/// the other's, at most one is accepted.
pub proof fn law_reads_are_exact(a: Route, b: Route)
    requires
        a.excluded_count == b.excluded_count,
        a.members@ == b.members@,
        a.reads@.is_prefix_of(b.reads@),
        a.reads@.len() < b.reads@.len(),
        a.eligible_accounts() is Some,
    ensures
        b.eligible_accounts() is None,
{
    lemma_eligible_reads_a_prefix(a, b, a.members@.len() as int);
}

/// An accepted route was made over the group's whole inventory. Without members
/// it has one child, the rejection; with members a first child evaluates the
/// eligible accounts in order, and the decision's one returned account is the
/// backend. The last child reserves that backend with the captured operation,
/// opening the session at most, or rejects the route where there is none; and
/// the route returned after all children.
#[verifier::rlimit(40)]
pub proof fn law_routes_return_their_selection(stage: StageModel, e: Envelope, c: Computation)
    requires
        stage.compare_route(e, c).1 is Ok,
    ensures
        ({
            let derived = stage.compare_route(e, c).1->Ok_0;
            let children = e.children@;
            let r = e.route;
            let eligible = r.eligible_accounts()->0;
            let events = children.last()->Batch_0.events@;
            &&& forall|id: u64|
                #[trigger] r.members@.contains(id) <==> stage.part().in_group(r.group, id)
            &&& r.eligible_accounts() is Some
            &&& r.result.completed == children.len()
            &&& derived.backend == r.result.account
            &&& children.last() is Batch
            &&& r.members@.len() == 0 ==> children.len() == 1 && derived.backend == 0
            &&& r.members@.len() != 0 ==> children.len() == 2 && (children[0] matches Child::Evaluation(
                native,
            ) && {
                let decision = stage.evaluation(*native, c).1->Ok_0;
                &&& native.entry is Route
                &&& native.accounts@.len() == eligible.len()
                &&& forall|i: int|
                    0 <= i < eligible.len() ==> (#[trigger] native.accounts@[i]).account
                        == eligible[i]
                &&& stage.evaluation(*native, c).1 is Ok
                &&& decision.returned.len() <= 1
                &&& decision.returned.len() == 0 ==> derived.backend == 0
                &&& decision.returned.len() == 1 ==> decision.returned[0] < eligible.len()
                    && derived.backend == eligible[decision.returned[0] as int]
            })
            &&& derived.backend == 0 ==> {
                &&& events.len() == 1
                &&& events[0] == (LiveEvent::RouteRejected { session: r.session, group: r.group })
                &&& derived.error is NoBackend
                &&& derived.binding is None
            }
            &&& derived.backend != 0 ==> {
                &&& events.len() == 1 || (events.len() == 2 && events[0] == (LiveEvent::Lifecycle {
                    event: Event::Open(r.session),
                    source: 0,
                    target: 0,
                }))
                &&& events.last() == (LiveEvent::Lifecycle {
                    event: Event::Reserve {
                        session: r.session,
                        operation: r.result.operation,
                        account: derived.backend,
                    },
                    source: 0,
                    target: 0,
                })
                &&& derived.error is Success
                &&& derived.binding == Some(
                    Binding {
                        account: derived.backend,
                        group: r.group,
                        operation: r.result.operation,
                    },
                )
            }
        }),
{
    let children = e.children@;
    let r = e.route;
    let selected = stage.route_selection(e, c).1->Ok_0;
    let first = if r.members@.len() == 0 {
        0int
    } else {
        1int
    };
    assert(children[first] == children.last());
    let batch = children[first]->Batch_0;
    assert(pairs(batch, r.session, r.group, selected));
    if selected != 0 {
        let reserve = plain(
            Event::Reserve {
                session: r.session,
                operation: reserved_operation(batch),
                account: selected,
            },
        );
        if batch.events@ == seq![reserve] {
            assert(batch.events@.last() == reserve);
        } else {
            assert(batch.events@.last() == reserve);
        }
    }
}

/// A route of a group with no members is accepted exactly where it saw none,
/// rejected the route, and its rejection is compared.
#[verifier::rlimit(40)]
pub proof fn law_empty_groups_reject_their_routes(stage: StageModel, e: Envelope, c: Computation)
    requires
        e.route.members@.len() == 0,
        e.route.reads@.len() == 0,
        forall|id: u64| !#[trigger] stage.part().in_group(e.route.group, id),
        e.children@.len() == 1,
        e.children@[0] is Batch,
        e.children@[0]->Batch_0.events@ == seq![
            LiveEvent::RouteRejected { session: e.route.session, group: e.route.group },
        ],
        e.route.result == (ResultValue { account: 0, operation: 0, completed: 1 }),
    ensures
        stage.compare_route(e, c).1 is Ok <==> stage.batch(e.children@[0]->Batch_0).1 is Ok,
{
    assert(e.route.eligible_among(0) == Some((Seq::<u64>::empty(), 0int)));
    assert(e.route.eligible_accounts() is Some);
    assert forall|id: u64| #[trigger] e.route.members@.contains(id) <==> stage.part().in_group(
        e.route.group,
        id,
    ) by {}
}

/// A route whose evaluation returned an eligible account is accepted wherever
/// its second child reserves that account, whether or not it opens the session
/// first, is compared, and the route returns what was reserved.
#[verifier::rlimit(40)]
pub proof fn law_reserved_selections_are_accepted(stage: StageModel, e: Envelope, c: Computation)
    requires
        forall|id: u64|
            #[trigger] e.route.members@.contains(id) <==> stage.part().in_group(
                e.route.group,
                id,
            ),
        e.route.members@.len() != 0,
        e.route.eligible_accounts() is Some,
        e.children@.len() == 2,
        e.children@[0] is Evaluation,
        e.children@[1] is Batch,
        e.route.result.completed == 2,
        e.route.result.account != 0,
        ({
            let native = e.children@[0]->Evaluation_0;
            let eligible = e.route.eligible_accounts()->0;
            let (next, result) = stage.evaluation(*native, c);
            let open = LiveEvent::Lifecycle {
                event: Event::Open(e.route.session),
                source: 0,
                target: 0,
            };
            let reserve = LiveEvent::Lifecycle {
                event: Event::Reserve {
                    session: e.route.session,
                    operation: e.route.result.operation,
                    account: e.route.result.account,
                },
                source: 0,
                target: 0,
            };
            let events = e.children@[1]->Batch_0.events@;
            &&& native.entry is Route
            &&& native.accounts@.len() == eligible.len()
            &&& forall|i: int|
                0 <= i < eligible.len() ==> (#[trigger] native.accounts@[i]).account == eligible[i]
            &&& result is Ok
            &&& result->Ok_0.returned.len() == 1
            &&& result->Ok_0.returned[0] < eligible.len()
            &&& e.route.result.account == eligible[result->Ok_0.returned[0] as int]
            &&& events == seq![reserve] || events == seq![open, reserve]
            &&& next.batch(e.children@[1]->Batch_0).1 is Ok
        }),
    ensures
        stage.compare_route(e, c).1 is Ok,
{
    let batch = e.children@[1]->Batch_0;
    let reserve = plain(
        Event::Reserve {
            session: e.route.session,
            operation: e.route.result.operation,
            account: e.route.result.account,
        },
    );
    assert(batch.events@.last() == reserve);
    assert(reserved_operation(batch) == e.route.result.operation);
    assert(inventory(stage.part(), e.route.group, e.route.members@));
    let native = e.children@[0]->Evaluation_0;
    assert(native.accounts@[stage.evaluation(*native, c).1->Ok_0.returned[0] as int].account
        == e.route.result.account);
}

proof fn lemma_reads_accepted(reads: Seq<Read>, excluded: u16, children: nat, count: int)
    requires
        0 <= count <= reads.len(),
    ensures
        reads_refusal(reads, excluded, children, count) is None <==> {
            &&& forall|i: int|
                0 <= i < count ==> {
                    &&& (#[trigger] reads[i]).names_subject(excluded)
                    &&& reads[i].position() <= children
                    &&& reads[i].text_bytes() <= 512
                }
            &&& read_bytes(reads, count) <= 65_536
        },
    decreases count,
{
    if count > 0 {
        lemma_reads_accepted(reads, excluded, children, count - 1);
        lemma_read_bytes(reads, count - 1, count);
        let read = reads[count - 1];
    }
}

/// Reads are well formed exactly where each names an account or an excluded
/// index that is there and was made at a completed position, no text exceeds
/// its limit, and all texts together keep theirs.
pub proof fn law_reads_are_well_formed(reads: Seq<Read>, excluded: u16, children: nat)
    ensures
        reads_refusal(reads, excluded, children, reads.len() as int) is None <==> {
            &&& forall|i: int|
                0 <= i < reads.len() ==> match #[trigger] reads[i] {
                    Read::Healthy { completed, account, .. } => account != 0 && completed
                        <= children,
                    Read::BackendId { completed, account, value } => account != 0 && completed
                        <= children && texts::bytes(value@).len() <= 512,
                    Read::ExcludedId { completed, index, value } => index < excluded && completed
                        <= children && texts::bytes(value@).len() <= 512,
                }
            &&& reads.map_values(|read: Read| read.text_bytes() as int).fold_left(
                0int,
                |sum: int, bytes: int| sum + bytes,
            ) <= 65_536
        },
{
    lemma_reads_accepted(reads, excluded, children, reads.len() as int);
    lemma_bytes_are_summed(reads);
}

proof fn lemma_bytes_are_summed(reads: Seq<Read>)
    ensures
        reads.map_values(|read: Read| read.text_bytes() as int).fold_left(
            0int,
            |sum: int, bytes: int| sum + bytes,
        ) == read_bytes(reads, reads.len() as int),
    decreases reads.len(),
{
    let texts = reads.map_values(|read: Read| read.text_bytes() as int);
    let plus = |sum: int, bytes: int| sum + bytes;
    if reads.len() != 0 {
        let before = reads.drop_last();
        lemma_bytes_are_summed(before);
        assert(texts.drop_last() =~= before.map_values(|read: Read| read.text_bytes() as int));
        lemma_bytes_of_prefix(before, reads, before.len() as int);
        assert(texts.last() == reads.last().text_bytes());
    }
}

proof fn lemma_bytes_of_prefix(before: Seq<Read>, reads: Seq<Read>, count: int)
    requires
        before.is_prefix_of(reads),
        count <= before.len(),
    ensures
        read_bytes(before, count) == read_bytes(reads, count),
    decreases count,
{
    if count > 0 {
        lemma_bytes_of_prefix(before, reads, count - 1);
        assert(before[count - 1] == reads[count - 1]);
    }
}

proof fn lemma_children_accepted(
    children: Seq<Child>,
    epoch: Epoch,
    group: u64,
    sequence: u64,
    count: int,
    at: int,
)
    requires
        0 <= at < count <= children.len(),
        children_refusal(children, epoch, group, sequence, count) is None,
    ensures
        children_refusal(children, epoch, group, sequence, at + 1) is None,
    decreases count - at,
{
    if at + 1 < count {
        lemma_children_accepted(children, epoch, group, sequence, count - 1, at);
    }
}

/// Accepted children all belong to the owner; evaluations are of the group and
/// batches hold one to four events. The first takes the envelope's first
/// sequence, and each other one the sequence after its predecessor's last: one
/// further on after an evaluation, and after a batch as many as it has events.
pub proof fn law_children_are_contiguous(
    children: Seq<Child>,
    epoch: Epoch,
    group: u64,
    sequence: u64,
    at: int,
)
    requires
        0 <= at < children.len(),
        children_refusal(children, epoch, group, sequence, children.len() as int) is None,
    ensures
        children[at].epoch() == epoch,
        children[at] matches Child::Evaluation(native) ==> native.epoch == epoch && native.group
            == group,
        children[at] matches Child::Batch(batch) ==> batch.epoch == epoch && 1
            <= batch.events@.len() <= 4 && batch.witness.accounts@.len() <= 2,
        at == 0 ==> children[at].sequence() == sequence,
        at > 0 ==> match children[at - 1] {
            Child::Evaluation(native) => children[at].sequence() == native.sequence + 1,
            Child::Batch(batch) => children[at].sequence() == batch.sequence + batch.events@.len(),
        },
{
    lemma_children_accepted(children, epoch, group, sequence, children.len() as int, at);
    assert(children_span(children, 0) == 0);
    if at > 0 {
        lemma_children_accepted(children, epoch, group, sequence, children.len() as int, at - 1);
        assert(children_span(children, at) == children_span(children, at - 1) + children[at
            - 1].span());
    }
}

/// An accepted envelope spans one sequence for each evaluation, one for each
/// event of each batch and one for the route itself: the route takes the
/// sequence after its last child's.
pub proof fn law_routes_span_their_children(e: Envelope)
    requires
        e.shape_refusal() is None,
    ensures
        e.children@.len() == 0 ==> e.span == 1,
        e.children@.len() != 0 ==> match e.children@.last() {
            Child::Evaluation(native) => e.sequence + e.span == native.sequence + 2,
            Child::Batch(batch) => e.sequence + e.span == batch.sequence + batch.events@.len() + 1,
        },
        e.sequence != 0,
        e.route.caller != 0,
        e.route.group != 0,
        e.route.session != 0,
        e.route.result.account == 0 <==> e.route.result.operation == 0,
        e.route.members@.no_duplicates(),
        !e.route.members@.contains(0),
        e.route.members@.len() <= 64,
        e.route.excluded_count <= 64,
        e.route.reads@.len() <= 128,
        e.epoch.process != 0 && e.epoch.owner != 0 && e.epoch.nonce != 0,
{
    let children = e.children@;
    let total = children.len() as int;
    assert(children_span(children, 0) == 0);
    if total > 0 {
        assert(children_span(children, total) == children_span(children, total - 1)
            + children.last().span());
    }
}

} // verus!
