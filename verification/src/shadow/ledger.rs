//! The value ledger of one owner: retained accounts, retained sessions, and the
//! accounting that accepted observations imply.
use vstd::prelude::*;

use crate::ordered;
use crate::ordered::{Key, OrderedMap};
use super::accounting;
use super::accounting::Role;
use super::live::{AccountWitness, ConnectionState};
use super::{InvalidReason, Limits, Status};

verus! {

/// Observed balance policy; factor lifetime is independent of owner lifetime.
#[derive(Clone, Copy, Debug, PartialEq, Eq, Structural)]
pub enum Policy {
    /// Resource factors and queries are disabled.
    Connection,
    /// Resource factors precede locality.
    Resource,
    /// Locality precedes resource factors; the resource lifetime is retained.
    Location,
}

/// Authoritative observed lifecycle input. These values cannot issue an operation.
#[derive(Clone, Copy, Debug, PartialEq, Eq, Structural)]
pub enum Event {
    /// Empty owner before its first configuration or factor evaluation.
    Begin,
    /// An actual policy application, including intermediate Connection transitions.
    Policy(Policy),
    /// A retained account was created, with a fresh identity and group identity.
    Account {
        /// Fresh diagnostic account identity.
        id: u64,
        /// Group inside this owner.
        group: u64,
    },
    /// A drained account was removed; its identity remains tombstoned.
    RemoveAccount(u64),
    /// A fresh connection incarnation was observed.
    Open(u64),
    /// A route reservation was accepted by Go.
    Reserve {
        /// Session incarnation.
        session: u64,
        /// Per-session route operation sequence.
        operation: u64,
        /// Captured retained account.
        account: u64,
    },
    /// Go observed an initial connection result; duplicates are legitimate no-ops.
    Created {
        /// Session incarnation.
        session: u64,
        /// Original route operation sequence.
        operation: u64,
        /// Whether the connection succeeded.
        success: bool,
    },
    /// Go accepted a redirect; score moves before physical ownership.
    Redirect {
        /// Session incarnation.
        session: u64,
        /// Monotonically increasing redirect sequence for this session.
        operation: u64,
        /// Captured retained target.
        target: u64,
    },
    /// Go observed a redirect terminal for the original operation.
    Redirected {
        /// Session incarnation.
        session: u64,
        /// Original redirect sequence.
        operation: u64,
        /// Whether physical migration succeeded.
        success: bool,
    },
    /// Go accepted a force-close, without settling accounting yet.
    Closing {
        /// Session incarnation.
        session: u64,
        /// Monotonically increasing close sequence for this session.
        operation: u64,
    },
    /// An actual observed close; duplicate closes do not settle twice.
    Closed(u64),
    /// A live data-plane session was rehydrated into this new empty Go owner.
    Rehydrate {
        /// Fresh session incarnation in this owner.
        session: u64,
        /// Captured retained account.
        account: u64,
    },
    /// Go refused an operation; accepted accounting is unchanged.
    Rejected {
        /// Session incarnation.
        session: u64,
    },
    /// The owner stopped accepting new operations; retained tails still settle.
    Retire,
    /// Explicit complete end after all session tails have closed.
    End,
    /// Contiguous liveness/coverage watermark without a ledger change.
    Watermark,
}

/// Accounting derived from accepted observations, never copied from a Go counter.
#[derive(Clone, Copy, Debug, PartialEq, Eq, Structural)]
pub struct Counts {
    active: u64,
    reserved: u64,
    incoming: u64,
    outgoing: u64,
}

/// What [`Counts`] says, as integers.
pub struct CountsModel {
    /// Established physical connections.
    pub active: int,
    /// Accepted initial routes awaiting their create result.
    pub reserved: int,
    /// Accepted redirects whose target is this account.
    pub incoming: int,
    /// Accepted redirects physically still on this account.
    pub outgoing: int,
}

impl CountsModel {
    /// No connection, reservation or redirect.
    pub open spec fn zero() -> CountsModel {
        CountsModel { active: 0, reserved: 0, incoming: 0, outgoing: 0 }
    }

    /// A redirect leaves an established connection, and no sum overflows.
    pub open spec fn fits(self) -> bool {
        &&& 0 <= self.outgoing <= self.active
        &&& 0 <= self.reserved
        &&& 0 <= self.incoming
        &&& self.active + self.reserved + self.incoming <= u64::MAX
    }

    /// Connections whose score this account owns.
    pub open spec fn score(self) -> int {
        self.active - self.outgoing + self.reserved + self.incoming
    }

    /// The counters after a shift, or why the shift is refused.
    pub open spec fn shifted(self, shift: Shift) -> Result<CountsModel, InvalidReason> {
        let next = CountsModel {
            active: self.active + shift.active.amount(),
            reserved: self.reserved + shift.reserved.amount(),
            incoming: self.incoming + shift.incoming.amount(),
            outgoing: self.outgoing + shift.outgoing.amount(),
        };
        if !(0 <= next.active <= u64::MAX && 0 <= next.reserved <= u64::MAX && 0 <= next.incoming
            <= u64::MAX && 0 <= next.outgoing <= u64::MAX) {
            Err(InvalidReason::Lifecycle)
        } else if next.outgoing > next.active {
            Err(InvalidReason::Lifecycle)
        } else if next.active + next.reserved + next.incoming > u64::MAX {
            Err(InvalidReason::Capacity)
        } else {
            Ok(next)
        }
    }
}

impl View for Counts {
    type V = CountsModel;

    closed spec fn view(&self) -> CountsModel {
        CountsModel {
            active: self.active as int,
            reserved: self.reserved as int,
            incoming: self.incoming as int,
            outgoing: self.outgoing as int,
        }
    }
}

impl Default for Counts {
    fn default() -> (r: Self)
        ensures
            r@ == CountsModel::zero(),
    {
        Counts { active: 0, reserved: 0, incoming: 0, outgoing: 0 }
    }
}

/// How one counter moves.
#[derive(Clone, Copy, PartialEq, Eq, Structural)]
pub enum Tick {
    /// One less.
    Down,
    /// Unchanged.
    Same,
    /// One more.
    Up,
}

impl Tick {
    /// The signed step.
    pub open spec fn amount(self) -> int {
        match self {
            Tick::Down => -1,
            Tick::Same => 0,
            Tick::Up => 1,
        }
    }

    /// A counter after this step, if it stays a counter.
    fn step(self, value: u64) -> (r: Option<u64>)
        ensures
            r matches Some(n) ==> n == value + self.amount(),
            r is Some <==> 0 <= value + self.amount() <= u64::MAX,
    {
        match self {
            Tick::Down => value.checked_sub(1),
            Tick::Same => Some(value),
            Tick::Up => value.checked_add(1),
        }
    }
}

impl Counts {
    /// Established physical connections.
    pub fn active(self) -> (r: u64)
        ensures
            r == self@.active,
    {
        self.active
    }

    /// Accepted initial routes awaiting their create result.
    pub fn reserved(self) -> (r: u64)
        ensures
            r == self@.reserved,
    {
        self.reserved
    }

    /// Accepted redirects targeting this account.
    pub fn incoming(self) -> (r: u64)
        ensures
            r == self@.incoming,
    {
        self.incoming
    }

    /// Accepted redirects physically retained on this account.
    pub fn outgoing(self) -> (r: u64)
        ensures
            r == self@.outgoing,
    {
        self.outgoing
    }

    /// Score owner count, preserving pending redirect accounting.
    pub fn score(self) -> (r: u64)
        requires
            self@.fits(),
        ensures
            r == self@.score(),
    {
        self.active - self.outgoing + self.reserved + self.incoming
    }

    /// Whether every counter is zero.
    fn is_zero(&self) -> (r: bool)
        ensures
            r == (self@ == CountsModel::zero()),
    {
        self.active == 0 && self.reserved == 0 && self.incoming == 0 && self.outgoing == 0
    }

    fn shifted(&self, shift: Shift) -> (r: Result<Counts, InvalidReason>)
        ensures
            self@.shifted(shift) matches Ok(next) ==> r matches Ok(n) && n@ == next,
            self@.shifted(shift) matches Err(reason) ==> r == Err::<Counts, InvalidReason>(reason),
    {
        let (Some(active), Some(reserved), Some(incoming), Some(outgoing)) = (
            shift.active.step(self.active),
            shift.reserved.step(self.reserved),
            shift.incoming.step(self.incoming),
            shift.outgoing.step(self.outgoing),
        ) else {
            return Err(InvalidReason::Lifecycle);
        };
        if outgoing > active {
            return Err(InvalidReason::Lifecycle);
        }
        let Some(partial) = active.checked_add(reserved) else {
            return Err(InvalidReason::Capacity);
        };
        if partial.checked_add(incoming).is_none() {
            return Err(InvalidReason::Capacity);
        }
        Ok(Counts { active, reserved, incoming, outgoing })
    }
}

/// A step of each counter of one account.
#[derive(Clone, Copy)]
pub struct Shift {
    /// The account whose counters move.
    pub account: u64,
    /// Step of the established connections.
    pub active: Tick,
    /// Step of the reservations.
    pub reserved: Tick,
    /// Step of the redirects towards the account.
    pub incoming: Tick,
    /// Step of the redirects away from the account.
    pub outgoing: Tick,
}

/// A session's place in the physical order of one account.
#[derive(Clone, Copy, PartialEq, Eq, Structural)]
pub struct Seat {
    /// The account whose order holds the session.
    pub account: u64,
    /// The session.
    pub session: u64,
}

/// Whether a valid observed event changed lifecycle state.
#[derive(Clone, Copy, Debug, PartialEq, Eq, Structural)]
pub enum Transition {
    /// An authoritative state transition was mirrored.
    Applied,
    /// An authoritative duplicate, rejection or watermark changed no accounting.
    Ignored,
}

/// Diagnostic account projection in stable identity order.
#[derive(Clone, Debug, PartialEq, Eq)]
pub struct AccountView {
    /// Retained diagnostic identity.
    pub id: u64,
    /// Group in the same owner.
    pub group: u64,
    /// Derived physical and score counters.
    pub counts: Counts,
    /// Actual observed physical arrival order.
    pub physical_order: Vec<u64>,
    /// Account removal was observed; the tombstone remains retained.
    pub removed: bool,
}

/// What [`AccountView`] says.
#[verifier::ext_equal]
pub struct AccountModel {
    /// Retained diagnostic identity.
    pub id: u64,
    /// Group in the same owner.
    pub group: u64,
    /// Derived physical and score counters.
    pub counts: CountsModel,
    /// Observed physical arrival order.
    pub order: Seq<u64>,
    /// Account removal was observed.
    pub removed: bool,
}

impl View for AccountView {
    type V = AccountModel;

    open spec fn view(&self) -> AccountModel {
        AccountModel {
            id: self.id,
            group: self.group,
            counts: self.counts@,
            order: self.physical_order@,
            removed: self.removed,
        }
    }
}

impl AccountView {
    /// An equal account.
    pub fn duplicate(&self) -> (r: Self)
        ensures
            r@ == self@,
    {
        let mut physical_order: Vec<u64> = Vec::new();
        physical_order.extend_from_slice(self.physical_order.as_slice());
        assert(physical_order@ =~= self.physical_order@);
        AccountView {
            id: self.id,
            group: self.group,
            counts: self.counts,
            physical_order,
            removed: self.removed,
        }
    }
}

/// Value-only snapshot for reporting and cross-language comparison.
#[derive(Clone, Debug, PartialEq, Eq)]
pub struct LedgerView {
    /// This slice compares lifecycle only; it cannot qualify complete routing shadow.
    pub lifecycle_only: bool,
    /// Fresh local owner identity, unrelated to serialized or production handles.
    pub local_owner: u64,
    /// Current interval qualification.
    pub status: Status,
    /// Last successfully compared record.
    pub compared_sequence: u64,
    /// Current private resource-factor lifetime, absent in Connection policy.
    pub factor_lifetime: Option<u64>,
    /// Derived accounts, including bounded tombstones.
    pub accounts: Vec<AccountView>,
    /// Sessions with accepted redirects awaiting a terminal.
    pub pending_redirects: Vec<u64>,
    /// Sessions marked closing but not physically closed.
    pub closing: Vec<u64>,
}

impl LedgerView {
    /// Whether this lists exactly what a ledger holds, in ascending order of
    /// identity.
    pub open spec fn describes(self, m: MirrorModel) -> bool {
        &&& self.factor_lifetime == m.factor_lifetime
        &&& self.accounts@.len() == m.accounts.len()
        &&& forall|i: int|
            0 <= i < self.accounts@.len() ==> m.accounts.contains_key(
                (#[trigger] self.accounts@[i]).id,
            ) && self.accounts@[i]@ == m.accounts[self.accounts@[i].id]
        &&& forall|i: int, j: int|
            0 <= i < j < self.accounts@.len() ==> (#[trigger] self.accounts@[i]).id < (
            #[trigger] self.accounts@[j]).id
        &&& ordered::ascending(self.pending_redirects@)
        &&& forall|id: u64| #[trigger]
            self.pending_redirects@.contains(id) <==> m.redirecting(id)
        &&& ordered::ascending(self.closing@)
        &&& forall|id: u64| #[trigger] self.closing@.contains(id) <==> m.is_closing(id)
    }
}

/// An accepted route that awaits its create result.
#[derive(Clone, Copy, Debug, PartialEq, Eq, Structural)]
pub struct Reservation {
    /// The route operation.
    pub operation: u64,
    /// The account that holds the reservation.
    pub account: u64,
}

/// An accepted redirect that awaits its terminal.
#[derive(Clone, Copy, Debug, PartialEq, Eq, Structural)]
pub struct Move {
    /// The redirect operation.
    pub operation: u64,
    /// The account that still holds the connection.
    pub source: u64,
    /// The account that already owns the score.
    pub target: u64,
}

/// One session incarnation.
#[derive(Clone, Copy, Debug, PartialEq, Eq, Structural)]
pub struct Session {
    /// A physical connection has existed.
    pub bound: bool,
    /// A pending administrative reconnect.
    pub reconnect: Option<u64>,
    /// The session has closed.
    pub closed: bool,
    /// The account that physically holds the session.
    pub active: Option<u64>,
    /// A pending initial route.
    pub reservation: Option<Reservation>,
    /// A pending redirect.
    pub redirect: Option<Move>,
    /// A pending force-close.
    pub closing: Option<u64>,
    /// The last route operation.
    pub route_watermark: u64,
    /// The last redirect or reconnect operation.
    pub redirect_watermark: u64,
    /// The last close operation.
    pub close_watermark: u64,
}

impl Session {
    /// A session about which only its identity is known.
    pub open spec fn fresh() -> Session {
        Session {
            bound: false,
            reconnect: None,
            closed: false,
            active: None,
            reservation: None,
            redirect: None,
            closing: None,
            route_watermark: 0,
            redirect_watermark: 0,
            close_watermark: 0,
        }
    }

    /// The account that owns the session's score, if one does.
    pub open spec fn score_owner(self) -> Option<u64> {
        match self.redirect {
            Some(moving) => Some(moving.target),
            None => match self.reservation {
                Some(reservation) => Some(reservation.account),
                None => self.active,
            },
        }
    }

    /// The state after an actual close.
    pub open spec fn after_close(self) -> Session {
        Session {
            reconnect: None,
            closed: true,
            active: None,
            reservation: None,
            redirect: None,
            closing: None,
            ..self
        }
    }
}

impl View for Session {
    type V = Session;

    open spec fn view(&self) -> Session {
        *self
    }
}

impl Default for Session {
    fn default() -> (r: Self)
        ensures
            r == Session::fresh(),
    {
        Session {
            bound: false,
            reconnect: None,
            closed: false,
            active: None,
            reservation: None,
            redirect: None,
            closing: None,
            route_watermark: 0,
            redirect_watermark: 0,
            close_watermark: 0,
        }
    }
}

/// What a ledger holds.
#[verifier::ext_equal]
pub struct MirrorModel {
    /// Population limits.
    pub limits: Limits,
    /// New operations are refused.
    pub retired: bool,
    /// The current resource-factor lifetime.
    pub factor_lifetime: Option<u64>,
    /// The next resource-factor lifetime.
    pub next_factor: u64,
    /// Retained accounts, tombstones among them.
    pub accounts: Map<u64, AccountModel>,
    /// Retained sessions, closed ones among them.
    pub sessions: Map<u64, Session>,
    /// Retained accounts that this ledger was not given.
    pub hidden_accounts: nat,
    /// Retained sessions that this ledger was not given.
    pub hidden_sessions: nat,
}

/// A ledger and what an event did to it, or why the event was refused.
pub type Step = Result<(MirrorModel, Transition), InvalidReason>;

/// Whether a result and the ledger after it are those of a step.
pub open spec fn follows(
    before: MirrorModel,
    after: MirrorModel,
    result: Result<Transition, InvalidReason>,
    step: Step,
) -> bool {
    match step {
        Ok((next, transition)) => after == next && result == Ok::<Transition, InvalidReason>(
            transition,
        ),
        Err(reason) => after == before && result == Err::<Transition, InvalidReason>(reason),
    }
}

/// Whether an account is retained and not removed.
pub open spec fn live(accounts: Map<u64, AccountModel>, id: u64) -> bool {
    accounts.contains_key(id) && !accounts[id].removed
}

/// The accounts after one account's counters moved.
pub open spec fn counted(
    accounts: Map<u64, AccountModel>,
    shift: Option<Shift>,
) -> Result<Map<u64, AccountModel>, InvalidReason> {
    match shift {
        None => Ok(accounts),
        Some(shift) => if !live(accounts, shift.account) {
            Err(InvalidReason::Identity)
        } else {
            let account = accounts[shift.account];
            match account.counts.shifted(shift) {
                Err(reason) => Err(reason),
                Ok(counts) => Ok(
                    accounts.insert(shift.account, AccountModel { counts, ..account }),
                ),
            }
        },
    }
}

/// The accounts after the counters of one account were replaced.
pub open spec fn override_counts(
    accounts: Map<u64, AccountModel>,
    moved: Option<(u64, Counts)>,
) -> Map<u64, AccountModel> {
    match moved {
        None => accounts,
        Some((id, counts)) => accounts.insert(
            id,
            AccountModel { counts: counts@, ..accounts[id] },
        ),
    }
}

/// The accounts after a session left a physical order.
pub open spec fn unseated(
    accounts: Map<u64, AccountModel>,
    seat: Option<Seat>,
) -> Map<u64, AccountModel> {
    match seat {
        None => accounts,
        Some(seat) => {
            let account = accounts[seat.account];
            let order = account.order.remove(account.order.index_of(seat.session));
            accounts.insert(seat.account, AccountModel { order, ..account })
        },
    }
}

/// The accounts after a session arrived at the end of a physical order.
pub open spec fn seated(
    accounts: Map<u64, AccountModel>,
    seat: Option<Seat>,
) -> Map<u64, AccountModel> {
    match seat {
        None => accounts,
        Some(seat) => {
            let account = accounts[seat.account];
            let order = account.order.push(seat.session);
            accounts.insert(seat.account, AccountModel { order, ..account })
        },
    }
}

impl MirrorModel {
    /// An empty ledger.
    pub open spec fn empty(limits: Limits) -> MirrorModel {
        MirrorModel {
            limits,
            retired: false,
            factor_lifetime: None,
            next_factor: 1,
            accounts: Map::empty(),
            sessions: Map::empty(),
            hidden_accounts: 0,
            hidden_sessions: 0,
        }
    }

    /// The same ledger with other accounts.
    pub open spec fn with_accounts(self, accounts: Map<u64, AccountModel>) -> MirrorModel {
        MirrorModel { accounts, ..self }
    }

    /// What every account keeps.
    pub open spec fn account_wf(self, id: u64) -> bool {
        let account = self.accounts[id];
        &&& account.id == id
        &&& account.counts.fits()
        &&& account.order.no_duplicates()
        &&& account.order.len() <= self.limits.sessions
    }

    /// What every ledger keeps, whether it holds all of its owner or a part.
    pub open spec fn wf(self) -> bool {
        &&& self.accounts.dom().finite()
        &&& self.sessions.dom().finite()
        &&& self.hidden_accounts + self.accounts.len() <= self.limits.accounts
        &&& self.hidden_sessions + self.sessions.len() <= self.limits.sessions
        &&& forall|id: u64| #[trigger] self.accounts.contains_key(id) ==> self.account_wf(id)
    }

    /// The accounts after counters moved and a session left or joined a
    /// physical order, or why one of these is refused.
    #[verifier::opaque]
    pub open spec fn change(
        self,
        first: Option<Shift>,
        second: Option<Shift>,
        remove: Option<Seat>,
        append: Option<Seat>,
    ) -> Result<Map<u64, AccountModel>, InvalidReason> {
        match counted(self.accounts, first) {
            Err(reason) => Err(reason),
            Ok(once) => match counted(once, second) {
                Err(reason) => Err(reason),
                Ok(twice) => match self.misplaced(remove, append) {
                    Some(reason) => Err(reason),
                    None => Ok(seated(unseated(twice, remove), append)),
                },
            },
        }
    }

    /// Why a session cannot leave or join a physical order, if it cannot.
    pub open spec fn misplaced(self, remove: Option<Seat>, append: Option<Seat>) -> Option<
        InvalidReason,
    > {
        if remove matches Some(seat) && !live(self.accounts, seat.account) {
            Some(InvalidReason::Identity)
        } else if remove matches Some(seat) && !self.accounts[seat.account].order.contains(
            seat.session,
        ) {
            Some(InvalidReason::Lifecycle)
        } else if append matches Some(seat) && !live(self.accounts, seat.account) {
            Some(InvalidReason::Identity)
        } else if append matches Some(seat) && self.accounts[seat.account].order.contains(
            seat.session,
        ) && remove != append {
            Some(InvalidReason::Lifecycle)
        } else if append matches Some(seat) && self.accounts[seat.account].order.len()
            >= self.limits.sessions {
            Some(InvalidReason::Capacity)
        } else {
            None
        }
    }

    /// A session's next state together with the accounting that it implies.
    pub open spec fn settle(
        self,
        session: u64,
        state: Session,
        first: Option<Shift>,
        second: Option<Shift>,
        remove: Option<Seat>,
        append: Option<Seat>,
    ) -> Step {
        match self.change(first, second, remove, append) {
            Err(reason) => Err(reason),
            Ok(accounts) => Ok(
                (
                    MirrorModel { accounts, sessions: self.sessions.insert(session, state), ..self },
                    Transition::Applied,
                ),
            ),
        }
    }

    /// A fresh incarnation.
    pub open spec fn open_session(self, id: u64) -> Step {
        if self.retired {
            Err(InvalidReason::Lifecycle)
        } else if id == 0 || self.sessions.contains_key(id) {
            Err(InvalidReason::Identity)
        } else if self.hidden_sessions + self.sessions.len() >= self.limits.sessions {
            Err(InvalidReason::Capacity)
        } else {
            self.settle(id, Session::fresh(), None, None, None, None)
        }
    }

    /// An accepted route reservation.
    pub open spec fn reserve(self, session: u64, operation: u64, account: u64) -> Step {
        if self.retired {
            Err(InvalidReason::Lifecycle)
        } else if !self.sessions.contains_key(session) {
            Err(InvalidReason::Identity)
        } else {
            let state = self.sessions[session];
            if state.closed || state.active is Some || state.reservation is Some || operation == 0
                || operation <= state.route_watermark {
                Err(InvalidReason::Lifecycle)
            } else {
                self.settle(
                    session,
                    Session {
                        reservation: Some(Reservation { operation, account }),
                        route_watermark: operation,
                        ..state
                    },
                    Some(Shift { account, active: Tick::Same, reserved: Tick::Up, incoming: Tick::Same, outgoing: Tick::Same }),
                    None,
                    None,
                    None,
                )
            }
        }
    }

    /// An initial connection result. One that no pending reservation matches
    /// changes nothing.
    pub open spec fn created(self, session: u64, operation: u64, success: bool) -> Step {
        if !self.sessions.contains_key(session) {
            Err(InvalidReason::Identity)
        } else {
            let state = self.sessions[session];
            match state.reservation {
                Some(pending) => if pending.operation != operation {
                    Ok((self, Transition::Ignored))
                } else {
                    self.settle(
                        session,
                        Session {
                            reservation: None,
                            bound: state.bound || success,
                            active: if success {
                                Some(pending.account)
                            } else {
                                state.active
                            },
                            ..state
                        },
                        Some(
                            Shift {
                                account: pending.account,
                                active: if success {
 Tick::Up
 } else {
 Tick::Same
 },
                                reserved: Tick::Down,
                                incoming: Tick::Same,
                                outgoing: Tick::Same,
                            },
                        ),
                        None,
                        None,
                        if success {
                            Some(Seat { account: pending.account, session })
                        } else {
                            None
                        },
                    )
                },
                None => Ok((self, Transition::Ignored)),
            }
        }
    }

    /// An accepted redirect inside one group.
    pub open spec fn redirect(self, session: u64, operation: u64, target: u64) -> Step {
        if self.retired {
            Err(InvalidReason::Lifecycle)
        } else if !self.sessions.contains_key(session) {
            Err(InvalidReason::Identity)
        } else {
            let state = self.sessions[session];
            match state.active {
                None => Err(InvalidReason::Lifecycle),
                Some(source) => if state.closed || state.redirect is Some || state.reconnect is Some
                    || state.closing is Some || operation == 0 || operation
                    <= state.redirect_watermark || source == target {
                    Err(InvalidReason::Lifecycle)
                } else if !live(self.accounts, source) || !live(self.accounts, target) {
                    Err(InvalidReason::Identity)
                } else if self.accounts[source].group != self.accounts[target].group {
                    Err(InvalidReason::Lifecycle)
                } else {
                    self.settle(
                        session,
                        Session {
                            redirect: Some(Move { operation, source, target }),
                            redirect_watermark: operation,
                            ..state
                        },
                        Some(
                            Shift {
                                account: source,
                                active: Tick::Same,
                                reserved: Tick::Same,
                                incoming: Tick::Same,
                                outgoing: Tick::Up,
                            },
                        ),
                        Some(
                            Shift {
                                account: target,
                                active: Tick::Same,
                                reserved: Tick::Same,
                                incoming: Tick::Up,
                                outgoing: Tick::Same,
                            },
                        ),
                        None,
                        None,
                    )
                },
            }
        }
    }

    /// The terminal of an administrative reconnect: success moves the session
    /// to the end of its own account's physical order.
    pub open spec fn reconnected(self, session: u64, operation: u64, success: bool) -> Step {
        if !self.sessions.contains_key(session) {
            Err(InvalidReason::Identity)
        } else {
            let state = self.sessions[session];
            if state.reconnect != Some(operation) {
                Ok((self, Transition::Ignored))
            } else {
                match state.active {
                    None => Err(InvalidReason::Lifecycle),
                    Some(account) => {
                        let seat = if success {
                            Some(Seat { account, session })
                        } else {
                            None
                        };
                        self.settle(
                            session,
                            Session { reconnect: None, ..state },
                            None,
                            None,
                            seat,
                            seat,
                        )
                    },
                }
            }
        }
    }

    /// The terminal of a redirect, or of the reconnect that is pending instead.
    pub open spec fn redirected(self, session: u64, operation: u64, success: bool) -> Step {
        if !self.sessions.contains_key(session) {
            Err(InvalidReason::Identity)
        } else {
            let state = self.sessions[session];
            if state.reconnect is Some {
                self.reconnected(session, operation, success)
            } else {
                match state.redirect {
                    None => Ok((self, Transition::Ignored)),
                    Some(pending) => if pending.operation != operation {
                        Ok((self, Transition::Ignored))
                    } else {
                        self.settle(
                            session,
                            Session {
                                redirect: None,
                                active: if success {
                                    Some(pending.target)
                                } else {
                                    state.active
                                },
                                ..state
                            },
                            Some(
                                Shift {
                                    account: pending.source,
                                    active: if success {
 Tick::Down
 } else {
 Tick::Same
 },
                                    reserved: Tick::Same,
                                    incoming: Tick::Same,
                                    outgoing: Tick::Down,
                                },
                            ),
                            Some(
                                Shift {
                                    account: pending.target,
                                    active: if success {
 Tick::Up
 } else {
 Tick::Same
 },
                                    reserved: Tick::Same,
                                    incoming: Tick::Down,
                                    outgoing: Tick::Same,
                                },
                            ),
                            if success {
                                Some(Seat { account: pending.source, session })
                            } else {
                                None
                            },
                            if success {
                                Some(Seat { account: pending.target, session })
                            } else {
                                None
                            },
                        )
                    },
                }
            }
        }
    }

    /// An accepted force-close.
    pub open spec fn start_closing(self, session: u64, operation: u64) -> Step {
        if self.retired {
            Err(InvalidReason::Lifecycle)
        } else if !self.sessions.contains_key(session) {
            Err(InvalidReason::Identity)
        } else {
            let state = self.sessions[session];
            if state.closed || state.active is None || state.closing is Some || operation == 0
                || operation <= state.close_watermark {
                Err(InvalidReason::Lifecycle)
            } else {
                self.settle(
                    session,
                    Session { closing: Some(operation), close_watermark: operation, ..state },
                    None,
                    None,
                    None,
                    None,
                )
            }
        }
    }

    /// An actual close: whatever the session still accounts for is given back.
    pub open spec fn close(self, session: u64) -> Step {
        if !self.sessions.contains_key(session) {
            Err(InvalidReason::Identity)
        } else {
            let state = self.sessions[session];
            if state.closed {
                Ok((self, Transition::Ignored))
            } else if let Some(pending) = state.reservation {
                self.settle(
                    session,
                    state.after_close(),
                    Some(
                        Shift {
                            account: pending.account,
                            active: Tick::Same,
                            reserved: Tick::Down,
                            incoming: Tick::Same,
                            outgoing: Tick::Same,
                        },
                    ),
                    None,
                    None,
                    None,
                )
            } else if let Some(pending) = state.redirect {
                self.settle(
                    session,
                    state.after_close(),
                    Some(
                        Shift {
                            account: pending.source,
                            active: Tick::Down,
                            reserved: Tick::Same,
                            incoming: Tick::Same,
                            outgoing: Tick::Down,
                        },
                    ),
                    Some(
                        Shift {
                            account: pending.target,
                            active: Tick::Same,
                            reserved: Tick::Same,
                            incoming: Tick::Down,
                            outgoing: Tick::Same,
                        },
                    ),
                    Some(Seat { account: pending.source, session }),
                    None,
                )
            } else if let Some(account) = state.active {
                self.settle(
                    session,
                    state.after_close(),
                    Some(Shift { account, active: Tick::Down, reserved: Tick::Same, incoming: Tick::Same, outgoing: Tick::Same }),
                    None,
                    Some(Seat { account, session }),
                    None,
                )
            } else {
                self.settle(session, state.after_close(), None, None, None, None)
            }
        }
    }

    /// A live session that a new owner adopts.
    pub open spec fn rehydrate(self, session: u64, account: u64) -> Step {
        if self.retired {
            Err(InvalidReason::Lifecycle)
        } else if !live(self.accounts, account) || session == 0 || self.sessions.contains_key(
            session,
        ) {
            Err(InvalidReason::Identity)
        } else if self.hidden_sessions + self.sessions.len() >= self.limits.sessions {
            Err(InvalidReason::Capacity)
        } else {
            self.settle(
                session,
                Session { bound: true, active: Some(account), ..Session::fresh() },
                Some(Shift { account, active: Tick::Up, reserved: Tick::Same, incoming: Tick::Same, outgoing: Tick::Same }),
                None,
                None,
                Some(Seat { account, session }),
            )
        }
    }

    /// A selection that ends without a connection.
    pub open spec fn selection_done(self, id: u64) -> Step {
        if !self.sessions.contains_key(id) {
            Err(InvalidReason::Identity)
        } else {
            let state = self.sessions[id];
            if state.bound || state.closed || state.reservation is Some || state.active is Some {
                Err(InvalidReason::Lifecycle)
            } else {
                self.settle(id, Session { closed: true, ..state }, None, None, None, None)
            }
        }
    }

    /// An administrative reconnect of a session on its own account.
    pub open spec fn reconnect(self, id: u64, operation: u64, account: u64) -> Step {
        if !self.sessions.contains_key(id) {
            Err(InvalidReason::Identity)
        } else {
            let state = self.sessions[id];
            if state.closed || state.active != Some(account) || state.redirect is Some
                || state.reconnect is Some || operation == 0 || operation
                <= state.redirect_watermark {
                Err(InvalidReason::Lifecycle)
            } else {
                self.settle(
                    id,
                    Session {
                        reconnect: Some(operation),
                        redirect_watermark: operation,
                        ..state
                    },
                    None,
                    None,
                    None,
                    None,
                )
            }
        }
    }

    /// A policy application.
    pub open spec fn set_policy(self, policy: Policy) -> Step {
        if self.retired {
            Err(InvalidReason::Lifecycle)
        } else if policy is Connection {
            Ok((MirrorModel { factor_lifetime: None, ..self }, Transition::Applied))
        } else if self.factor_lifetime is Some {
            Ok((self, Transition::Applied))
        } else if self.next_factor == u64::MAX {
            Err(InvalidReason::Capacity)
        } else {
            Ok(
                (
                    MirrorModel {
                        factor_lifetime: Some(self.next_factor),
                        next_factor: (self.next_factor + 1) as u64,
                        ..self
                    },
                    Transition::Applied,
                ),
            )
        }
    }

    /// A fresh account.
    pub open spec fn create_account(self, id: u64, group: u64) -> Step {
        if self.retired {
            Err(InvalidReason::Lifecycle)
        } else if id == 0 || group == 0 || self.accounts.contains_key(id) {
            Err(InvalidReason::Identity)
        } else if self.hidden_accounts + self.accounts.len() >= self.limits.accounts {
            Err(InvalidReason::Capacity)
        } else {
            let account = AccountModel {
                id,
                group,
                counts: CountsModel::zero(),
                order: Seq::empty(),
                removed: false,
            };
            Ok(
                (
                    MirrorModel { accounts: self.accounts.insert(id, account), ..self },
                    Transition::Applied,
                ),
            )
        }
    }

    /// A drained account becomes a tombstone.
    pub open spec fn remove_account(self, id: u64) -> Step {
        if !live(self.accounts, id) {
            Err(InvalidReason::Identity)
        } else {
            let account = self.accounts[id];
            if account.counts != CountsModel::zero() || account.order.len() != 0 {
                Err(InvalidReason::Lifecycle)
            } else {
                let account = AccountModel { removed: true, ..account };
                Ok(
                    (
                        MirrorModel { accounts: self.accounts.insert(id, account), ..self },
                        Transition::Applied,
                    ),
                )
            }
        }
    }

    /// The owner stops accepting new operations.
    pub open spec fn retire(self) -> Step {
        if self.retired {
            Err(InvalidReason::Lifecycle)
        } else {
            Ok((MirrorModel { retired: true, ..self }, Transition::Applied))
        }
    }

    /// Whether every retained tail has settled.
    pub open spec fn drained(self) -> bool {
        &&& self.retired
        &&& forall|id: u64| #[trigger]
            self.sessions.contains_key(id) ==> self.sessions[id].closed
        &&& forall|id: u64| #[trigger]
            self.accounts.contains_key(id) ==> self.accounts[id].counts == CountsModel::zero()
    }

    /// Whether an accepted redirect of a session awaits its terminal.
    pub open spec fn redirecting(self, id: u64) -> bool {
        self.sessions.contains_key(id) && self.sessions[id].redirect is Some
    }

    /// Whether a session was told to close and has not closed.
    pub open spec fn is_closing(self, id: u64) -> bool {
        self.sessions.contains_key(id) && self.sessions[id].closing is Some
    }

    /// Whether a group retains an account.
    pub open spec fn in_group(self, group: u64, id: u64) -> bool {
        live(self.accounts, id) && self.accounts[id].group == group
    }

    /// Whether a group retains no account.
    pub open spec fn group_empty(self, group: u64) -> bool {
        forall|id: u64| !self.in_group(group, id)
    }

    /// The projection of a session that has been a connection.
    pub open spec fn connection(self, id: u64) -> ConnectionState {
        if self.sessions.contains_key(id) && self.sessions[id].bound {
            let state = self.sessions[id];
            let physical = match state.active {
                Some(account) => account,
                None => 0,
            };
            ConnectionState {
                present: true,
                physical,
                score_owner: match state.redirect {
                    Some(pending) => pending.target,
                    None => physical,
                },
                redirect_pending: state.redirect is Some || state.reconnect is Some,
                closing: state.closing is Some,
                closed: state.closed,
            }
        } else {
            ConnectionState::absent()
        }
    }

    /// The projection of an account whose score a witness can carry.
    pub open spec fn compact_account(self, id: u64) -> Option<AccountWitness> {
        if self.accounts.contains_key(id) && self.accounts[id].counts.score() <= i64::MAX {
            let account = self.accounts[id];
            Some(
                AccountWitness {
                    id,
                    score: account.counts.score() as i64,
                    physical: account.counts.active as u64,
                    head: if account.order.len() == 0 {
                        0
                    } else {
                        account.order[0]
                    },
                    tail: if account.order.len() == 0 {
                        0
                    } else {
                        account.order.last()
                    },
                },
            )
        } else {
            None
        }
    }

    /// The physical order that holds a session; empty if none does.
    pub open spec fn order_of(self, id: u64) -> Seq<u64> {
        if self.sessions.contains_key(id) && self.sessions[id].active is Some
            && self.accounts.contains_key(self.sessions[id].active->0) {
            self.accounts[self.sessions[id].active->0].order
        } else {
            Seq::empty()
        }
    }

    /// The neighbour that arrived just before a session, or zero.
    pub open spec fn predecessor(self, id: u64) -> u64 {
        let order = self.order_of(id);
        if order.contains(id) && order.index_of(id) > 0 {
            order[order.index_of(id) - 1]
        } else {
            0
        }
    }

    /// The account that a pending route reserved.
    pub open spec fn pending_account(self, id: u64) -> Option<u64> {
        if self.sessions.contains_key(id) && self.sessions[id].reservation is Some {
            Some(self.sessions[id].reservation->0.account)
        } else {
            None
        }
    }

    /// The part of a ledger that one group and some sessions make up. What is
    /// left out still counts towards the population limits.
    pub open spec fn fork(self, group: u64, sessions: Seq<u64>) -> MirrorModel {
        let accounts = Map::new(
            |id: u64| self.in_group(group, id),
            |id: u64| self.accounts[id],
        );
        let known = Map::new(
            |id: u64| self.sessions.contains_key(id) && sessions.contains(id),
            |id: u64| self.sessions[id],
        );
        MirrorModel {
            accounts,
            sessions: known,
            hidden_accounts: (self.accounts.len() - accounts.len()) as nat,
            hidden_sessions: (self.sessions.len() - known.len()) as nat,
            ..self
        }
    }

    /// The ledger after the entries of a part were put back.
    pub open spec fn merged(self, staged: MirrorModel) -> MirrorModel {
        MirrorModel {
            accounts: self.accounts.union_prefer_right(staged.accounts),
            sessions: self.sessions.union_prefer_right(staged.sessions),
            ..self
        }
    }

    /// Whether a caller may ask for a part: the ledger is complete and the
    /// session list is short, without zero and without repetition.
    pub open spec fn fork_refusal(self, sessions: Seq<u64>) -> Option<InvalidReason> {
        if self.hidden_accounts != 0 || self.hidden_sessions != 0 {
            Some(InvalidReason::Lifecycle)
        } else if sessions.len() > 64 {
            Some(InvalidReason::Capacity)
        } else if sessions.contains(0) || !sessions.no_duplicates() {
            Some(InvalidReason::Identity)
        } else {
            None
        }
    }

    /// Whether a copy of one group and some sessions may be charged like this.
    /// The allocator decides how much an order's storage exceeds its length, so
    /// the charge is that of some such storage sizes.
    pub open spec fn may_charge(self, group: u64, sessions: Seq<u64>, r: Result<
        usize,
        InvalidReason,
    >) -> bool {
        match self.fork_refusal(sessions) {
            Some(reason) => r == Err::<usize, InvalidReason>(reason),
            None => exists|ids: Seq<u64>, slots: Seq<usize>|
                #![trigger clone_charge(slots, sessions.len()), ordered::ascending(ids)]
                {
                    &&& ordered::ascending(ids)
                    &&& forall|id: u64| #[trigger] ids.contains(id) <==> self.in_group(group, id)
                    &&& slots.len() == ids.len()
                    &&& forall|i: int|
                        0 <= i < ids.len() ==> #[trigger] slots[i]
                            >= self.accounts[ids[i]].order.len()
                    &&& r == charge_result(slots, sessions.len())
                },
        }
    }

    /// What an observed event does.
    pub open spec fn apply(self, event: Event) -> Step {
        match event {
            Event::Begin => Err(InvalidReason::ReplayedBegin),
            Event::Policy(policy) => self.set_policy(policy),
            Event::Account { id, group } => self.create_account(id, group),
            Event::RemoveAccount(id) => self.remove_account(id),
            Event::Open(id) => self.open_session(id),
            Event::Reserve { session, operation, account } => self.reserve(
                session,
                operation,
                account,
            ),
            Event::Created { session, operation, success } => self.created(
                session,
                operation,
                success,
            ),
            Event::Redirect { session, operation, target } => self.redirect(
                session,
                operation,
                target,
            ),
            Event::Redirected { session, operation, success } => self.redirected(
                session,
                operation,
                success,
            ),
            Event::Closing { session, operation } => self.start_closing(session, operation),
            Event::Closed(session) => self.close(session),
            Event::Rehydrate { session, account } => self.rehydrate(session, account),
            Event::Rejected { session } => if self.sessions.contains_key(session) {
                Ok((self, Transition::Ignored))
            } else {
                Err(InvalidReason::Identity)
            },
            Event::Retire => self.retire(),
            Event::End => if self.drained() {
                Ok((self, Transition::Applied))
            } else {
                Err(InvalidReason::Lifecycle)
            },
            Event::Watermark => Ok((self, Transition::Ignored)),
        }
    }
}

/// Moving counters keeps every account well-formed and every order in place.
proof fn lemma_counted(m: MirrorModel, accounts: Map<u64, AccountModel>, shift: Option<Shift>)
    requires
        m.with_accounts(accounts).wf(),
    ensures
        counted(accounts, shift) matches Ok(next) ==> {
            &&& m.with_accounts(next).wf()
            &&& next.dom() == accounts.dom()
            &&& forall|id: u64| #[trigger]
                accounts.contains_key(id) ==> next[id].order == accounts[id].order
                    && next[id].removed == accounts[id].removed && next[id].group
                    == accounts[id].group && next[id].id == accounts[id].id
        },
{
    if let Ok(next) = counted(accounts, shift) {
        assert(next.dom() =~= accounts.dom());
        let n = MirrorModel { accounts: next, ..m };
        let o = MirrorModel { accounts, ..m };
        assert forall|id: u64| #[trigger] n.accounts.contains_key(id) implies n.account_wf(id) by {
            assert(o.accounts.contains_key(id));
            assert(o.account_wf(id));
        }
    }
}

/// An accepted change keeps the ledger well-formed and the account population.
pub proof fn lemma_change_wf(
    m: MirrorModel,
    first: Option<Shift>,
    second: Option<Shift>,
    remove: Option<Seat>,
    append: Option<Seat>,
)
    requires
        m.wf(),
    ensures
        m.change(first, second, remove, append) matches Ok(accounts) ==> {
            &&& m.with_accounts(accounts).wf()
            &&& accounts.dom() == m.accounts.dom()
        },
{
    reveal(MirrorModel::change);
    assert(MirrorModel { accounts: m.accounts, ..m } == m);
    lemma_counted(m, m.accounts, first);
    if let Ok(once) = counted(m.accounts, first) {
        lemma_counted(m, once, second);
        if let Ok(twice) = counted(once, second) {
            if m.misplaced(remove, append) is None {
                let left = unseated(twice, remove);
                let joined = seated(left, append);
                assert(left.dom() =~= twice.dom());
                assert(joined.dom() =~= twice.dom());
                let t = MirrorModel { accounts: twice, ..m };
                let n = MirrorModel { accounts: joined, ..m };
                assert forall|id: u64| #[trigger] n.accounts.contains_key(id) implies n.account_wf(
                    id,
                ) by {
                    assert(t.accounts.contains_key(id));
                    assert(t.account_wf(id));
                    assert(m.accounts.contains_key(id));
                    let order = twice[id].order;
                    assert(order == m.accounts[id].order);
                    if let Some(seat) = remove {
                        if seat.account == id {
                            let at = order.index_of(seat.session);
                            assert(order.contains(seat.session));
                            assert(0 <= at < order.len() && order[at] == seat.session);
                            assert(left[id].order == order.remove(at));
                            assert forall|x: u64| left[id].order.contains(x) implies order.contains(
                                x,
                            ) && x != seat.session by {
                                let k = left[id].order.index_of(x);
                                assert(left[id].order[k] == x);
                                if k < at {
                                    assert(order[k] == x);
                                } else {
                                    assert(order[k + 1] == x);
                                }
                            }
                        }
                    }
                    assert(left[id].order.no_duplicates());
                    if let Some(seat) = append {
                        if seat.account == id {
                            assert(!left[id].order.contains(seat.session));
                        }
                    }
                }
            }
        }
    }
}

/// A settled session keeps the ledger well-formed.
pub proof fn lemma_settle_wf(
    m: MirrorModel,
    session: u64,
    state: Session,
    first: Option<Shift>,
    second: Option<Shift>,
    remove: Option<Seat>,
    append: Option<Seat>,
)
    requires
        m.wf(),
        m.sessions.contains_key(session) || m.hidden_sessions + m.sessions.len()
            < m.limits.sessions,
    ensures
        m.settle(session, state, first, second, remove, append) matches Ok((n, _)) ==> n.wf(),
{
    lemma_change_wf(m, first, second, remove, append);
    if let Ok((n, _)) = m.settle(session, state, first, second, remove, append) {
        let c = MirrorModel { accounts: n.accounts, ..m };
        assert forall|id: u64| #[trigger] n.accounts.contains_key(id) implies n.account_wf(id) by {
            assert(c.accounts.contains_key(id));
            assert(c.account_wf(id));
        }
    }
}

/// The value ledger of one owner.
pub struct Mirror {
    limits: Limits,
    retired: bool,
    factor_lifetime: Option<u64>,
    next_factor: u64,
    accounts: OrderedMap<u64, AccountView>,
    sessions: OrderedMap<u64, Session>,
    // A caller fork copies only its affected keys. Omitted retained entries,
    // including tombstones, still consume the original population limits.
    hidden_accounts: usize,
    hidden_sessions: usize,
}

impl View for Mirror {
    type V = MirrorModel;

    closed spec fn view(&self) -> MirrorModel {
        MirrorModel {
            limits: self.limits,
            retired: self.retired,
            factor_lifetime: self.factor_lifetime,
            next_factor: self.next_factor,
            accounts: self.accounts@,
            sessions: self.sessions@,
            hidden_accounts: self.hidden_accounts as nat,
            hidden_sessions: self.hidden_sessions as nat,
        }
    }
}

impl Mirror {
    /// What every ledger keeps.
    pub closed spec fn wf(&self) -> bool {
        &&& self.accounts.wf()
        &&& self.sessions.wf()
        &&& self@.wf()
    }

    /// The model of a well-formed ledger is well-formed.
    pub proof fn lemma_wf(&self)
        requires
            self.wf(),
        ensures
            self@.wf(),
    {
    }

    /// An empty ledger.
    pub fn new(limits: Limits) -> (r: Self)
        ensures
            r.wf(),
            r@ == MirrorModel::empty(limits),
    {
        Mirror {
            limits,
            retired: false,
            factor_lifetime: None,
            next_factor: 1,
            accounts: OrderedMap::new(),
            sessions: OrderedMap::new(),
            hidden_accounts: 0,
            hidden_sessions: 0,
        }
    }

    /// A retained account that was not removed.
    fn account(&self, id: u64) -> (r: Option<&AccountView>)
        requires
            self.wf(),
        ensures
            r is Some <==> live(self@.accounts, id),
            r matches Some(a) ==> a@ == self@.accounts[id] && self@.account_wf(id),
    {
        match self.accounts.get(id) {
            Some(account) => {
                if account.removed {
                    None
                } else {
                    assert(self@.accounts.contains_key(id));
                    Some(account)
                }
            },
            None => None,
        }
    }

    /// The counters of one account after a shift; `once` overrides the retained
    /// counters of an account that has already moved.
    fn shifted(&self, once: Option<(u64, Counts)>, shift: Shift) -> (r: Result<
        Counts,
        InvalidReason,
    >)
        requires
            self.wf(),
            once matches Some((id, _)) ==> live(self@.accounts, id),
        ensures
            counted(override_counts(self@.accounts, once), Some(shift)) matches Ok(next) ==> {
                &&& r is Ok
                &&& live(self@.accounts, shift.account)
                &&& next == override_counts(
                    override_counts(self@.accounts, once),
                    Some((shift.account, r->Ok_0)),
                )
            },
            counted(override_counts(self@.accounts, once), Some(shift)) matches Err(reason) ==> r
                == Err::<Counts, InvalidReason>(reason),
    {
        let Some(account) = self.account(shift.account) else {
            return Err(InvalidReason::Identity);
        };
        let counts = match once {
            Some((id, counts)) => if id == shift.account {
                counts
            } else {
                account.counts
            },
            None => account.counts,
        };
        counts.shifted(shift)
    }

    /// The position of a session in an order that repeats nothing.
    fn seat_of(order: &Vec<u64>, session: u64) -> (r: Option<usize>)
        requires
            order@.no_duplicates(),
        ensures
            r matches Some(i) ==> i < order@.len() && i == order@.index_of(session) && order@[i as int] == session,
            r is Some <==> order@.contains(session),
    {
        let mut index: usize = 0;
        while index < order.len()
            invariant
                index <= order@.len(),
                forall|i: int| 0 <= i < index ==> order@[i] != session,
                order@.no_duplicates(),
            decreases order@.len() - index,
        {
            if order[index] == session {
                assert(order@.contains(session));
                let ghost at = order@.index_of(session);
                assert(order@[at] == session);
                return Some(index);
            }
            index = index + 1;
        }
        None
    }

    // Counter and physical-list checks precede every mutation, and at most two
    // accounts are touched.
    fn change(
        &mut self,
        first: Option<Shift>,
        second: Option<Shift>,
        remove: Option<Seat>,
        append: Option<Seat>,
    ) -> (r: Result<(), InvalidReason>)
        requires
            old(self).wf(),
        ensures
            final(self).wf(),
            match old(self)@.change(first, second, remove, append) {
                Ok(accounts) => r is Ok && final(self)@ == old(self)@.with_accounts(accounts),
                Err(reason) => r == Err::<(), InvalidReason>(reason) && *final(self) == *old(self),
            },
    {
        let ghost before = self@;
        proof {
            reveal(MirrorModel::change);
            lemma_change_wf(before, first, second, remove, append);
        }
        let once = match first {
            Some(shift) => match self.shifted(None, shift) {
                Ok(counts) => Some((shift.account, counts)),
                Err(reason) => return Err(reason),
            },
            None => None,
        };
        let twice = match second {
            Some(shift) => match self.shifted(once, shift) {
                Ok(counts) => Some((shift.account, counts)),
                Err(reason) => return Err(reason),
            },
            None => None,
        };
        let removal = match remove {
            Some(seat) => match self.account(seat.account) {
                Some(account) => match Self::seat_of(&account.physical_order, seat.session) {
                    Some(index) => Some((seat.account, index)),
                    None => return Err(InvalidReason::Lifecycle),
                },
                None => return Err(InvalidReason::Identity),
            },
            None => None,
        };
        if let Some(seat) = append {
            match self.account(seat.account) {
                Some(account) => {
                    if Self::seat_of(&account.physical_order, seat.session).is_some() && remove
                        != append {
                        return Err(InvalidReason::Lifecycle);
                    }
                    if account.physical_order.len() >= self.limits.sessions {
                        return Err(InvalidReason::Capacity);
                    }
                },
                None => return Err(InvalidReason::Identity),
            }
        }
        if let Some((id, counts)) = once {
            if let Some(account) = self.accounts.get_mut(id) {
                account.counts = counts;
            }
        }
        if let Some((id, counts)) = twice {
            if let Some(account) = self.accounts.get_mut(id) {
                account.counts = counts;
            }
        }
        if let Some((id, index)) = removal {
            if let Some(account) = self.accounts.get_mut(id) {
                account.physical_order.remove(index);
            }
        }
        if let Some(seat) = append {
            if let Some(account) = self.accounts.get_mut(seat.account) {
                account.physical_order.push(seat.session);
            }
        }
        Ok(())
    }

    fn settle(
        &mut self,
        session: u64,
        state: Session,
        first: Option<Shift>,
        second: Option<Shift>,
        remove: Option<Seat>,
        append: Option<Seat>,
    ) -> (r: Result<Transition, InvalidReason>)
        requires
            old(self).wf(),
            old(self)@.sessions.contains_key(session) || old(self)@.hidden_sessions + old(
                self,
            )@.sessions.len() < old(self)@.limits.sessions,
        ensures
            final(self).wf(),
            follows(
                old(self)@,
                final(self)@,
                r,
                old(self)@.settle(session, state, first, second, remove, append),
            ),
    {
        proof {
            lemma_settle_wf(self@, session, state, first, second, remove, append);
        }
        match self.change(first, second, remove, append) {
            Ok(()) => {
                self.sessions.insert(session, state);
                Ok(Transition::Applied)
            },
            Err(reason) => Err(reason),
        }
    }

    fn open_session(&mut self, id: u64) -> (r: Result<Transition, InvalidReason>)
        requires
            old(self).wf(),
        ensures
            final(self).wf(),
            follows(old(self)@, final(self)@, r, old(self)@.open_session(id)),
    {
        if self.retired {
            return Err(InvalidReason::Lifecycle);
        }
        if id == 0 || self.sessions.contains_key(id) {
            return Err(InvalidReason::Identity);
        }
        if self.hidden_sessions + self.sessions.len() >= self.limits.sessions {
            return Err(InvalidReason::Capacity);
        }
        self.settle(id, Session::default(), None, None, None, None)
    }

    fn reserve(&mut self, session: u64, operation: u64, account: u64) -> (r: Result<Transition, InvalidReason>)
        requires
            old(self).wf(),
        ensures
            final(self).wf(),
            follows(old(self)@, final(self)@, r, old(self)@.reserve(session, operation, account)),
    {
        if self.retired {
            return Err(InvalidReason::Lifecycle);
        }
        let mut state = match self.sessions.get(session) {
            Some(state) => *state,
            None => return Err(InvalidReason::Identity),
        };
        if state.closed || state.active.is_some() || state.reservation.is_some() || operation == 0
            || operation <= state.route_watermark {
            return Err(InvalidReason::Lifecycle);
        }
        state.reservation = Some(Reservation { operation, account });
        state.route_watermark = operation;
        let shift = Shift {
            account,
            active: Tick::Same,
            reserved: Tick::Up,
            incoming: Tick::Same,
            outgoing: Tick::Same,
        };
        self.settle(session, state, Some(shift), None, None, None)
    }

    fn created(&mut self, session: u64, operation: u64, success: bool) -> (r: Result<Transition, InvalidReason>)
        requires
            old(self).wf(),
        ensures
            final(self).wf(),
            follows(old(self)@, final(self)@, r, old(self)@.created(session, operation, success)),
    {
        let mut state = match self.sessions.get(session) {
            Some(state) => *state,
            None => return Err(InvalidReason::Identity),
        };
        let Some(pending) = state.reservation else {
            return Ok(Transition::Ignored);
        };
        if pending.operation != operation {
            return Ok(Transition::Ignored);
        }
        state.reservation = None;
        let mut active = Tick::Same;
        let mut append = None;
        if success {
            state.bound = true;
            state.active = Some(pending.account);
            active = Tick::Up;
            append = Some(Seat { account: pending.account, session });
        }
        let shift = Shift {
            account: pending.account,
            active,
            reserved: Tick::Down,
            incoming: Tick::Same,
            outgoing: Tick::Same,
        };
        self.settle(session, state, Some(shift), None, None, append)
    }

    fn redirect(&mut self, session: u64, operation: u64, target: u64) -> (r: Result<Transition, InvalidReason>)
        requires
            old(self).wf(),
        ensures
            final(self).wf(),
            follows(old(self)@, final(self)@, r, old(self)@.redirect(session, operation, target)),
    {
        if self.retired {
            return Err(InvalidReason::Lifecycle);
        }
        let mut state = match self.sessions.get(session) {
            Some(state) => *state,
            None => return Err(InvalidReason::Identity),
        };
        let Some(source) = state.active else {
            return Err(InvalidReason::Lifecycle);
        };
        if state.closed || state.redirect.is_some() || state.reconnect.is_some()
            || state.closing.is_some() || operation == 0 || operation <= state.redirect_watermark
            || source == target {
            return Err(InvalidReason::Lifecycle);
        }
        let (Some(from), Some(to)) = (self.account(source), self.account(target)) else {
            return Err(InvalidReason::Identity);
        };
        if from.group != to.group {
            return Err(InvalidReason::Lifecycle);
        }
        state.redirect = Some(Move { operation, source, target });
        state.redirect_watermark = operation;
        let leaving = Shift {
            account: source,
            active: Tick::Same,
            reserved: Tick::Same,
            incoming: Tick::Same,
            outgoing: Tick::Up,
        };
        let arriving = Shift {
            account: target,
            active: Tick::Same,
            reserved: Tick::Same,
            incoming: Tick::Up,
            outgoing: Tick::Same,
        };
        self.settle(session, state, Some(leaving), Some(arriving), None, None)
    }

    fn reconnected(&mut self, session: u64, operation: u64, success: bool) -> (r: Result<Transition, InvalidReason>)
        requires
            old(self).wf(),
        ensures
            final(self).wf(),
            follows(old(self)@, final(self)@, r, old(self)@.reconnected(session, operation, success)),
    {
        let mut state = match self.sessions.get(session) {
            Some(state) => *state,
            None => return Err(InvalidReason::Identity),
        };
        if state.reconnect != Some(operation) {
            return Ok(Transition::Ignored);
        }
        let Some(account) = state.active else {
            return Err(InvalidReason::Lifecycle);
        };
        let seat = if success {
            Some(Seat { account, session })
        } else {
            None
        };
        state.reconnect = None;
        self.settle(session, state, None, None, seat, seat)
    }

    fn redirected(&mut self, session: u64, operation: u64, success: bool) -> (r: Result<Transition, InvalidReason>)
        requires
            old(self).wf(),
        ensures
            final(self).wf(),
            follows(old(self)@, final(self)@, r, old(self)@.redirected(session, operation, success)),
    {
        let mut state = match self.sessions.get(session) {
            Some(state) => *state,
            None => return Err(InvalidReason::Identity),
        };
        if state.reconnect.is_some() {
            return self.reconnected(session, operation, success);
        }
        let Some(pending) = state.redirect else {
            return Ok(Transition::Ignored);
        };
        if pending.operation != operation {
            return Ok(Transition::Ignored);
        }
        state.redirect = None;
        let mut leaving = Shift {
            account: pending.source,
            active: Tick::Same,
            reserved: Tick::Same,
            incoming: Tick::Same,
            outgoing: Tick::Down,
        };
        let mut arriving = Shift {
            account: pending.target,
            active: Tick::Same,
            reserved: Tick::Same,
            incoming: Tick::Down,
            outgoing: Tick::Same,
        };
        let mut remove = None;
        let mut append = None;
        if success {
            state.active = Some(pending.target);
            leaving.active = Tick::Down;
            arriving.active = Tick::Up;
            remove = Some(Seat { account: pending.source, session });
            append = Some(Seat { account: pending.target, session });
        }
        self.settle(session, state, Some(leaving), Some(arriving), remove, append)
    }

    fn start_closing(&mut self, session: u64, operation: u64) -> (r: Result<Transition, InvalidReason>)
        requires
            old(self).wf(),
        ensures
            final(self).wf(),
            follows(old(self)@, final(self)@, r, old(self)@.start_closing(session, operation)),
    {
        if self.retired {
            return Err(InvalidReason::Lifecycle);
        }
        let mut state = match self.sessions.get(session) {
            Some(state) => *state,
            None => return Err(InvalidReason::Identity),
        };
        if state.closed || state.active.is_none() || state.closing.is_some() || operation == 0
            || operation <= state.close_watermark {
            return Err(InvalidReason::Lifecycle);
        }
        state.closing = Some(operation);
        state.close_watermark = operation;
        self.settle(session, state, None, None, None, None)
    }

    fn close(&mut self, session: u64) -> (r: Result<Transition, InvalidReason>)
        requires
            old(self).wf(),
        ensures
            final(self).wf(),
            follows(old(self)@, final(self)@, r, old(self)@.close(session)),
    {
        let mut state = match self.sessions.get(session) {
            Some(state) => *state,
            None => return Err(InvalidReason::Identity),
        };
        if state.closed {
            return Ok(Transition::Ignored);
        }
        let mut first = None;
        let mut second = None;
        let mut remove = None;
        if let Some(pending) = state.reservation {
            first = Some(
                Shift {
                    account: pending.account,
                    active: Tick::Same,
                    reserved: Tick::Down,
                    incoming: Tick::Same,
                    outgoing: Tick::Same,
                },
            );
        } else if let Some(pending) = state.redirect {
            first = Some(
                Shift {
                    account: pending.source,
                    active: Tick::Down,
                    reserved: Tick::Same,
                    incoming: Tick::Same,
                    outgoing: Tick::Down,
                },
            );
            second = Some(
                Shift {
                    account: pending.target,
                    active: Tick::Same,
                    reserved: Tick::Same,
                    incoming: Tick::Down,
                    outgoing: Tick::Same,
                },
            );
            remove = Some(Seat { account: pending.source, session });
        } else if let Some(account) = state.active {
            first = Some(
                Shift {
                    account,
                    active: Tick::Down,
                    reserved: Tick::Same,
                    incoming: Tick::Same,
                    outgoing: Tick::Same,
                },
            );
            remove = Some(Seat { account, session });
        }
        state.reconnect = None;
        state.closed = true;
        state.active = None;
        state.reservation = None;
        state.redirect = None;
        state.closing = None;
        self.settle(session, state, first, second, remove, None)
    }

    fn rehydrate(&mut self, session: u64, account: u64) -> (r: Result<Transition, InvalidReason>)
        requires
            old(self).wf(),
        ensures
            final(self).wf(),
            follows(old(self)@, final(self)@, r, old(self)@.rehydrate(session, account)),
    {
        if self.retired {
            return Err(InvalidReason::Lifecycle);
        }
        if self.account(account).is_none() || session == 0 || self.sessions.contains_key(session) {
            return Err(InvalidReason::Identity);
        }
        if self.hidden_sessions + self.sessions.len() >= self.limits.sessions {
            return Err(InvalidReason::Capacity);
        }
        let mut state = Session::default();
        state.bound = true;
        state.active = Some(account);
        let shift = Shift {
            account,
            active: Tick::Up,
            reserved: Tick::Same,
            incoming: Tick::Same,
            outgoing: Tick::Same,
        };
        self.settle(session, state, Some(shift), None, None, Some(Seat { account, session }))
    }

    /// End a selection that never became a connection.
    pub fn selection_done(&mut self, id: u64) -> (r: Result<Transition, InvalidReason>)
        requires
            old(self).wf(),
        ensures
            final(self).wf(),
            follows(old(self)@, final(self)@, r, old(self)@.selection_done(id)),
    {
        let mut state = match self.sessions.get(id) {
            Some(state) => *state,
            None => return Err(InvalidReason::Identity),
        };
        if state.bound || state.closed || state.reservation.is_some() || state.active.is_some() {
            return Err(InvalidReason::Lifecycle);
        }
        state.closed = true;
        self.settle(id, state, None, None, None, None)
    }

    /// Administrative reconnection marks pending before the callback result is
    /// known, also for a session that is already closing. It changes no score
    /// owner.
    pub fn reconnect(&mut self, id: u64, operation: u64, account: u64) -> (r: Result<Transition, InvalidReason>)
        requires
            old(self).wf(),
        ensures
            final(self).wf(),
            follows(old(self)@, final(self)@, r, old(self)@.reconnect(id, operation, account)),
    {
        let mut state = match self.sessions.get(id) {
            Some(state) => *state,
            None => return Err(InvalidReason::Identity),
        };
        if state.closed || state.active != Some(account) || state.redirect.is_some()
            || state.reconnect.is_some() || operation == 0 || operation
            <= state.redirect_watermark {
            return Err(InvalidReason::Lifecycle);
        }
        state.reconnect = Some(operation);
        state.redirect_watermark = operation;
        self.settle(id, state, None, None, None, None)
    }

    fn set_policy(&mut self, policy: Policy) -> (r: Result<Transition, InvalidReason>)
        requires
            old(self).wf(),
        ensures
            final(self).wf(),
            follows(old(self)@, final(self)@, r, old(self)@.set_policy(policy)),
    {
        if self.retired {
            return Err(InvalidReason::Lifecycle);
        }
        if policy == Policy::Connection {
            self.factor_lifetime = None;
        } else if self.factor_lifetime.is_none() {
            let Some(next) = self.next_factor.checked_add(1) else {
                return Err(InvalidReason::Capacity);
            };
            self.factor_lifetime = Some(self.next_factor);
            self.next_factor = next;
        }
        proof {
            assert forall|id: u64| #[trigger] self@.accounts.contains_key(
                id,
            ) implies self@.account_wf(id) by {
                assert(old(self)@.accounts.contains_key(id));
                assert(old(self)@.account_wf(id));
            }
        }
        Ok(Transition::Applied)
    }

    fn create_account(&mut self, id: u64, group: u64) -> (r: Result<Transition, InvalidReason>)
        requires
            old(self).wf(),
        ensures
            final(self).wf(),
            follows(old(self)@, final(self)@, r, old(self)@.create_account(id, group)),
    {
        if self.retired {
            return Err(InvalidReason::Lifecycle);
        }
        if id == 0 || group == 0 || self.accounts.contains_key(id) {
            return Err(InvalidReason::Identity);
        }
        if self.hidden_accounts + self.accounts.len() >= self.limits.accounts {
            return Err(InvalidReason::Capacity);
        }
        let account = AccountView {
            id,
            group,
            counts: Counts::default(),
            physical_order: Vec::new(),
            removed: false,
        };
        self.accounts.insert(id, account);
        proof {
            assert forall|id: u64| #[trigger] self@.accounts.contains_key(
                id,
            ) implies self@.account_wf(id) by {
                if old(self)@.accounts.contains_key(id) {
                    assert(old(self)@.account_wf(id));
                }
            }
        }
        Ok(Transition::Applied)
    }

    fn remove_account(&mut self, id: u64) -> (r: Result<Transition, InvalidReason>)
        requires
            old(self).wf(),
        ensures
            final(self).wf(),
            follows(old(self)@, final(self)@, r, old(self)@.remove_account(id)),
    {
        match self.account(id) {
            None => return Err(InvalidReason::Identity),
            Some(account) => {
                if !account.counts.is_zero() || account.physical_order.len() != 0 {
                    return Err(InvalidReason::Lifecycle);
                }
            },
        }
        if let Some(account) = self.accounts.get_mut(id) {
            account.removed = true;
        }
        proof {
            assert forall|id: u64| #[trigger] self@.accounts.contains_key(
                id,
            ) implies self@.account_wf(id) by {
                assert(old(self)@.accounts.contains_key(id));
                assert(old(self)@.account_wf(id));
            }
        }
        Ok(Transition::Applied)
    }

    /// Whether every retained tail has settled.
    fn drained(&self) -> (r: bool)
        requires
            self.wf(),
        ensures
            r == self@.drained(),
    {
        proof {
            self.sessions.lemma_order();
            self.accounts.lemma_order();
        }
        if !self.retired {
            return false;
        }
        let mut index: usize = 0;
        while index < self.sessions.len()
            invariant
                self.wf(),
                index <= self.sessions.order().len(),
                forall|i: int|
                    0 <= i < index ==> self.sessions@[#[trigger] self.sessions.order()[i]].closed,
            decreases self.sessions.order().len() - index,
        {
            if !self.sessions.value_at(index).closed {
                return false;
            }
            index = index + 1;
        }
        assert forall|id: u64| #[trigger] self@.sessions.contains_key(
            id,
        ) implies self@.sessions[id].closed by {
            let at = self.sessions.order().index_of(id);
            assert(self.sessions.order()[at] == id);
        }
        let mut index: usize = 0;
        while index < self.accounts.len()
            invariant
                self.wf(),
                index <= self.accounts.order().len(),
                forall|i: int|
                    0 <= i < index ==> self.accounts@[#[trigger] self.accounts.order()[i]].counts
                        == CountsModel::zero(),
            decreases self.accounts.order().len() - index,
        {
            if !self.accounts.value_at(index).counts.is_zero() {
                return false;
            }
            index = index + 1;
        }
        assert forall|id: u64| #[trigger] self@.accounts.contains_key(
            id,
        ) implies self@.accounts[id].counts == CountsModel::zero() by {
            let at = self.accounts.order().index_of(id);
            assert(self.accounts.order()[at] == id);
        }
        true
    }

    /// Mirror an observed event. A refused event changes nothing.
    pub fn apply(&mut self, event: Event) -> (r: Result<Transition, InvalidReason>)
        requires
            old(self).wf(),
        ensures
            final(self).wf(),
            follows(old(self)@, final(self)@, r, old(self)@.apply(event)),
    {
        match event {
            Event::Begin => Err(InvalidReason::ReplayedBegin),
            Event::Policy(policy) => self.set_policy(policy),
            Event::Account { id, group } => self.create_account(id, group),
            Event::RemoveAccount(id) => self.remove_account(id),
            Event::Open(id) => self.open_session(id),
            Event::Reserve { session, operation, account } => self.reserve(
                session,
                operation,
                account,
            ),
            Event::Created { session, operation, success } => self.created(
                session,
                operation,
                success,
            ),
            Event::Redirect { session, operation, target } => self.redirect(
                session,
                operation,
                target,
            ),
            Event::Redirected { session, operation, success } => self.redirected(
                session,
                operation,
                success,
            ),
            Event::Closing { session, operation } => self.start_closing(session, operation),
            Event::Closed(session) => self.close(session),
            Event::Rehydrate { session, account } => self.rehydrate(session, account),
            Event::Rejected { session } => if self.sessions.contains_key(session) {
                Ok(Transition::Ignored)
            } else {
                Err(InvalidReason::Identity)
            },
            Event::Retire => {
                if self.retired {
                    return Err(InvalidReason::Lifecycle);
                }
                self.retired = true;
                proof {
                    assert forall|id: u64| #[trigger] self@.accounts.contains_key(
                        id,
                    ) implies self@.account_wf(id) by {
                        assert(old(self)@.accounts.contains_key(id));
                        assert(old(self)@.account_wf(id));
                    }
                }
                Ok(Transition::Applied)
            },
            Event::End => if self.drained() {
                Ok(Transition::Applied)
            } else {
                Err(InvalidReason::Lifecycle)
            },
            Event::Watermark => Ok(Transition::Ignored),
        }
    }

    /// The physical order of an account that was not removed.
    pub fn caller_physical(&self, account: u64) -> (r: Option<&Vec<u64>>)
        requires
            self.wf(),
        ensures
            r is Some <==> live(self@.accounts, account),
            r matches Some(order) ==> order@ == self@.accounts[account].order,
    {
        match self.account(account) {
            Some(account) => Some(&account.physical_order),
            None => None,
        }
    }

    /// The last redirect or reconnect operation of a retained session.
    pub fn caller_redirect_watermark(&self, session: u64) -> (r: Option<u64>)
        requires
            self.wf(),
        ensures
            r is Some <==> self@.sessions.contains_key(session),
            r matches Some(mark) ==> mark == self@.sessions[session].redirect_watermark,
    {
        match self.sessions.get(session) {
            Some(state) => Some(state.redirect_watermark),
            None => None,
        }
    }

    /// The complete retained inventory of a group, in ascending order.
    pub fn caller_account_ids(&self, group: u64) -> (r: Vec<u64>)
        requires
            self.wf(),
        ensures
            ordered::ascending(r@),
            forall|id: u64| #[trigger] r@.contains(id) <==> self@.in_group(group, id),
    {
        let mut ids: Vec<u64> = Vec::new();
        let mut index: usize = 0;
        proof {
            self.accounts.lemma_order();
        }
        while index < self.accounts.len()
            invariant
                self.wf(),
                index <= self.accounts.order().len(),
                ordered::ascending(self.accounts.order()),
                forall|k: u64| #[trigger]
                    self.accounts@.contains_key(k) <==> self.accounts.order().contains(k),
                ordered::ascending(ids@),
                forall|i: int|
                    0 <= i < ids@.len() ==> exists|j: int|
                        0 <= j < index && #[trigger] self.accounts.order()[j] == #[trigger] ids@[i],
                forall|i: int|
                    0 <= i < ids@.len() ==> self@.in_group(group, #[trigger] ids@[i]),
                forall|j: int|
                    0 <= j < index && self@.in_group(group, #[trigger] self.accounts.order()[j])
                        ==> ids@.contains(self.accounts.order()[j]),
            decreases self.accounts.order().len() - index,
        {
            let id = self.accounts.key_at(index);
            let account = self.accounts.value_at(index);
            if account.group == group && !account.removed {
                let ghost was = ids@;
                ids.push(id);
                proof {
                    assert forall|j: int|
                        0 <= j < index + 1 && self@.in_group(
                            group,
                            #[trigger] self.accounts.order()[j],
                        ) implies ids@.contains(self.accounts.order()[j]) by {
                        if j < index {
                            let at = was.index_of(self.accounts.order()[j]);
                            assert(ids@[at] == was[at]);
                        } else {
                            assert(ids@[was.len() as int] == id);
                        }
                    }
                }
            }
            index = index + 1;
        }
        proof {
            assert forall|id: u64| #[trigger] ids@.contains(id) <==> self@.in_group(group, id) by {
                if self@.in_group(group, id) {
                    assert(self.accounts@.contains_key(id));
                    let at = self.accounts.order().index_of(id);
                    assert(self.accounts.order()[at] == id);
                }
                if ids@.contains(id) {
                    let at = ids@.index_of(id);
                    assert(ids@[at] == id);
                }
            }
        }
        ids
    }

    /// What the ledger knows of a session's connection.
    pub fn connection(&self, id: u64) -> (r: ConnectionState)
        requires
            self.wf(),
        ensures
            r == self@.connection(id),
    {
        match self.sessions.get(id) {
            None => ConnectionState::default(),
            Some(state) => if !state.bound {
                ConnectionState::default()
            } else {
                let physical: u64 = match state.active {
                    Some(account) => account,
                    None => 0,
                };
                ConnectionState {
                    present: true,
                    physical,
                    score_owner: match state.redirect {
                        Some(pending) => pending.target,
                        None => physical,
                    },
                    redirect_pending: state.redirect.is_some() || state.reconnect.is_some(),
                    closing: state.closing.is_some(),
                    closed: state.closed,
                }
            },
        }
    }

    /// The group of a retained account, removed or not.
    pub fn account_group(&self, id: u64) -> (r: Option<u64>)
        requires
            self.wf(),
        ensures
            r is Some <==> self@.accounts.contains_key(id),
            r matches Some(group) ==> group == self@.accounts[id].group,
    {
        match self.accounts.get(id) {
            Some(account) => Some(account.group),
            None => None,
        }
    }

    /// The constant-size projection of a retained account, where its score fits.
    pub fn compact_account(&self, id: u64) -> (r: Option<AccountWitness>)
        requires
            self.wf(),
        ensures
            r == self@.compact_account(id),
    {
        match self.accounts.get(id) {
            Some(account) => {
                assert(self@.accounts.contains_key(id));
                assert(self@.account_wf(id));
                let score = account.counts.score();
                if score > i64::MAX as u64 {
                    return None;
                }
                let length: usize = account.physical_order.len();
                Some(
                    AccountWitness {
                        id,
                        score: score as i64,
                        physical: account.counts.active,
                        head: if length == 0 {
                            0
                        } else {
                            account.physical_order[0]
                        },
                        tail: if length == 0 {
                            0
                        } else {
                            account.physical_order[length - 1]
                        },
                    },
                )
            },
            None => None,
        }
    }

    /// The session that arrived just before this one, or zero.
    pub fn predecessor(&self, id: u64) -> (r: u64)
        requires
            self.wf(),
        ensures
            r == self@.predecessor(id),
    {
        match self.sessions.get(id) {
            Some(state) => match state.active {
                Some(active) => match self.accounts.get(active) {
                    Some(account) => {
                        assert(self@.accounts.contains_key(active));
                        assert(self@.account_wf(active));
                        match Self::seat_of(&account.physical_order, id) {
                            Some(index) => if index > 0 {
                                account.physical_order[index - 1]
                            } else {
                                0
                            },
                            None => 0,
                        }
                    },
                    None => 0,
                },
                None => 0,
            },
            None => 0,
        }
    }

    /// The account that a pending route reserved.
    pub fn pending_account(&self, id: u64) -> (r: Option<u64>)
        requires
            self.wf(),
        ensures
            r == self@.pending_account(id),
    {
        match self.sessions.get(id) {
            Some(state) => match state.reservation {
                Some(pending) => Some(pending.account),
                None => None,
            },
            None => None,
        }
    }

    /// Whether every account of a group was removed.
    pub fn group_empty(&self, group: u64) -> (r: bool)
        requires
            self.wf(),
        ensures
            r == self@.group_empty(group),
    {
        let ids = self.caller_account_ids(group);
        proof {
            if ids@.len() > 0 {
                assert(ids@.contains(ids@[0]));
            } else {
                assert forall|id: u64| !self@.in_group(group, id) by {
                    assert(!ids@.contains(id));
                }
            }
        }
        ids.len() == 0
    }

    /// Copy one group and the retained ones of some sessions. Callers validate
    /// the scope and reserve the copy's charge first.
    pub fn fork_caller(&self, group: u64, sessions: &[u64]) -> (r: Self)
        requires
            self.wf(),
        ensures
            r.wf(),
            r@ == self@.fork(group, sessions@),
    {
        let ids = self.caller_account_ids(group);
        let mut accounts: OrderedMap<u64, AccountView> = OrderedMap::new();
        let mut index: usize = 0;
        while index < ids.len()
            invariant
                self.wf(),
                accounts.wf(),
                index <= ids@.len(),
                forall|id: u64| #[trigger] ids@.contains(id) <==> self@.in_group(group, id),
                forall|id: u64| #[trigger]
                    accounts@.contains_key(id) <==> exists|i: int|
                        0 <= i < index && #[trigger] ids@[i] == id,
                forall|id: u64| #[trigger]
                    accounts@.contains_key(id) ==> accounts@[id] == self@.accounts[id],
            decreases ids@.len() - index,
        {
            let id = ids[index];
            assert(ids@.contains(ids@[index as int]));
            if let Some(account) = self.accounts.get(id) {
                let ghost was = accounts@;
                accounts.insert(id, account.duplicate());
                assert forall|k: u64| #[trigger] accounts@.contains_key(k) <==> exists|i: int|
                    0 <= i < index + 1 && #[trigger] ids@[i] == k by {
                    if was.contains_key(k) {
                        let i = choose|i: int| 0 <= i < index && #[trigger] ids@[i] == k;
                        assert(ids@[i] == k);
                    }
                    if k == id {
                        assert(ids@[index as int] == k);
                    }
                }
            }
            index = index + 1;
        }
        let mut known: OrderedMap<u64, Session> = OrderedMap::new();
        let mut index: usize = 0;
        while index < sessions.len()
            invariant
                self.wf(),
                known.wf(),
                index <= sessions@.len(),
                forall|id: u64| #[trigger]
                    known@.contains_key(id) <==> self@.sessions.contains_key(id) && exists|i: int|
                        0 <= i < index && #[trigger] sessions@[i] == id,
                forall|id: u64| #[trigger]
                    known@.contains_key(id) ==> known@[id] == self@.sessions[id],
            decreases sessions@.len() - index,
        {
            let id = sessions[index];
            let ghost was = known@;
            if let Some(state) = self.sessions.get(id) {
                known.insert(id, *state);
            }
            assert forall|k: u64| #[trigger] known@.contains_key(k) <==> self@.sessions.contains_key(
                k,
            ) && exists|i: int| 0 <= i < index + 1 && #[trigger] sessions@[i] == k by {
                if was.contains_key(k) {
                    let i = choose|i: int| 0 <= i < index && #[trigger] sessions@[i] == k;
                    assert(sessions@[i] == k);
                }
                if k == id {
                    assert(sessions@[index as int] == k);
                }
            }
            index = index + 1;
        }
        let ghost part = self@.fork(group, sessions@);
        proof {
            assert forall|id: u64| #[trigger] accounts@.contains_key(id) <==> self@.in_group(
                group,
                id,
            ) by {
                assert(ids@.contains(id) <==> self@.in_group(group, id));
            }
            assert(accounts@ =~= part.accounts);
            assert forall|id: u64| #[trigger] known@.contains_key(id)
                <==> self@.sessions.contains_key(id) && sessions@.contains(id) by {}
            assert(known@ =~= part.sessions);
            accounts.lemma_order();
            known.lemma_order();
            assert(accounts@.dom().subset_of(self@.accounts.dom()));
            assert(known@.dom().subset_of(self@.sessions.dom()));
            vstd::set_lib::lemma_len_subset(accounts@.dom(), self@.accounts.dom());
            vstd::set_lib::lemma_len_subset(known@.dom(), self@.sessions.dom());
        }
        let r = Mirror {
            limits: self.limits,
            retired: self.retired,
            factor_lifetime: self.factor_lifetime,
            next_factor: self.next_factor,
            hidden_accounts: self.accounts.len() - accounts.len(),
            hidden_sessions: self.sessions.len() - known.len(),
            accounts,
            sessions: known,
        };
        proof {
            assert(r@ =~= part);
            assert forall|id: u64| #[trigger] r@.accounts.contains_key(id) implies r@.account_wf(
                id,
            ) by {
                assert(self@.accounts.contains_key(id));
                assert(self@.account_wf(id));
            }
        }
        r
    }

    /// How many sessions the accounts own and how many they hold.
    pub fn totals(&self) -> (r: (u64, u64))
        requires
            self.wf(),
            accounting::accounted(self@),
        ensures
            r.0 == accounting::tally(self@.sessions, Role::Owned),
            r.1 == accounting::tally(self@.sessions, Role::Held),
    {
        let mut score: u64 = 0;
        let mut physical: u64 = 0;
        let mut index: usize = 0;
        let ghost mut seen: Set<u64> = Set::empty();
        proof {
            self.accounts.lemma_order();
            self.sessions.lemma_order();
            accounting::lemma_tally_total(self@);
        }
        while index < self.accounts.len()
            invariant
                self.wf(),
                accounting::accounted(self@),
                self@.sessions.len() <= usize::MAX,
                index <= self.accounts.order().len(),
                self.accounts.order().no_duplicates(),
                forall|id: u64| #[trigger]
                    seen.contains(id) <==> exists|i: int|
                        0 <= i < index && #[trigger] self.accounts.order()[i] == id,
                score == accounting::tally(self@.sessions, Role::ScoredIn(seen)),
                physical == accounting::tally(self@.sessions, Role::HeldIn(seen)),
            decreases self.accounts.order().len() - index,
        {
            let account = self.accounts.value_at(index);
            let ghost id = self.accounts.order()[index as int];
            proof {
                assert(self@.accounts.contains_key(id));
                assert(self@.account_wf(id));
                assert(!seen.contains(id));
                accounting::lemma_tally_grows(self@, seen, id);
                accounting::lemma_tally_bound(self@.sessions, Role::ScoredIn(seen.insert(id)));
                accounting::lemma_tally_bound(self@.sessions, Role::HeldIn(seen.insert(id)));
                let after = seen.insert(id);
                assert forall|k: u64| #[trigger] after.contains(k) <==> exists|i: int|
                    0 <= i < index + 1 && #[trigger] self.accounts.order()[i] == k by {
                    if seen.contains(k) {
                        let i = choose|i: int|
                            0 <= i < index && #[trigger] self.accounts.order()[i] == k;
                        assert(self.accounts.order()[i] == k);
                    }
                    if k == id {
                        assert(self.accounts.order()[index as int] == k);
                    }
                }
                seen = after;
            }
            score = score + account.counts.score();
            physical = physical + account.counts.active();
            index = index + 1;
        }
        proof {
            assert(seen =~= self@.accounts.dom()) by {
                assert forall|id: u64| seen.contains(id) <==> self@.accounts.contains_key(id) by {
                    if self@.accounts.contains_key(id) {
                        assert(self.accounts@.contains_key(id));
                        let i = self.accounts.order().index_of(id);
                        assert(self.accounts.order()[i] == id);
                    }
                }
            }
        }
        (score, physical)
    }

    /// A value-only snapshot of the ledger.
    pub fn snapshot(&self, local_owner: u64, status: Status, sequence: u64) -> (r: LedgerView)
        requires
            self.wf(),
        ensures
            r.lifecycle_only,
            r.local_owner == local_owner,
            r.status == status,
            r.compared_sequence == sequence,
            r.describes(self@),
    {
        let mut accounts: Vec<AccountView> = Vec::new();
        let mut index: usize = 0;
        proof {
            self.accounts.lemma_order();
            self.sessions.lemma_order();
        }
        while index < self.accounts.len()
            invariant
                self.wf(),
                index <= self.accounts.order().len(),
                accounts@.len() == index,
                forall|i: int|
                    0 <= i < index ==> (#[trigger] accounts@[i])@
                        == self@.accounts[self.accounts.order()[i]],
            decreases self.accounts.order().len() - index,
        {
            accounts.push(self.accounts.value_at(index).duplicate());
            index = index + 1;
        }
        let mut pending_redirects: Vec<u64> = Vec::new();
        let mut closing: Vec<u64> = Vec::new();
        let mut index: usize = 0;
        let ghost order = self.sessions.order();
        while index < self.sessions.len()
            invariant
                self.wf(),
                order == self.sessions.order(),
                index <= order.len(),
                ordered::ascending(order),
                forall|k: u64| #[trigger] self@.sessions.contains_key(k) <==> order.contains(k),
                ordered::ascending(pending_redirects@),
                ordered::ascending(closing@),
                forall|i: int|
                    0 <= i < pending_redirects@.len() ==> exists|j: int|
                        0 <= j < index && #[trigger] order[j]
                            == #[trigger] pending_redirects@[i],
                forall|i: int|
                    0 <= i < closing@.len() ==> exists|j: int|
                        0 <= j < index && #[trigger] order[j] == #[trigger] closing@[i],
                forall|i: int|
                    0 <= i < pending_redirects@.len() ==> self@.redirecting(
                        #[trigger] pending_redirects@[i],
                    ),
                forall|i: int|
                    0 <= i < closing@.len() ==> self@.is_closing(#[trigger] closing@[i]),
                forall|j: int|
                    0 <= j < index && self@.redirecting(#[trigger] order[j])
                        ==> pending_redirects@.contains(order[j]),
                forall|j: int|
                    0 <= j < index && self@.is_closing(#[trigger] order[j]) ==> closing@.contains(
                        order[j],
                    ),
            decreases order.len() - index,
        {
            let id = self.sessions.key_at(index);
            let state = self.sessions.value_at(index);
            let ghost redirects = pending_redirects@;
            let ghost closes = closing@;
            if state.redirect.is_some() {
                pending_redirects.push(id);
                assert(pending_redirects@[redirects.len() as int] == id);
            }
            if state.closing.is_some() {
                closing.push(id);
                assert(closing@[closes.len() as int] == id);
            }
            proof {
                assert forall|j: int|
                    0 <= j < index + 1 && self@.redirecting(
                        #[trigger] order[j],
                    ) implies pending_redirects@.contains(order[j]) by {
                    if j < index {
                        let at = redirects.index_of(order[j]);
                        assert(pending_redirects@[at] == redirects[at]);
                    }
                }
                assert forall|j: int|
                    0 <= j < index + 1 && self@.is_closing(
                        #[trigger] order[j],
                    ) implies closing@.contains(order[j]) by {
                    if j < index {
                        let at = closes.index_of(order[j]);
                        assert(closing@[at] == closes[at]);
                    }
                }
            }
            index = index + 1;
        }
        let r = LedgerView {
            lifecycle_only: true,
            local_owner,
            status,
            compared_sequence: sequence,
            factor_lifetime: self.factor_lifetime,
            accounts,
            pending_redirects,
            closing,
        };
        proof {
            assert forall|i: int| 0 <= i < r.accounts@.len() implies self@.accounts.contains_key(
                (#[trigger] r.accounts@[i]).id,
            ) && r.accounts@[i]@ == self@.accounts[r.accounts@[i].id] by {
                assert(self@.accounts.contains_key(self.accounts.order()[i]));
                assert(self@.account_wf(self.accounts.order()[i]));
            }
            assert forall|i: int, j: int| 0 <= i < j < r.accounts@.len() implies (
            #[trigger] r.accounts@[i]).id < (#[trigger] r.accounts@[j]).id by {
                assert(self@.account_wf(self.accounts.order()[i]));
                assert(self@.account_wf(self.accounts.order()[j]));
                assert(self.accounts.order()[i].before(self.accounts.order()[j]));
            }
            assert forall|id: u64| #[trigger] r.pending_redirects@.contains(id)
                <==> self@.redirecting(id) by {
                if self@.redirecting(id) {
                    assert(self@.sessions.contains_key(id));
                    let at = order.index_of(id);
                    assert(order[at] == id);
                }
                if r.pending_redirects@.contains(id) {
                    let at = r.pending_redirects@.index_of(id);
                    assert(r.pending_redirects@[at] == id);
                }
            }
            assert forall|id: u64| #[trigger] r.closing@.contains(id) <==> self@.is_closing(
                id,
            ) by {
                if self@.is_closing(id) {
                    assert(self@.sessions.contains_key(id));
                    let at = order.index_of(id);
                    assert(order[at] == id);
                }
                if r.closing@.contains(id) {
                    let at = r.closing@.index_of(id);
                    assert(r.closing@[at] == id);
                }
            }
        }
        r
    }

    /// Put the entries of a part back. All other history stays untouched.
    pub fn commit_caller(&mut self, staged: Mirror)
        requires
            old(self).wf(),
            staged.wf(),
            old(self)@.merged(staged@).wf(),
        ensures
            final(self).wf(),
            final(self)@ == old(self)@.merged(staged@),
    {
        self.accounts.absorb(staged.accounts);
        self.sessions.absorb(staged.sessions);
    }

    /// The bytes that a caller reserves before it copies one group and some
    /// sessions.
    pub fn caller_clone_charge(&self, group: u64, sessions: &[u64]) -> (r: Result<
        usize,
        InvalidReason,
    >)
        requires
            self.wf(),
        ensures
            self@.may_charge(group, sessions@, r),
    {
        if self.hidden_accounts != 0 || self.hidden_sessions != 0 {
            return Err(InvalidReason::Lifecycle);
        }
        if sessions.len() > 64 {
            return Err(InvalidReason::Capacity);
        }
        let mut index: usize = 0;
        while index < sessions.len()
            invariant
                index <= sessions@.len(),
                forall|i: int| 0 <= i < index ==> sessions@[i] != 0,
                forall|i: int, j: int|
                    0 <= i < j < index ==> sessions@[i] != sessions@[j],
                self@.hidden_accounts == 0,
                self@.hidden_sessions == 0,
                sessions@.len() <= 64,
            decreases sessions@.len() - index,
        {
            let id = sessions[index];
            if id == 0 {
                assert(sessions@.contains(0));
                return Err(InvalidReason::Identity);
            }
            let mut earlier: usize = 0;
            while earlier < index
                invariant
                    earlier <= index < sessions@.len(),
                    id == sessions@[index as int],
                    forall|i: int| 0 <= i < earlier ==> sessions@[i] != id,
                    self@.hidden_accounts == 0,
                    self@.hidden_sessions == 0,
                    sessions@.len() <= 64,
                decreases index - earlier,
            {
                if sessions[earlier] == id {
                    assert(!sessions@.no_duplicates());
                    return Err(InvalidReason::Identity);
                }
                earlier = earlier + 1;
            }
            index = index + 1;
        }
        assert(self@.fork_refusal(sessions@) is None);
        let ids = self.caller_account_ids(group);
        let mut slots: Vec<usize> = Vec::new();
        let mut index: usize = 0;
        while index < ids.len()
            invariant
                self.wf(),
                index <= ids@.len(),
                slots@.len() == index,
                forall|id: u64| #[trigger] ids@.contains(id) <==> self@.in_group(group, id),
                forall|i: int|
                    0 <= i < index ==> #[trigger] slots@[i] >= self@.accounts[ids@[i]].order.len(),
            decreases ids@.len() - index,
        {
            let id = ids[index];
            assert(ids@.contains(ids@[index as int]));
            let slot: usize = match self.accounts.get(id) {
                Some(account) => reserved_slots(&account.physical_order),
                None => 0,
            };
            slots.push(slot);
            index = index + 1;
        }
        ledger_clone_charge(&slots, sessions.len())
    }
}

/// How many elements a vector holds room for, by `Vec::capacity`. The
/// allocator decides, and the contract says only that the vector's own
/// elements have room.
#[verifier::external_body]
fn reserved_slots(order: &Vec<u64>) -> (r: usize)
    ensures
        r >= order@.len(),
{
    order.capacity()
}

/// The bytes of `sessions` copied sessions and of one copied account for each
/// number of slots. Four times an order's storage also covers a temporary
/// reallocation when a staged transition appends.
pub open spec fn clone_charge(slots: Seq<usize>, sessions: nat) -> nat
    decreases slots.len(),
{
    if slots.len() == 0 {
        vstd::layout::size_of::<Mirror>() + sessions * (16 * vstd::layout::size_of::<(u64, Session)>())
    } else {
        clone_charge(slots.drop_last(), sessions) + 16 * vstd::layout::size_of::<(u64, AccountView)>()
            + slots.last() as nat * (4 * vstd::layout::size_of::<u64>())
    }
}

/// A charge for at most 64 accounts and 64 sessions that a machine word holds.
pub open spec fn charge_result(slots: Seq<usize>, sessions: nat) -> Result<usize, InvalidReason> {
    if slots.len() > 64 || sessions > 64 || clone_charge(slots, sessions) > usize::MAX {
        Err(InvalidReason::Capacity)
    } else {
        Ok(clone_charge(slots, sessions) as usize)
    }
}

/// The charge for given storage sizes, if it fits a machine word and covers at
/// most 64 accounts and 64 sessions.
pub fn ledger_clone_charge(slots: &Vec<usize>, sessions: usize) -> (r: Result<
    usize,
    InvalidReason,
>)
    ensures
        r == charge_result(slots@, sessions as nat),
{
    broadcast use vstd::layout::layout_of_primitives;

    if slots.len() > 64 || sessions > 64 {
        return Err(InvalidReason::Capacity);
    }
    let per_session: u128 = 16 * core::mem::size_of::<(u64, Session)>() as u128;
    let per_account: u128 = 16 * core::mem::size_of::<(u64, AccountView)>() as u128;
    let per_slot: u128 = 4 * core::mem::size_of::<u64>() as u128;
    assert(sessions * per_session <= 1024 * 0x1_0000_0000_0000_0000) by (nonlinear_arith)
        requires
            sessions <= 64,
            per_session <= 16 * 0x1_0000_0000_0000_0000,
    ;
    let mut charge: u128 = core::mem::size_of::<Mirror>() as u128 + sessions as u128 * per_session;
    let mut index: usize = 0;
    assert(slots@.take(0) =~= Seq::<usize>::empty());
    while index < slots.len()
        invariant
            index <= slots@.len() <= 64,
            charge == clone_charge(slots@.take(index as int), sessions as nat),
            charge <= (1025 + 48 * index) * 0x1_0000_0000_0000_0000,
            per_account == 16 * vstd::layout::size_of::<(u64, AccountView)>(),
            per_account <= 16 * 0x1_0000_0000_0000_0000,
            per_slot == 4 * vstd::layout::size_of::<u64>(),
            per_slot == 32,
        decreases slots@.len() - index,
    {
        assert(slots@.take(index + 1).drop_last() =~= slots@.take(index as int));
        charge = charge + per_account + slots[index] as u128 * per_slot;
        index = index + 1;
    }
    assert(slots@.take(slots@.len() as int) =~= slots@);
    if charge > usize::MAX as u128 {
        Err(InvalidReason::Capacity)
    } else {
        Ok(charge as usize)
    }
}

} // verus!
