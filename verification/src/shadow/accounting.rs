//! The accounting law of a complete ledger: every counter of every account is
//! the number of retained sessions that it stands for.
use vstd::prelude::*;

use super::ledger;
use super::ledger::{
    AccountModel, CountsModel, Event, MirrorModel, Move, Reservation, Seat, Session, Shift, Tick,
};

verus! {

/// A part that a session can play in an account's counters.
pub enum Role {
    /// Physically held by an account.
    Active(u64),
    /// Reserved at an account.
    Reserved(u64),
    /// On its way to an account.
    Incoming(u64),
    /// On its way from an account.
    Outgoing(u64),
    /// Scored by an account.
    Scored(u64),
    /// Physically held by one of these accounts.
    HeldIn(Set<u64>),
    /// Scored by one of these accounts.
    ScoredIn(Set<u64>),
    /// Physically held.
    Held,
    /// Scored.
    Owned,
}

/// Whether a session plays a part.
pub open spec fn plays(state: Session, role: Role) -> bool {
    match role {
        Role::Active(id) => state.active == Some(id),
        Role::Reserved(id) => state.reservation matches Some(pending) && pending.account == id,
        Role::Incoming(id) => state.redirect matches Some(pending) && pending.target == id,
        Role::Outgoing(id) => state.redirect matches Some(pending) && pending.source == id,
        Role::Scored(id) => state.score_owner() == Some(id),
        Role::Held => state.active is Some,
        Role::Owned => state.score_owner() is Some,
        Role::HeldIn(ids) => state.active matches Some(id) && ids.contains(id),
        Role::ScoredIn(ids) => state.score_owner() matches Some(id) && ids.contains(id),
    }
}

/// The sessions that play a part.
pub open spec fn players(sessions: Map<u64, Session>, role: Role) -> Set<u64> {
    sessions.dom().filter(|id: u64| plays(sessions[id], role))
}

/// How many sessions play a part.
pub open spec fn tally(sessions: Map<u64, Session>, role: Role) -> nat {
    players(sessions, role).len()
}

/// One if a condition holds, else zero.
pub open spec fn one_if(condition: bool) -> int {
    if condition {
        1
    } else {
        0
    }
}

/// A tally changes only by the session that was written.
pub proof fn lemma_tally_insert(
    sessions: Map<u64, Session>,
    id: u64,
    state: Session,
    role: Role,
)
    requires
        sessions.dom().finite(),
    ensures
        tally(sessions.insert(id, state), role) == tally(sessions, role) - one_if(
            sessions.contains_key(id) && plays(sessions[id], role),
        ) + one_if(plays(state, role)),
{
    let before = players(sessions, role);
    let after = players(sessions.insert(id, state), role);
    sessions.dom().lemma_len_filter(|id: u64| plays(sessions[id], role));
    let rest = before.remove(id);
    if plays(state, role) {
        assert(after =~= rest.insert(id));
    } else {
        assert(after =~= rest);
    }
}

/// What a complete ledger says of one session.
pub open spec fn session_ok(m: MirrorModel, id: u64) -> bool {
    let state = m.sessions[id];
    &&& id != 0
    &&& state.closed ==> state.active is None && state.reservation is None && state.redirect is None
        && state.closing is None && state.reconnect is None
    &&& state.bound && !state.closed ==> state.active is Some
    &&& state.active matches Some(account) ==> {
        &&& state.bound
        &&& state.reservation is None
        &&& ledger::live(m.accounts, account)
        &&& m.accounts[account].order.contains(id)
    }
    &&& state.reservation matches Some(pending) ==> {
        &&& ledger::live(m.accounts, pending.account)
        &&& pending.operation == state.route_watermark
    }
    &&& state.redirect matches Some(pending) ==> {
        &&& state.active == Some(pending.source)
        &&& pending.source != pending.target
        &&& ledger::live(m.accounts, pending.target)
        &&& m.accounts[pending.source].group == m.accounts[pending.target].group
        &&& pending.operation == state.redirect_watermark
        &&& state.reconnect is None
    }
    &&& state.reconnect matches Some(operation) ==> state.active is Some && operation
        == state.redirect_watermark
    &&& state.closing matches Some(operation) ==> state.active is Some && operation
        == state.close_watermark
}

/// What a complete ledger says of one account.
pub open spec fn account_ok(m: MirrorModel, id: u64) -> bool {
    let account = m.accounts[id];
    &&& id != 0
    &&& account.group != 0
    &&& account.counts.active == tally(m.sessions, Role::Active(id))
    &&& account.counts.reserved == tally(m.sessions, Role::Reserved(id))
    &&& account.counts.incoming == tally(m.sessions, Role::Incoming(id))
    &&& account.counts.outgoing == tally(m.sessions, Role::Outgoing(id))
    &&& account.order.len() == account.counts.active
    &&& forall|session: u64| #[trigger]
        account.order.contains(session) ==> m.sessions.contains_key(session)
            && m.sessions[session].active == Some(id)
    &&& account.removed ==> account.counts == CountsModel::zero() && account.order.len() == 0
}

/// A complete ledger whose every counter is accounted for.
pub open spec fn accounted(m: MirrorModel) -> bool {
    &&& m.wf()
    &&& m.hidden_accounts == 0
    &&& m.hidden_sessions == 0
    &&& forall|id: u64| #[trigger] m.sessions.contains_key(id) ==> session_ok(m, id)
    &&& forall|id: u64| #[trigger] m.accounts.contains_key(id) ==> account_ok(m, id)
}

/// What one shift adds to the counters of an account.
pub open spec fn net(shift: Option<Shift>, id: u64) -> CountsModel {
    match shift {
        Some(shift) => if shift.account == id {
            CountsModel {
                active: shift.active.amount(),
                reserved: shift.reserved.amount(),
                incoming: shift.incoming.amount(),
                outgoing: shift.outgoing.amount(),
            }
        } else {
            CountsModel::zero()
        },
        None => CountsModel::zero(),
    }
}

/// The order of an account after a session left or joined it.
pub open spec fn moved(
    order: Seq<u64>,
    id: u64,
    remove: Option<Seat>,
    append: Option<Seat>,
) -> Seq<u64> {
    let left = if remove matches Some(seat) && seat.account == id {
        order.remove(order.index_of(remove->0.session))
    } else {
        order
    };
    if append matches Some(seat) && seat.account == id {
        left.push(append->0.session)
    } else {
        left
    }
}

/// Whether an account changed by exactly these shifts and seats.
pub open spec fn shifted_by(
    old: AccountModel,
    new: AccountModel,
    id: u64,
    first: Option<Shift>,
    second: Option<Shift>,
    remove: Option<Seat>,
    append: Option<Seat>,
) -> bool {
    let a = net(first, id);
    let b = net(second, id);
    &&& new.id == old.id
    &&& new.group == old.group
    &&& new.removed == old.removed
    &&& new.counts.active == old.counts.active + a.active + b.active
    &&& new.counts.reserved == old.counts.reserved + a.reserved + b.reserved
    &&& new.counts.incoming == old.counts.incoming + a.incoming + b.incoming
    &&& new.counts.outgoing == old.counts.outgoing + a.outgoing + b.outgoing
    &&& new.order == moved(old.order, id, remove, append)
}

/// Whether every account changed by exactly these shifts and seats.
pub open spec fn all_shifted_by(
    before: Map<u64, AccountModel>,
    after: Map<u64, AccountModel>,
    first: Option<Shift>,
    second: Option<Shift>,
    remove: Option<Seat>,
    append: Option<Seat>,
) -> bool {
    &&& after.dom() == before.dom()
    &&& forall|id: u64| #[trigger]
        before.contains_key(id) ==> shifted_by(
            before[id],
            after[id],
            id,
            first,
            second,
            remove,
            append,
        )
    &&& remove matches Some(seat) ==> ledger::live(before, seat.account)
        && before[seat.account].order.contains(seat.session)
    &&& append matches Some(seat) ==> ledger::live(before, seat.account)
}

/// What an accepted change does to each account.
pub proof fn lemma_change_effect(
    m: MirrorModel,
    first: Option<Shift>,
    second: Option<Shift>,
    remove: Option<Seat>,
    append: Option<Seat>,
)
    requires
        m.wf(),
    ensures
        m.change(first, second, remove, append) matches Ok(accounts) ==> all_shifted_by(
            m.accounts,
            accounts,
            first,
            second,
            remove,
            append,
        ),
{
    reveal(MirrorModel::change);
    ledger::lemma_change_wf(m, first, second, remove, append);
    if let Ok(accounts) = m.change(first, second, remove, append) {
        let once = ledger::counted(m.accounts, first)->Ok_0;
        let twice = ledger::counted(once, second)->Ok_0;
        let left = ledger::unseated(twice, remove);
        assert(accounts == ledger::seated(left, append));
        assert forall|id: u64| #[trigger] m.accounts.contains_key(id) implies shifted_by(
            m.accounts[id],
            accounts[id],
            id,
            first,
            second,
            remove,
            append,
        ) by {
            lemma_counted_effect(m.accounts, first, id);
            lemma_counted_effect(once, second, id);
            assert(left[id].order == moved(twice[id].order, id, remove, None));
            assert(accounts[id].order == moved(twice[id].order, id, remove, append));
        }
    }
}

/// What one shift does to an account.
proof fn lemma_counted_effect(accounts: Map<u64, AccountModel>, shift: Option<Shift>, id: u64)
    requires
        accounts.contains_key(id),
    ensures
        ledger::counted(accounts, shift) matches Ok(next) ==> next.contains_key(id) && shifted_by(
            accounts[id],
            next[id],
            id,
            shift,
            None,
            None,
            None,
        ),
{
}

/// Whether shifts and seats are exactly what one session's change of state implies.
pub open spec fn balanced(
    before: Option<Session>,
    after: Session,
    session: u64,
    first: Option<Shift>,
    second: Option<Shift>,
    remove: Option<Seat>,
    append: Option<Seat>,
) -> bool {
    let held = match before {
        Some(state) => state.active,
        None => None,
    };
    &&& forall|id: u64|
        #![trigger net(first, id)]
        {
            let a = net(first, id);
            let b = net(second, id);
            &&& a.active + b.active == one_if(plays(after, Role::Active(id))) - one_if(
                before is Some && plays(before->0, Role::Active(id)),
            )
            &&& a.reserved + b.reserved == one_if(plays(after, Role::Reserved(id))) - one_if(
                before is Some && plays(before->0, Role::Reserved(id)),
            )
            &&& a.incoming + b.incoming == one_if(plays(after, Role::Incoming(id))) - one_if(
                before is Some && plays(before->0, Role::Incoming(id)),
            )
            &&& a.outgoing + b.outgoing == one_if(plays(after, Role::Outgoing(id))) - one_if(
                before is Some && plays(before->0, Role::Outgoing(id)),
            )
        }
    &&& remove matches Some(seat) ==> held == Some(seat.account) && seat.session == session
    &&& append matches Some(seat) ==> after.active == Some(seat.account) && seat.session == session
    &&& held == after.active ==> (remove is Some <==> append is Some)
    &&& held != after.active ==> (remove is Some <==> held is Some) && (append is Some
        <==> after.active is Some)
}

/// The retained state of a session.
pub open spec fn state_of(m: MirrorModel, session: u64) -> Option<Session> {
    if m.sessions.contains_key(session) {
        Some(m.sessions[session])
    } else {
        None
    }
}

/// Who is in an order after a session left or joined it.
proof fn lemma_moved(order: Seq<u64>, id: u64, remove: Option<Seat>, append: Option<Seat>)
    requires
        order.no_duplicates(),
        remove matches Some(seat) ==> (seat.account == id ==> order.contains(seat.session)),
    ensures
        forall|x: u64| #[trigger]
            moved(order, id, remove, append).contains(x) <==> {
                ||| append matches Some(seat) && seat.account == id && seat.session == x
                ||| order.contains(x) && !(remove matches Some(seat) && seat.account == id
                    && seat.session == x)
            },
{
    let after = moved(order, id, remove, append);
    let (left, at) = if remove matches Some(seat) && seat.account == id {
        (order.remove(order.index_of(remove->0.session)), order.index_of(remove->0.session))
    } else {
        (order, order.len() as int)
    };
    if remove matches Some(seat) && seat.account == id {
        assert(order.contains(remove->0.session));
        assert(order[at] == remove->0.session);
    }
    assert forall|x: u64| left.contains(x) <==> order.contains(x) && !(remove matches Some(seat)
        && seat.account == id && seat.session == x) by {
        if left.contains(x) {
            let k = left.index_of(x);
            assert(left[k] == x);
            if k < at {
                assert(order[k] == x);
            } else {
                assert(order[k + 1] == x);
            }
        }
        if order.contains(x) && !(remove matches Some(seat) && seat.account == id && seat.session
            == x) {
            let k = order.index_of(x);
            assert(order[k] == x);
            if k < at {
                assert(left[k] == x);
            } else {
                assert(left[k - 1] == x);
            }
        }
    }
    assert forall|x: u64| #[trigger] after.contains(x) <==> {
        ||| append matches Some(seat) && seat.account == id && seat.session == x
        ||| left.contains(x)
    } by {
        if append matches Some(seat) && seat.account == id {
            assert(after == left.push(append->0.session));
            assert(after[left.len() as int] == append->0.session);
            if left.contains(x) {
                let k = left.index_of(x);
                assert(after[k] == x);
            }
            if after.contains(x) {
                let k = after.index_of(x);
                assert(after[k] == x);
                if k < left.len() {
                    assert(left[k] == x);
                }
            }
        }
    }
}

/// A balanced change of one session keeps one account's counters right.
proof fn lemma_account_kept(
    m: MirrorModel,
    n: MirrorModel,
    id: u64,
    session: u64,
    state: Session,
    first: Option<Shift>,
    second: Option<Shift>,
    remove: Option<Seat>,
    append: Option<Seat>,
)
    requires
        m.sessions.dom().finite(),
        m.account_wf(id),
        account_ok(m, id),
        m.accounts.contains_key(id),
        n.sessions == m.sessions.insert(session, state),
        all_shifted_by(m.accounts, n.accounts, first, second, remove, append),
        balanced(state_of(m, session), state, session, first, second, remove, append),
        !m.accounts[id].removed || net(first, id) == CountsModel::zero() && net(second, id)
            == CountsModel::zero(),
    ensures
        account_ok(n, id),
        state.active == Some(id) && (m.sessions.contains_key(session) ==> session_ok(m, session))
            ==> n.accounts[id].order.contains(session),
{
    let old = m.accounts[id];
    let new = n.accounts[id];
    assert(shifted_by(old, new, id, first, second, remove, append));
    lemma_tally_insert(m.sessions, session, state, Role::Active(id));
    lemma_tally_insert(m.sessions, session, state, Role::Reserved(id));
    lemma_tally_insert(m.sessions, session, state, Role::Incoming(id));
    lemma_tally_insert(m.sessions, session, state, Role::Outgoing(id));
    assert(net(first, id) == net(first, id));
    lemma_moved(old.order, id, remove, append);
}

/// A balanced change of one session leaves what is known of another.
proof fn lemma_session_kept(
    m: MirrorModel,
    n: MirrorModel,
    id: u64,
    session: u64,
    state: Session,
    first: Option<Shift>,
    second: Option<Shift>,
    remove: Option<Seat>,
    append: Option<Seat>,
)
    requires
        m.wf(),
        id != session,
        m.sessions.contains_key(id),
        session_ok(m, id),
        n.sessions == m.sessions.insert(session, state),
        all_shifted_by(m.accounts, n.accounts, first, second, remove, append),
        balanced(state_of(m, session), state, session, first, second, remove, append),
    ensures
        session_ok(n, id),
{
    if let Some(account) = m.sessions[id].active {
        assert(m.accounts.contains_key(account));
        assert(m.account_wf(account));
        assert(shifted_by(
            m.accounts[account],
            n.accounts[account],
            account,
            first,
            second,
            remove,
            append,
        ));
        lemma_moved(m.accounts[account].order, account, remove, append);
    }
}

/// A balanced change of one session keeps a complete ledger accounted for.
proof fn lemma_settle_accounted(
    m: MirrorModel,
    session: u64,
    state: Session,
    first: Option<Shift>,
    second: Option<Shift>,
    remove: Option<Seat>,
    append: Option<Seat>,
)
    requires
        accounted(m),
        m.sessions.contains_key(session) || m.sessions.len() < m.limits.sessions,
        balanced(state_of(m, session), state, session, first, second, remove, append),
    ensures
        m.settle(session, state, first, second, remove, append) matches Ok((n, _)) ==> {
            &&& all_shifted_by(m.accounts, n.accounts, first, second, remove, append)
            &&& state.active matches Some(id) ==> (m.accounts.contains_key(id)
                ==> n.accounts[id].order.contains(session))
            &&& session_ok(n, session) ==> accounted(n)
        },
{
    if let Ok((n, _)) = m.settle(session, state, first, second, remove, append) {
        ledger::lemma_settle_wf(m, session, state, first, second, remove, append);
        lemma_change_effect(m, first, second, remove, append);
        lemma_unmoved_tombstones(m, first, second, remove, append);
        assert forall|id: u64| #[trigger] m.accounts.contains_key(id) implies account_ok(n, id) && (
        state.active == Some(id) ==> n.accounts[id].order.contains(session)) by {
            assert(m.account_wf(id));
            lemma_account_kept(m, n, id, session, state, first, second, remove, append);
        }
        assert forall|id: u64| #[trigger] n.sessions.contains_key(id) && id
            != session implies session_ok(n, id) by {
            assert(m.sessions.contains_key(id));
            lemma_session_kept(m, n, id, session, state, first, second, remove, append);
        }
    }
}

/// An accepted change moves no counter of a removed account.
proof fn lemma_unmoved_tombstones(
    m: MirrorModel,
    first: Option<Shift>,
    second: Option<Shift>,
    remove: Option<Seat>,
    append: Option<Seat>,
)
    requires
        m.wf(),
        m.change(first, second, remove, append) is Ok,
    ensures
        forall|id: u64| #[trigger]
            m.accounts.contains_key(id) && m.accounts[id].removed ==> net(first, id)
                == CountsModel::zero() && net(second, id) == CountsModel::zero(),
{
    reveal(MirrorModel::change);
}

/// Opening keeps the accounting.
proof fn lemma_open_session(m: MirrorModel, id: u64)
    requires
        accounted(m),
    ensures
        m.open_session(id) matches Ok((n, _)) ==> accounted(n),
{
    if m.open_session(id) is Ok {
        lemma_settle_accounted(m, id, Session::fresh(), None, None, None, None);
    }
}

/// Reserving keeps the accounting.
proof fn lemma_reserve(m: MirrorModel, session: u64, operation: u64, account: u64)
    requires
        accounted(m),
    ensures
        m.reserve(session, operation, account) matches Ok((n, _)) ==> accounted(n),
{
    reveal(MirrorModel::change);
    if m.reserve(session, operation, account) is Ok {
        let state = m.sessions[session];
        assert(session_ok(m, session));
        let next = Session {
            reservation: Some(Reservation { operation, account }),
            route_watermark: operation,
            ..state
        };
        let shift = Some(
            Shift {
                account: account,
                active: Tick::Same,
                reserved: Tick::Up,
                incoming: Tick::Same,
                outgoing: Tick::Same,
            },
        );
        lemma_settle_accounted(m, session, next, shift, None, None, None);
    }
}

/// A create result keeps the accounting.
proof fn lemma_created(m: MirrorModel, session: u64, operation: u64, success: bool)
    requires
        accounted(m),
    ensures
        m.created(session, operation, success) matches Ok((n, _)) ==> accounted(n),
{
    if m.created(session, operation, success) is Ok && m.sessions[session].reservation is Some
        && m.sessions[session].reservation->0.operation == operation {
        let state = m.sessions[session];
        assert(session_ok(m, session));
        let pending = state.reservation->0;
        let next = Session {
            reservation: None,
            bound: state.bound || success,
            active: if success {
                Some(pending.account)
            } else {
                state.active
            },
            ..state
        };
        let shift = Some(
            Shift {
                account: pending.account,
                active: if success { Tick::Up } else { Tick::Same },
                reserved: Tick::Down,
                incoming: Tick::Same,
                outgoing: Tick::Same,
            },
        );
        let seat = if success {
            Some(Seat { account: pending.account, session })
        } else {
            None
        };
        lemma_settle_accounted(m, session, next, shift, None, None, seat);
    }
}

/// A redirect keeps the accounting.
proof fn lemma_redirect(m: MirrorModel, session: u64, operation: u64, target: u64)
    requires
        accounted(m),
    ensures
        m.redirect(session, operation, target) matches Ok((n, _)) ==> accounted(n),
{
    if m.redirect(session, operation, target) is Ok {
        let state = m.sessions[session];
        assert(session_ok(m, session));
        let source = state.active->0;
        let next = Session {
            redirect: Some(Move { operation, source, target }),
            redirect_watermark: operation,
            ..state
        };
        let leaving = Some(
            Shift {
                account: source,
                active: Tick::Same,
                reserved: Tick::Same,
                incoming: Tick::Same,
                outgoing: Tick::Up,
            },
        );
        let arriving = Some(
            Shift {
                account: target,
                active: Tick::Same,
                reserved: Tick::Same,
                incoming: Tick::Up,
                outgoing: Tick::Same,
            },
        );
        lemma_settle_accounted(m, session, next, leaving, arriving, None, None);
    }
}

/// A reconnect terminal keeps the accounting.
proof fn lemma_reconnected(m: MirrorModel, session: u64, operation: u64, success: bool)
    requires
        accounted(m),
    ensures
        m.reconnected(session, operation, success) matches Ok((n, _)) ==> accounted(n),
{
    if m.reconnected(session, operation, success) is Ok && m.sessions[session].reconnect == Some(
        operation,
    ) {
        let state = m.sessions[session];
        assert(session_ok(m, session));
        let seat = if success {
            Some(Seat { account: state.active->0, session })
        } else {
            None
        };
        let next = Session { reconnect: None, ..state };
        lemma_settle_accounted(m, session, next, None, None, seat, seat);
    }
}

/// A redirect terminal keeps the accounting.
proof fn lemma_redirected(m: MirrorModel, session: u64, operation: u64, success: bool)
    requires
        accounted(m),
    ensures
        m.redirected(session, operation, success) matches Ok((n, _)) ==> accounted(n),
{
    lemma_reconnected(m, session, operation, success);
    if m.redirected(session, operation, success) is Ok && m.sessions[session].reconnect is None
        && m.sessions[session].redirect is Some && m.sessions[session].redirect->0.operation
        == operation {
        let state = m.sessions[session];
        assert(session_ok(m, session));
        let pending = state.redirect->0;
        let next = Session {
            redirect: None,
            active: if success {
                Some(pending.target)
            } else {
                state.active
            },
            ..state
        };
        let leaving = Some(
            Shift {
                account: pending.source,
                active: if success { Tick::Down } else { Tick::Same },
                reserved: Tick::Same,
                incoming: Tick::Same,
                outgoing: Tick::Down,
            },
        );
        let arriving = Some(
            Shift {
                account: pending.target,
                active: if success { Tick::Up } else { Tick::Same },
                reserved: Tick::Same,
                incoming: Tick::Down,
                outgoing: Tick::Same,
            },
        );
        let remove = if success {
            Some(Seat { account: pending.source, session })
        } else {
            None
        };
        let append = if success {
            Some(Seat { account: pending.target, session })
        } else {
            None
        };
        lemma_settle_accounted(m, session, next, leaving, arriving, remove, append);
    }
}

/// A force-close keeps the accounting.
proof fn lemma_start_closing(m: MirrorModel, session: u64, operation: u64)
    requires
        accounted(m),
    ensures
        m.start_closing(session, operation) matches Ok((n, _)) ==> accounted(n),
{
    if m.start_closing(session, operation) is Ok {
        let state = m.sessions[session];
        assert(session_ok(m, session));
        let next = Session { closing: Some(operation), close_watermark: operation, ..state };
        lemma_settle_accounted(m, session, next, None, None, None, None);
    }
}

/// A close keeps the accounting.
proof fn lemma_close(m: MirrorModel, session: u64)
    requires
        accounted(m),
    ensures
        m.close(session) matches Ok((n, _)) ==> accounted(n),
{
    if m.close(session) is Ok && !m.sessions[session].closed {
        let state = m.sessions[session];
        assert(session_ok(m, session));
        let next = state.after_close();
        if let Some(pending) = state.reservation {
            let shift = Some(
            Shift {
                account: pending.account,
                active: Tick::Same,
                reserved: Tick::Down,
                incoming: Tick::Same,
                outgoing: Tick::Same,
            },
        );
            lemma_settle_accounted(m, session, next, shift, None, None, None);
        } else if let Some(pending) = state.redirect {
            let leaving = Some(
            Shift {
                account: pending.source,
                active: Tick::Down,
                reserved: Tick::Same,
                incoming: Tick::Same,
                outgoing: Tick::Down,
            },
        );
            let arriving = Some(
            Shift {
                account: pending.target,
                active: Tick::Same,
                reserved: Tick::Same,
                incoming: Tick::Down,
                outgoing: Tick::Same,
            },
        );
            let remove = Some(Seat { account: pending.source, session });
            lemma_settle_accounted(m, session, next, leaving, arriving, remove, None);
        } else if let Some(account) = state.active {
            let shift = Some(
            Shift {
                account: account,
                active: Tick::Down,
                reserved: Tick::Same,
                incoming: Tick::Same,
                outgoing: Tick::Same,
            },
        );
            let remove = Some(Seat { account, session });
            lemma_settle_accounted(m, session, next, shift, None, remove, None);
        } else {
            lemma_settle_accounted(m, session, next, None, None, None, None);
        }
    }
}

/// Rehydration keeps the accounting.
proof fn lemma_rehydrate(m: MirrorModel, session: u64, account: u64)
    requires
        accounted(m),
    ensures
        m.rehydrate(session, account) matches Ok((n, _)) ==> accounted(n),
{
    if m.rehydrate(session, account) is Ok {
        let next = Session { bound: true, active: Some(account), ..Session::fresh() };
        let shift = Some(
            Shift {
                account: account,
                active: Tick::Up,
                reserved: Tick::Same,
                incoming: Tick::Same,
                outgoing: Tick::Same,
            },
        );
        lemma_settle_accounted(
            m,
            session,
            next,
            shift,
            None,
            None,
            Some(Seat { account, session }),
        );
    }
}

/// The end of a selection keeps the accounting.
pub proof fn lemma_selection_done(m: MirrorModel, id: u64)
    requires
        accounted(m),
    ensures
        m.selection_done(id) matches Ok((n, _)) ==> accounted(n),
{
    if m.selection_done(id) is Ok {
        assert(session_ok(m, id));
        let next = Session { closed: true, ..m.sessions[id] };
        lemma_settle_accounted(m, id, next, None, None, None, None);
    }
}

/// An administrative reconnect keeps the accounting.
pub proof fn lemma_reconnect(m: MirrorModel, id: u64, operation: u64, account: u64)
    requires
        accounted(m),
    ensures
        m.reconnect(id, operation, account) matches Ok((n, _)) ==> accounted(n),
{
    if m.reconnect(id, operation, account) is Ok {
        assert(session_ok(m, id));
        let next = Session {
            reconnect: Some(operation),
            redirect_watermark: operation,
            ..m.sessions[id]
        };
        lemma_settle_accounted(m, id, next, None, None, None, None);
    }
}

/// A part that nobody plays has an empty tally, and conversely.
proof fn lemma_no_players(sessions: Map<u64, Session>, role: Role)
    requires
        sessions.dom().finite(),
    ensures
        tally(sessions, role) == 0 <==> forall|id: u64| #[trigger]
            sessions.contains_key(id) ==> !plays(sessions[id], role),
{
    let set = players(sessions, role);
    sessions.dom().lemma_len_filter(|id: u64| plays(sessions[id], role));
    if set.len() == 0 {
        assert forall|id: u64| #[trigger] sessions.contains_key(id) implies !plays(
            sessions[id],
            role,
        ) by {
            if plays(sessions[id], role) {
                assert(set.contains(id));
                assert(set.remove(id).len() < set.len());
            }
        }
    } else {
        let id = set.choose();
        assert(set.contains(id));
        assert(sessions.contains_key(id));
    }
}

/// A fresh account keeps the accounting.
proof fn lemma_create_account(m: MirrorModel, id: u64, group: u64)
    requires
        accounted(m),
    ensures
        m.create_account(id, group) matches Ok((n, _)) ==> accounted(n),
{
    if let Ok((n, _)) = m.create_account(id, group) {
        assert forall|x: u64| #[trigger] n.sessions.contains_key(x) implies session_ok(n, x) by {
            assert(session_ok(m, x));
        }
        lemma_no_players(m.sessions, Role::Active(id));
        lemma_no_players(m.sessions, Role::Reserved(id));
        lemma_no_players(m.sessions, Role::Incoming(id));
        lemma_no_players(m.sessions, Role::Outgoing(id));
        assert forall|x: u64| #[trigger] m.sessions.contains_key(x) implies !plays(
            m.sessions[x],
            Role::Active(id),
        ) && !plays(m.sessions[x], Role::Reserved(id)) && !plays(m.sessions[x], Role::Incoming(id))
            && !plays(m.sessions[x], Role::Outgoing(id)) by {
            assert(session_ok(m, x));
        }
        assert forall|x: u64| #[trigger] n.accounts.contains_key(x) implies account_ok(n, x)
            && n.account_wf(x) by {
            if x != id {
                assert(m.accounts.contains_key(x));
                assert(account_ok(m, x));
                assert(m.account_wf(x));
            }
        }
    }
}

/// A removal keeps the accounting.
proof fn lemma_remove_account(m: MirrorModel, id: u64)
    requires
        accounted(m),
    ensures
        m.remove_account(id) matches Ok((n, _)) ==> accounted(n),
{
    if let Ok((n, _)) = m.remove_account(id) {
        assert(account_ok(m, id));
        lemma_no_players(m.sessions, Role::Active(id));
        lemma_no_players(m.sessions, Role::Reserved(id));
        lemma_no_players(m.sessions, Role::Incoming(id));
        assert forall|x: u64| #[trigger] n.sessions.contains_key(x) implies session_ok(n, x) by {
            assert(m.sessions.contains_key(x));
            assert(session_ok(m, x));
            assert(!plays(m.sessions[x], Role::Active(id)));
            assert(!plays(m.sessions[x], Role::Reserved(id)));
            assert(!plays(m.sessions[x], Role::Incoming(id)));
        }
        assert(n.accounts.dom() =~= m.accounts.dom());
        assert forall|x: u64| #[trigger] n.accounts.contains_key(x) implies account_ok(n, x)
            && n.account_wf(x) by {
            assert(m.accounts.contains_key(x));
            assert(account_ok(m, x));
            assert(m.account_wf(x));
        }
    }
}

/// Nothing but accounts and sessions matters to the accounting.
proof fn lemma_same_population(m: MirrorModel, n: MirrorModel)
    requires
        accounted(m),
        n.accounts == m.accounts,
        n.sessions == m.sessions,
        n.limits == m.limits,
        n.hidden_accounts == m.hidden_accounts,
        n.hidden_sessions == m.hidden_sessions,
    ensures
        accounted(n),
{
    assert forall|x: u64| #[trigger] n.sessions.contains_key(x) implies session_ok(n, x) by {
        assert(m.sessions.contains_key(x));
        assert(session_ok(m, x));
    }
    assert forall|x: u64| #[trigger] n.accounts.contains_key(x) implies account_ok(n, x)
        && n.account_wf(x) by {
        assert(m.accounts.contains_key(x));
        assert(account_ok(m, x));
        assert(m.account_wf(x));
    }
}

/// An empty ledger is accounted for.
pub proof fn lemma_empty_accounted(limits: super::Limits)
    ensures
        accounted(MirrorModel::empty(limits)),
{
}

/// Every accepted event keeps every counter equal to the number of retained
/// sessions that it stands for.
pub proof fn law_apply_keeps_accounting(m: MirrorModel, event: Event)
    requires
        accounted(m),
    ensures
        m.apply(event) matches Ok((n, _)) ==> accounted(n),
{
    if let Ok((n, _)) = m.apply(event) {
        match event {
            Event::Begin => {},
            Event::Policy(_) => lemma_same_population(m, n),
            Event::Account { id, group } => lemma_create_account(m, id, group),
            Event::RemoveAccount(id) => lemma_remove_account(m, id),
            Event::Open(id) => lemma_open_session(m, id),
            Event::Reserve { session, operation, account } => lemma_reserve(
                m,
                session,
                operation,
                account,
            ),
            Event::Created { session, operation, success } => lemma_created(
                m,
                session,
                operation,
                success,
            ),
            Event::Redirect { session, operation, target } => lemma_redirect(
                m,
                session,
                operation,
                target,
            ),
            Event::Redirected { session, operation, success } => lemma_redirected(
                m,
                session,
                operation,
                success,
            ),
            Event::Closing { session, operation } => lemma_start_closing(m, session, operation),
            Event::Closed(session) => lemma_close(m, session),
            Event::Rehydrate { session, account } => lemma_rehydrate(m, session, account),
            Event::Rejected { session } => {},
            Event::Retire => lemma_same_population(m, n),
            Event::End => {},
            Event::Watermark => {},
        }
    }
}

/// A session that plays a part is counted.
proof fn lemma_counted_player(sessions: Map<u64, Session>, id: u64, role: Role)
    requires
        sessions.dom().finite(),
        sessions.contains_key(id),
        plays(sessions[id], role),
    ensures
        tally(sessions, role) >= 1,
{
    lemma_no_players(sessions, role);
}

/// A session that does not play a part leaves room for it.
proof fn lemma_room(sessions: Map<u64, Session>, id: u64, role: Role)
    requires
        sessions.dom().finite(),
        sessions.contains_key(id),
        !plays(sessions[id], role),
    ensures
        tally(sessions, role) < sessions.len(),
{
    let set = players(sessions, role);
    sessions.dom().lemma_len_filter(|id: u64| plays(sessions[id], role));
    assert(set.subset_of(sessions.dom().remove(id)));
    vstd::set_lib::lemma_len_subset(set, sessions.dom().remove(id));
}

/// Redirects from an account leave connections that it holds, and a session
/// that it holds without a redirect is one more.
proof fn lemma_still_held(m: MirrorModel, session: u64, account: u64)
    requires
        accounted(m),
        m.sessions.contains_key(session),
        m.sessions[session].active == Some(account),
        m.sessions[session].redirect is None,
    ensures
        tally(m.sessions, Role::Outgoing(account)) < tally(m.sessions, Role::Active(account)),
{
    let held = players(m.sessions, Role::Active(account));
    let leaving = players(m.sessions, Role::Outgoing(account));
    m.sessions.dom().lemma_len_filter(|id: u64| plays(m.sessions[id], Role::Active(account)));
    assert forall|id: u64| leaving.contains(id) implies held.remove(session).contains(id) by {
        assert(m.sessions.contains_key(id));
        assert(session_ok(m, id));
    }
    vstd::set_lib::lemma_len_subset(leaving, held.remove(session));
    assert(held.contains(session));
}

/// In a complete ledger a terminal of a retained session is never refused: a
/// create result, a redirect result and a close always settle or are ignored.
/// The one exception is a successful reconnect of a session on an account
/// whose physical order already fills the session limit.
pub proof fn law_terminals_settle(m: MirrorModel, session: u64, operation: u64, success: bool)
    requires
        accounted(m),
        m.sessions.contains_key(session),
        m.sessions[session].reconnect == Some(operation) && success ==> m.order_of(session).len()
            < m.limits.sessions,
    ensures
        m.apply(Event::Created { session, operation, success }) is Ok,
        m.apply(Event::Redirected { session, operation, success }) is Ok,
        m.apply(Event::Closed(session)) is Ok,
        m.apply(Event::Rejected { session }) is Ok,
{
    reveal(MirrorModel::change);
    let state = m.sessions[session];
    assert(session_ok(m, session));
    if let Some(pending) = state.reservation {
        let account = pending.account;
        assert(account_ok(m, account) && m.account_wf(account));
        lemma_counted_player(m.sessions, session, Role::Reserved(account));
        lemma_room(m.sessions, session, Role::Active(account));
    }
    if let Some(account) = state.active {
        assert(account_ok(m, account) && m.account_wf(account));
        lemma_counted_player(m.sessions, session, Role::Active(account));
        assert(tally(m.sessions, Role::Active(account)) <= m.sessions.len()) by {
            m.sessions.dom().lemma_len_filter(
                |id: u64| plays(m.sessions[id], Role::Active(account)),
            );
        }
        if state.redirect is None {
            lemma_still_held(m, session, account);
        }
        if let Some(pending) = state.redirect {
            let target = pending.target;
            assert(account_ok(m, target) && m.account_wf(target));
            lemma_counted_player(m.sessions, session, Role::Outgoing(account));
            lemma_counted_player(m.sessions, session, Role::Incoming(target));
            lemma_room(m.sessions, session, Role::Active(target));
        }
    }
}

/// A close settles once: a later close, create result or redirect result of
/// the session changes nothing.
pub proof fn law_close_settles_once(
    m: MirrorModel,
    session: u64,
    operation: u64,
    success: bool,
)
    requires
        accounted(m),
        m.sessions.contains_key(session),
    ensures
        m.apply(Event::Closed(session)) matches Ok((n, _)) && {
            &&& n.sessions[session].closed
            &&& n.apply(Event::Closed(session)) == Ok::<_, super::InvalidReason>(
                (n, ledger::Transition::Ignored),
            )
            &&& n.apply(Event::Created { session, operation, success }) == Ok::<
                _,
                super::InvalidReason,
            >((n, ledger::Transition::Ignored))
            &&& n.apply(Event::Redirected { session, operation, success }) == Ok::<
                _,
                super::InvalidReason,
            >((n, ledger::Transition::Ignored))
        },
{
    law_terminals_settle(m, session, 0, false);
    law_apply_keeps_accounting(m, Event::Closed(session));
    let n = m.apply(Event::Closed(session))->Ok_0.0;
    assert(n.sessions.contains_key(session));
    assert(session_ok(m, session));
    assert(session_ok(n, session));
}

/// An owner ends cleanly exactly when it has retired and every retained
/// session has closed: no counter can be left over.
pub proof fn law_end_when_sessions_closed(m: MirrorModel)
    requires
        accounted(m),
    ensures
        m.apply(Event::End) is Ok <==> m.retired && forall|id: u64| #[trigger]
            m.sessions.contains_key(id) ==> m.sessions[id].closed,
{
    if m.retired && forall|id: u64| #[trigger]
        m.sessions.contains_key(id) ==> m.sessions[id].closed {
        assert forall|id: u64| #[trigger] m.accounts.contains_key(id) implies m.accounts[id].counts
            == CountsModel::zero() by {
            assert(account_ok(m, id));
            assert forall|x: u64| #[trigger] m.sessions.contains_key(x) implies session_ok(
                m,
                x,
            ) by {}
            lemma_no_players(m.sessions, Role::Active(id));
            lemma_no_players(m.sessions, Role::Reserved(id));
            lemma_no_players(m.sessions, Role::Incoming(id));
            lemma_no_players(m.sessions, Role::Outgoing(id));
        }
    }
}

/// Whether a later ledger still holds all of an earlier one's history:
/// accounts and sessions stay, a removed account stays removed, a closed
/// session stays closed and a retired owner stays retired.
pub open spec fn retained(m: MirrorModel, n: MirrorModel) -> bool {
    &&& n.limits == m.limits
    &&& m.retired ==> n.retired
    &&& forall|id: u64| #[trigger]
        m.accounts.contains_key(id) ==> n.accounts.contains_key(id) && (m.accounts[id].removed
            ==> n.accounts[id].removed) && n.accounts[id].group == m.accounts[id].group
    &&& forall|id: u64| #[trigger]
        m.sessions.contains_key(id) ==> n.sessions.contains_key(id) && (m.sessions[id].closed
            ==> n.sessions[id].closed)
}

proof fn lemma_settle_retains(
    m: MirrorModel,
    session: u64,
    state: Session,
    first: Option<Shift>,
    second: Option<Shift>,
    remove: Option<Seat>,
    append: Option<Seat>,
)
    requires
        m.wf(),
        m.sessions.contains_key(session) && m.sessions[session].closed ==> state.closed,
    ensures
        m.settle(session, state, first, second, remove, append) matches Ok((n, _)) ==> retained(
            m,
            n,
        ),
{
    lemma_change_effect(m, first, second, remove, append);
}

/// No accepted event evicts history.
pub proof fn law_history_is_retained(m: MirrorModel, event: Event)
    requires
        m.wf(),
    ensures
        m.apply(event) matches Ok((n, _)) ==> retained(m, n),
{
    if let Ok((n, _)) = m.apply(event) {
        assert forall|
            session: u64,
            state: Session,
            first: Option<Shift>,
            second: Option<Shift>,
            remove: Option<Seat>,
            append: Option<Seat>,
        |
            (#[trigger] m.settle(session, state, first, second, remove, append)) is Ok && (
            m.sessions.contains_key(session) && m.sessions[session].closed
                ==> state.closed) implies retained(
            m,
            m.settle(session, state, first, second, remove, append)->Ok_0.0,
        ) by {
            lemma_settle_retains(m, session, state, first, second, remove, append);
        }
        match event {
            Event::Created { session, operation, success } => {
                assert(retained(m, n));
            },
            Event::Redirected { session, operation, success } => {
                assert(retained(m, n));
            },
            Event::Closed(session) => {
                assert(retained(m, n));
            },
            _ => {
                assert(retained(m, n));
            },
        }
    }
}

/// A tally never exceeds the number of sessions.
pub proof fn lemma_tally_bound(sessions: Map<u64, Session>, role: Role)
    requires
        sessions.dom().finite(),
    ensures
        tally(sessions, role) <= sessions.len(),
        players(sessions, role).finite(),
{
    sessions.dom().lemma_len_filter(|id: u64| plays(sessions[id], role));
}

/// An account's score is the number of sessions that it owns.
pub proof fn law_score_counts_owned_sessions(m: MirrorModel, id: u64)
    requires
        accounted(m),
        m.accounts.contains_key(id),
    ensures
        m.accounts[id].counts.score() == tally(m.sessions, Role::Scored(id)),
{
    let held = players(m.sessions, Role::Active(id));
    let leaving = players(m.sessions, Role::Outgoing(id));
    let reserved = players(m.sessions, Role::Reserved(id));
    let coming = players(m.sessions, Role::Incoming(id));
    let scored = players(m.sessions, Role::Scored(id));
    lemma_tally_bound(m.sessions, Role::Active(id));
    lemma_tally_bound(m.sessions, Role::Outgoing(id));
    lemma_tally_bound(m.sessions, Role::Reserved(id));
    lemma_tally_bound(m.sessions, Role::Incoming(id));
    assert(account_ok(m, id));
    assert forall|x: u64| #[trigger] m.sessions.contains_key(x) implies session_ok(m, x) by {}
    let staying = held.difference(leaving);
    assert(leaving.subset_of(held));
    vstd::set_lib::lemma_len_difference(held, leaving);
    assert(staying.union(leaving) =~= held);
    vstd::set_lib::lemma_set_disjoint_lens(staying, leaving);
    vstd::set_lib::lemma_set_disjoint_lens(staying, reserved);
    vstd::set_lib::lemma_set_disjoint_lens(staying.union(reserved), coming);
    assert(staying.disjoint(leaving));
    assert(staying.disjoint(reserved));
    assert(staying.union(reserved).disjoint(coming));
    assert(scored =~= staying.union(reserved).union(coming));
    assert(account_ok(m, id));
}

/// One more account adds the sessions that it holds and those that it owns.
pub proof fn lemma_tally_grows(m: MirrorModel, ids: Set<u64>, id: u64)
    requires
        accounted(m),
        m.accounts.contains_key(id),
        !ids.contains(id),
    ensures
        tally(m.sessions, Role::HeldIn(ids.insert(id))) == tally(m.sessions, Role::HeldIn(ids))
            + m.accounts[id].counts.active,
        tally(m.sessions, Role::ScoredIn(ids.insert(id))) == tally(m.sessions, Role::ScoredIn(ids))
            + m.accounts[id].counts.score(),
{
    law_score_counts_owned_sessions(m, id);
    assert(account_ok(m, id));
    let held = players(m.sessions, Role::HeldIn(ids));
    let here = players(m.sessions, Role::Active(id));
    lemma_tally_bound(m.sessions, Role::HeldIn(ids));
    lemma_tally_bound(m.sessions, Role::Active(id));
    assert(held.disjoint(here));
    vstd::set_lib::lemma_set_disjoint_lens(held, here);
    assert(players(m.sessions, Role::HeldIn(ids.insert(id))) =~= held.union(here));
    let scored = players(m.sessions, Role::ScoredIn(ids));
    let owned = players(m.sessions, Role::Scored(id));
    lemma_tally_bound(m.sessions, Role::ScoredIn(ids));
    lemma_tally_bound(m.sessions, Role::Scored(id));
    assert(scored.disjoint(owned));
    vstd::set_lib::lemma_set_disjoint_lens(scored, owned);
    assert(players(m.sessions, Role::ScoredIn(ids.insert(id))) =~= scored.union(owned));
}

/// All accounts together hold every held session and own every owned one.
pub proof fn lemma_tally_total(m: MirrorModel)
    requires
        accounted(m),
    ensures
        tally(m.sessions, Role::HeldIn(m.accounts.dom())) == tally(m.sessions, Role::Held),
        tally(m.sessions, Role::ScoredIn(m.accounts.dom())) == tally(m.sessions, Role::Owned),
        tally(m.sessions, Role::HeldIn(Set::empty())) == 0,
        tally(m.sessions, Role::ScoredIn(Set::empty())) == 0,
{
    assert forall|x: u64| #[trigger] m.sessions.contains_key(x) implies session_ok(m, x) by {}
    assert(players(m.sessions, Role::HeldIn(m.accounts.dom())) =~= players(
        m.sessions,
        Role::Held,
    ));
    assert(players(m.sessions, Role::ScoredIn(m.accounts.dom())) =~= players(
        m.sessions,
        Role::Owned,
    ));
    lemma_no_players(m.sessions, Role::HeldIn(Set::empty()));
    lemma_no_players(m.sessions, Role::ScoredIn(Set::empty()));
}

} // verus!
