//! What each lifecycle event does to a ledger, said of what can be read from it:
//! who holds a session, who owns its score, the physical orders, and which
//! operations are still owed.
use vstd::prelude::*;

use super::accounting;
use super::ledger;
use super::ledger::{
    CountsModel, Event, MirrorModel, Policy, Reservation, Seat, Session, Shift, Transition,
};
use super::InvalidReason;

verus! {

/// A physical order without one session.
pub open spec fn without(order: Seq<u64>, session: u64) -> Seq<u64> {
    order.filter(|id: u64| id != session)
}

/// Whether nothing changed but one session and two accounts.
pub open spec fn only_touches(m: MirrorModel, n: MirrorModel, session: u64, a: u64, b: u64) -> bool {
    &&& n.accounts.dom() == m.accounts.dom()
    &&& n.sessions.dom() == m.sessions.dom().insert(session)
    &&& forall|id: u64|
        id != a && id != b && #[trigger] m.accounts.contains_key(id) ==> n.accounts[id]
            == m.accounts[id]
    &&& forall|id: u64|
        id != session && #[trigger] m.sessions.contains_key(id) ==> n.sessions[id]
            == m.sessions[id]
    &&& n.limits == m.limits
    &&& n.retired == m.retired
    &&& n.factor_lifetime == m.factor_lifetime
    &&& n.next_factor == m.next_factor
}

proof fn lemma_without(order: Seq<u64>, session: u64)
    requires
        order.no_duplicates(),
        order.contains(session),
    ensures
        order.remove(order.index_of(session)) == without(order, session),
    decreases order.len(),
{
    reveal(Seq::filter);
    let at = order.index_of(session);
    let before = order.drop_last();
    if at == order.len() - 1 {
        assert(order.remove(at) =~= before);
        lemma_absent(before, session);
    } else {
        assert(before[at] == session);
        assert(before.contains(session));
        lemma_without(before, session);
        let first = before.index_of(session);
        assert(order[first] == session);
        assert(first == at);
        assert(order.remove(at) =~= before.remove(at).push(order.last()));
        assert(order.last() != session);
    }
}

proof fn lemma_absent(order: Seq<u64>, session: u64)
    requires
        !order.contains(session),
    ensures
        without(order, session) == order,
    decreases order.len(),
{
    reveal(Seq::filter);
    if order.len() != 0 {
        let before = order.drop_last();
        assert(!before.contains(session)) by {
            if before.contains(session) {
                let at = before.index_of(session);
                assert(order[at] == session);
            }
        }
        assert(order[order.len() - 1] != session);
        lemma_absent(before, session);
        assert(before.push(order.last()) =~= order);
    }
}

#[verifier::rlimit(40)]
proof fn lemma_settled(
    m: MirrorModel,
    session: u64,
    state: Session,
    first: Option<Shift>,
    second: Option<Shift>,
    remove: Option<Seat>,
    append: Option<Seat>,
    a: u64,
    b: u64,
)
    requires
        m.wf(),
        first matches Some(shift) ==> shift.account == a || shift.account == b,
        second matches Some(shift) ==> shift.account == a || shift.account == b,
        remove matches Some(seat) ==> seat.session == session && (seat.account == a || seat.account
            == b),
        append matches Some(seat) ==> seat.session == session && (seat.account == a || seat.account
            == b),
    ensures
        m.settle(session, state, first, second, remove, append) matches Ok((n, t)) ==> {
            &&& t is Applied
            &&& n.sessions[session] == state
            &&& only_touches(m, n, session, a, b)
            &&& accounting::all_shifted_by(
                m.accounts,
                n.accounts,
                first,
                second,
                remove,
                append,
            )
            &&& first matches Some(shift) ==> ledger::live(m.accounts, shift.account)
            &&& remove matches Some(seat) ==> {
                let order = m.accounts[seat.account].order;
                &&& append is None || append->0.account != seat.account
                    ==> n.accounts[seat.account].order == without(order, session)
                &&& append == remove ==> n.accounts[seat.account].order == without(
                    order,
                    session,
                ).push(session)
            }
            &&& append matches Some(seat) ==> {
                &&& remove is None || remove->0.account != seat.account
                    ==> n.accounts[seat.account].order == m.accounts[seat.account].order.push(
                    session,
                )
                &&& n.accounts[seat.account].order.last() == session
            }
        },
{
    accounting::lemma_change_effect(m, first, second, remove, append);
    if let Ok((n, t)) = m.settle(session, state, first, second, remove, append) {
        assert(n.sessions.dom() =~= m.sessions.dom().insert(session));
        assert(first matches Some(shift) ==> ledger::live(m.accounts, shift.account)) by {
            reveal(MirrorModel::change);
        }
        assert forall|id: u64| id != a && id != b && #[trigger] m.accounts.contains_key(
            id,
        ) implies n.accounts[id] == m.accounts[id] by {
            assert(accounting::shifted_by(
                m.accounts[id],
                n.accounts[id],
                id,
                first,
                second,
                remove,
                append,
            ));
            assert(n.accounts[id].counts == m.accounts[id].counts);
            assert(n.accounts[id] =~= m.accounts[id]);
        }
        if let Some(seat) = remove {
            let order = m.accounts[seat.account].order;
            assert(m.accounts.contains_key(seat.account));
            assert(m.account_wf(seat.account));
            assert(order.contains(session));
            lemma_without(order, session);
        }
        if let Some(seat) = append {
            assert(m.accounts.contains_key(seat.account));
        }
    }
}

/// A session opens once, before anything else is known of it, and changes no
/// account; it opens wherever the owner is not retired and has room.
pub proof fn law_sessions_open_once(m: MirrorModel, id: u64)
    requires
        m.wf(),
    ensures
        m.apply(Event::Open(id)) is Ok <==> !m.retired && id != 0 && !m.sessions.contains_key(id)
            && m.hidden_sessions + m.sessions.len() < m.limits.sessions,
        m.apply(Event::Open(id)) matches Ok((n, t)) ==> {
            let state = n.sessions[id];
            &&& t is Applied
            &&& n.accounts == m.accounts
            &&& only_touches(m, n, id, 0, 0)
            &&& !state.closed && !state.bound
            &&& state.active is None && state.reservation is None && state.redirect is None
            &&& state.closing is None && state.reconnect is None
            &&& state.route_watermark == 0 && state.redirect_watermark == 0 && state.close_watermark
                == 0
            &&& n.apply(Event::Open(id)) is Err
        },
{
    reveal(MirrorModel::change);
    lemma_settled(m, id, Session::fresh(), None, None, None, None, 0, 0);
}

/// A reservation is made for an open session that holds nothing, with an operation
/// that is newer than its last route; the account owns the score from there on and
/// holds nothing yet.
#[verifier::rlimit(40)]
pub proof fn law_reservations_own_the_score(m: MirrorModel, session: u64, operation: u64, account: u64)
    requires
        m.wf(),
        m.apply(Event::Reserve { session, operation, account }) is Ok,
    ensures
        ({
            let (n, t) = m.apply(Event::Reserve { session, operation, account })->Ok_0;
            let was = m.sessions[session];
            let now = n.sessions[session];
            &&& t is Applied
            &&& !m.retired
            &&& m.sessions.contains_key(session)
            &&& !was.closed && was.active is None && was.reservation is None
            &&& operation > was.route_watermark
            &&& ledger::live(m.accounts, account)
            &&& now.reservation == Some(Reservation { operation, account })
            &&& now.route_watermark == operation
            &&& now.redirect_watermark == was.redirect_watermark
            &&& now.close_watermark == was.close_watermark
            &&& now.active is None
            &&& now.bound == was.bound
            &&& now.closed == was.closed
            &&& now.closing == was.closing
            &&& n.accounts[account].order == m.accounts[account].order
            &&& n.accounts[account].counts.score() == m.accounts[account].counts.score() + 1
            &&& n.accounts[account].counts.active == m.accounts[account].counts.active
            &&& only_touches(m, n, session, account, account)
            &&& forall|again: u64, other: u64|
                #[trigger] n.apply(
                    Event::Reserve { session, operation: again, account: other },
                ) is Err
        }),
{
    let was = m.sessions[session];
    lemma_settled(
        m,
        session,
        Session {
            reservation: Some(Reservation { operation, account }),
            route_watermark: operation,
            ..was
        },
        Some(
            Shift {
                account,
                active: ledger::Tick::Same,
                reserved: ledger::Tick::Up,
                incoming: ledger::Tick::Same,
                outgoing: ledger::Tick::Same,
            },
        ),
        None,
        None,
        None,
        account,
        account,
    );
}

/// A create result settles the reservation that it names and nothing else. With
/// success the session arrives last at the account that was reserved, which keeps
/// the score; without it the score is given back and nothing is held.
#[verifier::rlimit(40)]
pub proof fn law_creations_settle_their_reservation(
    m: MirrorModel,
    session: u64,
    operation: u64,
    success: bool,
)
    requires
        m.wf(),
        m.apply(Event::Created { session, operation, success }) is Ok,
    ensures
        ({
            let (n, t) = m.apply(Event::Created { session, operation, success })->Ok_0;
            let was = m.sessions[session];
            let now = n.sessions[session];
            let named = was.reservation is Some && was.reservation->0.operation == operation;
            let account = was.reservation->0.account;
            &&& m.sessions.contains_key(session)
            &&& t is Applied <==> named
            &&& !named ==> n == m
            &&& named ==> {
                &&& now.reservation is None
                &&& now.route_watermark == was.route_watermark
                &&& now.closed == was.closed
                &&& only_touches(m, n, session, account, account)
                &&& n.accounts[account].counts.reserved == m.accounts[account].counts.reserved - 1
                &&& success ==> {
                    &&& now.active == Some(account)
                    &&& now.bound
                    &&& n.accounts[account].order == m.accounts[account].order.push(session)
                    &&& n.accounts[account].counts.active == m.accounts[account].counts.active + 1
                    &&& n.accounts[account].counts.score() == m.accounts[account].counts.score()
                }
                &&& !success ==> {
                    &&& now.active == was.active
                    &&& now.bound == was.bound
                    &&& n.accounts[account].order == m.accounts[account].order
                    &&& n.accounts[account].counts.active == m.accounts[account].counts.active
                    &&& n.accounts[account].counts.score() == m.accounts[account].counts.score() - 1
                }
                &&& n.apply(Event::Created { session, operation, success }) == Ok::<_, InvalidReason>(
                    (n, Transition::Ignored),
                )
            }
        }),
{
    let was = m.sessions[session];
    if let Some(pending) = was.reservation {
        let account = pending.account;
        lemma_settled(
            m,
            session,
            Session {
                reservation: None,
                bound: was.bound || success,
                active: if success {
                    Some(account)
                } else {
                    was.active
                },
                ..was
            },
            Some(
                Shift {
                    account,
                    active: if success {
                        ledger::Tick::Up
                    } else {
                        ledger::Tick::Same
                    },
                    reserved: ledger::Tick::Down,
                    incoming: ledger::Tick::Same,
                    outgoing: ledger::Tick::Same,
                },
            ),
            None,
            None,
            if success {
                Some(Seat { account, session })
            } else {
                None
            },
            account,
            account,
        );
    }
}

/// A redirect is accepted of an open session that is held, is not closing and
/// awaits no other terminal, to another live account of the same group, with an
/// operation that is newer than its last. The score goes to the target at once;
/// the connection stays where it now.
#[verifier::rlimit(40)]
pub proof fn law_redirects_move_the_score_first(
    m: MirrorModel,
    session: u64,
    operation: u64,
    target: u64,
)
    requires
        m.wf(),
        m.apply(Event::Redirect { session, operation, target }) is Ok,
    ensures
        ({
            let (n, t) = m.apply(Event::Redirect { session, operation, target })->Ok_0;
            let was = m.sessions[session];
            let now = n.sessions[session];
            let source = was.active->0;
            &&& t is Applied
            &&& !m.retired
            &&& m.sessions.contains_key(session)
            &&& !was.closed && was.closing is None && was.redirect is None && was.reconnect is None
            &&& was.active is Some
            &&& source != target
            &&& ledger::live(m.accounts, source) && ledger::live(m.accounts, target)
            &&& m.accounts[source].group == m.accounts[target].group
            &&& operation > was.redirect_watermark
            &&& now.redirect_watermark == operation
            &&& now.route_watermark == was.route_watermark
            &&& now.active == was.active
            &&& now.redirect matches Some(pending) && pending.operation == operation
                && pending.source == source && pending.target == target
            &&& n.accounts[source].order == m.accounts[source].order
            &&& n.accounts[target].order == m.accounts[target].order
            &&& n.accounts[source].counts.active == m.accounts[source].counts.active
            &&& n.accounts[target].counts.active == m.accounts[target].counts.active
            &&& n.accounts[source].counts.score() == m.accounts[source].counts.score() - 1
            &&& n.accounts[target].counts.score() == m.accounts[target].counts.score() + 1
            &&& only_touches(m, n, session, source, target)
        }),
{
    let was = m.sessions[session];
    let source = was.active->0;
    lemma_settled(
        m,
        session,
        Session {
            redirect: Some(ledger::Move { operation, source, target }),
            redirect_watermark: operation,
            ..was
        },
        Some(
            Shift {
                account: source,
                active: ledger::Tick::Same,
                reserved: ledger::Tick::Same,
                incoming: ledger::Tick::Same,
                outgoing: ledger::Tick::Up,
            },
        ),
        Some(
            Shift {
                account: target,
                active: ledger::Tick::Same,
                reserved: ledger::Tick::Same,
                incoming: ledger::Tick::Up,
                outgoing: ledger::Tick::Same,
            },
        ),
        None,
        None,
        source,
        target,
    );
}

/// A redirect result settles the redirect that it names. With success the session
/// leaves its account's order and arrives last at the target; without it the score
/// goes back to where the connection still now. A result that names no pending
/// operation changes nothing.
#[verifier::rlimit(40)]
pub proof fn law_redirect_results_settle(m: MirrorModel, session: u64, operation: u64, success: bool)
    requires
        m.wf(),
        m.sessions.contains_key(session),
        m.sessions[session].reconnect is None,
        m.apply(Event::Redirected { session, operation, success }) is Ok,
    ensures
        ({
            let (n, t) = m.apply(Event::Redirected { session, operation, success })->Ok_0;
            let was = m.sessions[session];
            let now = n.sessions[session];
            let named = was.redirect is Some && was.redirect->0.operation == operation;
            let source = was.redirect->0.source;
            let target = was.redirect->0.target;
            &&& t is Applied <==> named
            &&& !named ==> n == m
            &&& named ==> {
                &&& now.redirect is None
                &&& now.redirect_watermark == was.redirect_watermark
                &&& now.closing == was.closing
                &&& now.closed == was.closed
                &&& only_touches(m, n, session, source, target)
                &&& success ==> now.active == Some(target)
                &&& !success ==> now.active == was.active
                &&& source != target && success ==> {
                    &&& n.accounts[source].order == without(m.accounts[source].order, session)
                    &&& n.accounts[target].order == m.accounts[target].order.push(session)
                    &&& n.accounts[source].counts.active == m.accounts[source].counts.active - 1
                    &&& n.accounts[target].counts.active == m.accounts[target].counts.active + 1
                    &&& n.accounts[source].counts.score() == m.accounts[source].counts.score()
                    &&& n.accounts[target].counts.score() == m.accounts[target].counts.score()
                }
                &&& source != target && !success ==> {
                    &&& n.accounts[source].order == m.accounts[source].order
                    &&& n.accounts[target].order == m.accounts[target].order
                    &&& n.accounts[source].counts.active == m.accounts[source].counts.active
                    &&& n.accounts[target].counts.active == m.accounts[target].counts.active
                    &&& n.accounts[source].counts.score() == m.accounts[source].counts.score() + 1
                    &&& n.accounts[target].counts.score() == m.accounts[target].counts.score() - 1
                }
            }
        }),
{
    let was = m.sessions[session];
    if let Some(pending) = was.redirect {
        let source = pending.source;
        let target = pending.target;
        let first = Some(
            Shift {
                account: source,
                active: if success {
                    ledger::Tick::Down
                } else {
                    ledger::Tick::Same
                },
                reserved: ledger::Tick::Same,
                incoming: ledger::Tick::Same,
                outgoing: ledger::Tick::Down,
            },
        );
        let second = Some(
            Shift {
                account: target,
                active: if success {
                    ledger::Tick::Up
                } else {
                    ledger::Tick::Same
                },
                reserved: ledger::Tick::Same,
                incoming: ledger::Tick::Down,
                outgoing: ledger::Tick::Same,
            },
        );
        let remove = if success {
            Some(Seat { account: source, session })
        } else {
            None
        };
        let append = if success {
            Some(Seat { account: target, session })
        } else {
            None
        };
        let state = Session {
            redirect: None,
            active: if success {
                Some(target)
            } else {
                was.active
            },
            ..was
        };
        lemma_settled(m, session, state, first, second, remove, append, source, target);
        if pending.operation == operation {
            let n = m.apply(Event::Redirected { session, operation, success })->Ok_0.0;
            assert(m.accounts.contains_key(source) && m.accounts.contains_key(target)) by {
                reveal(MirrorModel::change);
            }
            assert(accounting::shifted_by(
                m.accounts[source],
                n.accounts[source],
                source,
                first,
                second,
                remove,
                append,
            ));
            assert(accounting::shifted_by(
                m.accounts[target],
                n.accounts[target],
                target,
                first,
                second,
                remove,
                append,
            ));
        }
    }
}

/// A reconnect is of a held session on its own account that awaits no other
/// terminal. While it is pending its result settles it: with success the session
/// goes to the end of the same order; and no counter moves either way.
#[verifier::rlimit(40)]
pub proof fn law_reconnects_stay_on_their_account(
    m: MirrorModel,
    session: u64,
    operation: u64,
    account: u64,
    success: bool,
)
    requires
        m.wf(),
        m.reconnect(session, operation, account) is Ok,
    ensures
        ({
            let (n, t) = m.reconnect(session, operation, account)->Ok_0;
            let was = m.sessions[session];
            let now = n.sessions[session];
            &&& t is Applied
            &&& m.sessions.contains_key(session)
            &&& !was.closed && was.redirect is None && was.reconnect is None
            &&& was.active == Some(account)
            &&& operation > was.redirect_watermark
            &&& now.reconnect == Some(operation)
            &&& now.redirect_watermark == operation
            &&& now.active == was.active
            &&& n.accounts == m.accounts
            &&& only_touches(m, n, session, 0, 0)
            &&& n.apply(Event::Redirected { session, operation, success }) matches Ok((last, settled)) ==> {
                &&& settled is Applied
                &&& last.sessions[session].reconnect is None
                &&& last.sessions[session].active == Some(account)
                &&& last.accounts[account].counts == m.accounts[account].counts
                &&& success ==> last.accounts[account].order == without(
                    m.accounts[account].order,
                    session,
                ).push(session)
                &&& !success ==> last.accounts == m.accounts
                &&& only_touches(n, last, session, account, account)
            }
        }),
{
    let was = m.sessions[session];
    let state = Session { reconnect: Some(operation), redirect_watermark: operation, ..was };
    lemma_settled(m, session, state, None, None, None, None, 0, 0);
    let n = m.reconnect(session, operation, account)->Ok_0.0;
    assert(n.accounts == m.accounts) by {
        reveal(MirrorModel::change);
    }
    lemma_wf(m, n, session);
    let seat = if success {
        Some(Seat { account, session })
    } else {
        None
    };
    let after = Session { reconnect: None, ..state };
    lemma_settled(n, session, after, None, None, seat, seat, account, account);
    if !success {
        assert(n.settle(session, after, None, None, None, None) matches Ok((last, _))
            ==> last.accounts == n.accounts) by {
            reveal(MirrorModel::change);
        }
    } else if let Ok((last, _)) = n.apply(Event::Redirected { session, operation, success }) {
        assert(n.accounts.contains_key(account));
        assert(accounting::shifted_by(
            n.accounts[account],
            last.accounts[account],
            account,
            None,
            None,
            seat,
            seat,
        ));
        assert(last.accounts[account].counts == m.accounts[account].counts);
    }
}

proof fn lemma_wf(m: MirrorModel, n: MirrorModel, session: u64)
    requires
        m.wf(),
        m.sessions.contains_key(session),
        n.accounts == m.accounts,
        n.sessions.dom() == m.sessions.dom().insert(session),
        n.limits == m.limits,
        n.hidden_accounts == m.hidden_accounts,
        n.hidden_sessions == m.hidden_sessions,
    ensures
        n.wf(),
{
    assert(n.sessions.dom() =~= m.sessions.dom());
    assert forall|id: u64| #[trigger] n.accounts.contains_key(id) implies n.account_wf(id) by {
        assert(m.account_wf(id));
    }
}

/// A reconnect that is pending takes no redirect and no second reconnect, and a
/// result of another operation changes nothing.
pub proof fn law_pending_terminals_are_exclusive(
    m: MirrorModel,
    session: u64,
    operation: u64,
    account: u64,
    success: bool,
)
    requires
        m.sessions.contains_key(session),
        m.sessions[session].reconnect is Some || m.sessions[session].redirect is Some,
    ensures
        m.apply(Event::Redirect { session, operation, target: account }) is Err,
        m.reconnect(session, operation, account) is Err,
        m.sessions[session].reconnect is Some && m.sessions[session].reconnect != Some(operation)
            ==> m.apply(Event::Redirected { session, operation, success }) == Ok::<_, InvalidReason>(
            (m, Transition::Ignored),
        ),
{
}

/// A force-close is accepted once of an open session that is held, with an
/// operation that is newer than its last; it changes no account, and no redirect
/// of the session is accepted afterwards.
pub proof fn law_closing_is_marked(m: MirrorModel, session: u64, operation: u64, other: u64, target: u64)
    requires
        m.wf(),
        m.apply(Event::Closing { session, operation }) is Ok,
    ensures
        ({
            let (n, t) = m.apply(Event::Closing { session, operation })->Ok_0;
            let was = m.sessions[session];
            let now = n.sessions[session];
            &&& t is Applied
            &&& !m.retired
            &&& m.sessions.contains_key(session)
            &&& !was.closed && was.active is Some && was.closing is None
            &&& operation > was.close_watermark
            &&& now.closing == Some(operation)
            &&& now.close_watermark == operation
            &&& now.active == was.active
            &&& now.redirect == was.redirect
            &&& !now.closed
            &&& n.accounts == m.accounts
            &&& only_touches(m, n, session, 0, 0)
            &&& n.is_closing(session)
            &&& n.apply(Event::Redirect { session, operation: other, target }) is Err
            &&& n.apply(Event::Closing { session, operation: other }) is Err
        }),
{
    let was = m.sessions[session];
    let state = Session { closing: Some(operation), close_watermark: operation, ..was };
    lemma_settled(m, session, state, None, None, None, None, 0, 0);
    reveal(MirrorModel::change);
}

/// A close of an open session gives back what it still accounts for: the account
/// that holds it loses it from its order, the account that owns its score loses
/// one, and no other account changes. Nothing is owed to the session afterwards.
#[verifier::rlimit(40)]
pub proof fn law_closes_give_everything_back(m: MirrorModel, session: u64, other: u64)
    requires
        accounting::accounted(m),
        m.sessions.contains_key(session),
        !m.sessions[session].closed,
        m.accounts.contains_key(other),
    ensures
        m.apply(Event::Closed(session)) matches Ok((n, t)) && {
            let was = m.sessions[session];
            let now = n.sessions[session];
            &&& t is Applied
            &&& now.closed
            &&& now.active is None && now.reservation is None && now.redirect is None
            &&& now.closing is None && now.reconnect is None
            &&& now.bound == was.bound
            &&& now.route_watermark == was.route_watermark
            &&& now.redirect_watermark == was.redirect_watermark
            &&& now.close_watermark == was.close_watermark
            &&& n.accounts.contains_key(other)
            &&& n.accounts[other].order == without(m.accounts[other].order, session)
            &&& was.score_owner() == Some(other) ==> n.accounts[other].counts.score()
                == m.accounts[other].counts.score() - 1
            &&& was.score_owner() != Some(other) ==> n.accounts[other].counts.score()
                == m.accounts[other].counts.score()
        },
{
    accounting::law_terminals_settle(m, session, 0, false);
    accounting::law_apply_keeps_accounting(m, Event::Closed(session));
    let was = m.sessions[session];
    let (n, t) = m.apply(Event::Closed(session))->Ok_0;
    assert(accounting::session_ok(m, session));
    assert(accounting::account_ok(m, other));
    assert(m.account_wf(other));
    let down = |account: u64, active: ledger::Tick, reserved: ledger::Tick, incoming: ledger::Tick, outgoing: ledger::Tick|
        Some(Shift { account, active, reserved, incoming, outgoing });
    let same = ledger::Tick::Same;
    let less = ledger::Tick::Down;
    if !m.accounts[other].order.contains(session) {
        lemma_absent(m.accounts[other].order, session);
    }
    if let Some(pending) = was.reservation {
        lemma_settled(
            m,
            session,
            was.after_close(),
            down(pending.account, same, less, same, same),
            None,
            None,
            None,
            pending.account,
            pending.account,
        );
    } else if let Some(pending) = was.redirect {
        lemma_settled(
            m,
            session,
            was.after_close(),
            down(pending.source, less, same, same, less),
            down(pending.target, same, same, less, same),
            Some(Seat { account: pending.source, session }),
            None,
            pending.source,
            pending.target,
        );
    } else if let Some(account) = was.active {
        lemma_settled(
            m,
            session,
            was.after_close(),
            down(account, less, same, same, same),
            None,
            Some(Seat { account, session }),
            None,
            account,
            account,
        );
    } else {
        lemma_settled(m, session, was.after_close(), None, None, None, None, 0, 0);
        assert(n.accounts == m.accounts) by {
            reveal(MirrorModel::change);
        }
    }
}

/// A live session is adopted by an owner that does not know it yet, last in the
/// order of a live account, which owns its score.
#[verifier::rlimit(40)]
pub proof fn law_adopted_sessions_are_held(m: MirrorModel, session: u64, account: u64)
    requires
        m.wf(),
        m.apply(Event::Rehydrate { session, account }) is Ok,
    ensures
        ({
            let (n, t) = m.apply(Event::Rehydrate { session, account })->Ok_0;
            let now = n.sessions[session];
            &&& t is Applied
            &&& !m.retired
            &&& session != 0 && !m.sessions.contains_key(session)
            &&& ledger::live(m.accounts, account)
            &&& now.bound && !now.closed && now.active == Some(account)
            &&& now.reservation is None && now.redirect is None && now.closing is None
                && now.reconnect is None
            &&& n.accounts[account].order == m.accounts[account].order.push(session)
            &&& n.accounts[account].counts.active == m.accounts[account].counts.active + 1
            &&& n.accounts[account].counts.score() == m.accounts[account].counts.score() + 1
            &&& only_touches(m, n, session, account, account)
        }),
{
    lemma_settled(
        m,
        session,
        Session { bound: true, active: Some(account), ..Session::fresh() },
        Some(
            Shift {
                account,
                active: ledger::Tick::Up,
                reserved: ledger::Tick::Same,
                incoming: ledger::Tick::Same,
                outgoing: ledger::Tick::Same,
            },
        ),
        None,
        None,
        Some(Seat { account, session }),
        account,
        account,
    );
}

/// A selection ends without a connection exactly where there never was one, none
/// is reserved and it has not ended before; it closes the session and changes no
/// account.
pub proof fn law_selections_end_unbound(m: MirrorModel, id: u64)
    requires
        m.wf(),
    ensures
        m.selection_done(id) is Ok <==> m.sessions.contains_key(id) && !m.sessions[id].bound
            && !m.sessions[id].closed && m.sessions[id].reservation is None
            && m.sessions[id].active is None,
        m.selection_done(id) matches Ok((n, t)) ==> {
            &&& t is Applied
            &&& n.sessions[id].closed
            &&& n.accounts == m.accounts
            &&& only_touches(m, n, id, 0, 0)
        },
{
    reveal(MirrorModel::change);
    if m.selection_done(id) is Ok {
        let state = Session { closed: true, ..m.sessions[id] };
        lemma_settled(m, id, state, None, None, None, None, 0, 0);
    }
}

/// The connection policy ends a factor lifetime; any other policy begins one where
/// there is none, later than every one before, and keeps the one that there now.
pub proof fn law_factor_lifetimes_are_fresh(m: MirrorModel, policy: Policy)
    requires
        m.factor_lifetime matches Some(lifetime) ==> lifetime < m.next_factor,
    ensures
        m.apply(Event::Policy(policy)) matches Ok((n, t)) ==> {
            &&& !m.retired
            &&& t is Applied
            &&& n.accounts == m.accounts && n.sessions == m.sessions && n.limits == m.limits
            &&& n.retired == m.retired
            &&& n.next_factor >= m.next_factor
            &&& policy is Connection <==> n.factor_lifetime is None
            &&& !(policy is Connection) && m.factor_lifetime is Some ==> n == m
            &&& !(policy is Connection) && m.factor_lifetime is None ==> n.factor_lifetime == Some(
                m.next_factor,
            ) && n.next_factor == m.next_factor + 1
            &&& n.factor_lifetime matches Some(lifetime) ==> lifetime < n.next_factor
        },
        !m.retired && (policy is Connection || m.factor_lifetime is Some || m.next_factor
            < u64::MAX) ==> m.apply(Event::Policy(policy)) is Ok,
{
}

/// An account is created once, empty and in a group; it is removed only when
/// nothing is held, reserved or on its way, and its place is kept.
pub proof fn law_accounts_come_and_go_empty(m: MirrorModel, id: u64, group: u64, other: u64)
    requires
        m.wf(),
    ensures
        m.apply(Event::Account { id, group }) is Ok <==> !m.retired && id != 0 && group != 0
            && !m.accounts.contains_key(id) && m.hidden_accounts + m.accounts.len()
            < m.limits.accounts,
        m.apply(Event::Account { id, group }) matches Ok((n, t)) ==> {
            &&& t is Applied
            &&& n.in_group(group, id)
            &&& n.accounts[id].id == id
            &&& n.accounts[id].order.len() == 0
            &&& n.accounts[id].counts == CountsModel::zero()
            &&& n.sessions == m.sessions
            &&& other != id ==> n.in_group(group, other) == m.in_group(group, other)
            &&& n.apply(Event::Account { id, group }) is Err
        },
        m.apply(Event::RemoveAccount(id)) is Ok <==> ledger::live(m.accounts, id)
            && m.accounts[id].order.len() == 0 && m.accounts[id].counts == CountsModel::zero(),
        m.apply(Event::RemoveAccount(id)) matches Ok((n, t)) ==> {
            &&& t is Applied
            &&& n.accounts.contains_key(id)
            &&& !ledger::live(n.accounts, id)
            &&& n.accounts[id].group == m.accounts[id].group
            &&& n.sessions == m.sessions
            &&& other != id ==> ledger::live(n.accounts, other) == ledger::live(m.accounts, other)
            &&& n.apply(Event::Account { id, group }) is Err
            &&& n.apply(Event::RemoveAccount(id)) is Err
        },
{
}

/// A retired owner takes no new session, account, policy, reservation, redirect or
/// force-close, and retires once; results and closes still settle.
pub proof fn law_retired_owners_take_nothing_new(
    m: MirrorModel,
    session: u64,
    operation: u64,
    account: u64,
    policy: Policy,
)
    ensures
        m.apply(Event::Retire) is Ok <==> !m.retired,
        m.apply(Event::Retire) matches Ok((n, t)) ==> {
            &&& t is Applied
            &&& n.retired
            &&& n.accounts == m.accounts && n.sessions == m.sessions
            &&& n.factor_lifetime == m.factor_lifetime
            &&& n.apply(Event::Open(session)) is Err
            &&& n.apply(Event::Account { id: account, group: session }) is Err
            &&& n.apply(Event::Policy(policy)) is Err
            &&& n.apply(Event::Reserve { session, operation, account }) is Err
            &&& n.apply(Event::Redirect { session, operation, target: account }) is Err
            &&& n.apply(Event::Closing { session, operation }) is Err
            &&& n.apply(Event::Rehydrate { session, account }) is Err
            &&& n.apply(Event::Retire) is Err
        },
{
}

/// A rejection of a known session, a watermark and a clean end change nothing, and
/// an interval begins once.
pub proof fn law_observations_change_nothing(m: MirrorModel, session: u64)
    ensures
        m.apply(Event::Begin) == Err::<(MirrorModel, Transition), _>(InvalidReason::ReplayedBegin),
        m.apply(Event::Watermark) == Ok::<_, InvalidReason>((m, Transition::Ignored)),
        m.apply(Event::Rejected { session }) is Ok <==> m.sessions.contains_key(session),
        m.apply(Event::Rejected { session }) matches Ok((n, t)) ==> n == m && t is Ignored,
        m.apply(Event::End) matches Ok((n, t)) ==> n == m && m.retired && t is Applied,
{
}

/// What a connection shows is where it is held, who owns its score, whether a
/// terminal is awaited, and whether it is closing or closed.
pub proof fn law_connections_show_their_session(m: MirrorModel, session: u64)
    requires
        accounting::accounted(m),
    ensures
        ({
            let state = m.sessions[session];
            let seen = m.connection(session);
            &&& seen.present <==> m.sessions.contains_key(session) && state.bound
            &&& seen.present ==> {
                &&& seen.closed == state.closed
                &&& seen.closing <==> state.closing is Some
                &&& seen.redirect_pending <==> state.redirect is Some || state.reconnect is Some
                &&& !seen.closed ==> state.active == Some(seen.physical)
                &&& !seen.closed ==> state.score_owner() == Some(seen.score_owner)
                &&& !seen.closed ==> m.accounts[seen.physical].order.contains(session)
                &&& seen.closed ==> seen.physical == 0 && seen.score_owner == 0 && !seen.closing
                    && !seen.redirect_pending
            }
        }),
{
    if m.sessions.contains_key(session) {
        assert(accounting::session_ok(m, session));
    }
}

/// A ledger that is called with an event either takes it whole, with the event's
/// effect and transition, or refuses it and stays as it was; and so for the end of a
/// selection and a reconnect.
pub proof fn law_ledgers_take_events_whole(
    ledger: &mut ledger::Mirror,
    event: Event,
    r: Result<Transition, InvalidReason>,
    ending: &mut ledger::Mirror,
    id: u64,
    ended: Result<Transition, InvalidReason>,
    moving: &mut ledger::Mirror,
    operation: u64,
    account: u64,
    moved: Result<Transition, InvalidReason>,
)
    requires
        call_ensures(ledger::Mirror::apply, (ledger, event), r),
        call_ensures(ledger::Mirror::selection_done, (ending, id), ended),
        call_ensures(ledger::Mirror::reconnect, (moving, id, operation, account), moved),
    ensures
        r matches Ok(transition) ==> old(ledger)@.apply(event) == Ok::<_, InvalidReason>(
            (final(ledger)@, transition),
        ),
        r is Err ==> final(ledger)@ == old(ledger)@ && old(ledger)@.apply(event) is Err,
        ended matches Ok(transition) ==> old(ending)@.selection_done(id) == Ok::<_, InvalidReason>(
            (final(ending)@, transition),
        ),
        ended is Err ==> final(ending)@ == old(ending)@ && old(ending)@.selection_done(id) is Err,
        moved matches Ok(transition) ==> old(moving)@.reconnect(id, operation, account) == Ok::<
            _,
            InvalidReason,
        >((final(moving)@, transition)),
        moved is Err ==> final(moving)@ == old(moving)@ && old(moving)@.reconnect(
            id,
            operation,
            account,
        ) is Err,
{
}

} // verus!
