//! A part of a ledger stands for the whole: what the part accepts, the whole
//! accepts, and putting the part back gives the same ledger.
use vstd::prelude::*;

use super::accounting;
use super::ledger;
use super::ledger::{AccountModel, Event, MirrorModel, Seat, Session, Shift, Step};
use super::InvalidReason;

verus! {

/// Whether a part was taken from a complete ledger for the sessions of a scope
/// and has since only gone through events inside that scope.
pub open spec fn stands_for(original: MirrorModel, staged: MirrorModel, scope: Seq<u64>) -> bool {
    &&& original.wf()
    &&& staged.wf()
    &&& original.hidden_accounts == 0
    &&& original.hidden_sessions == 0
    &&& staged.limits == original.limits
    &&& staged.retired == original.retired
    &&& staged.factor_lifetime == original.factor_lifetime
    &&& staged.next_factor == original.next_factor
    &&& staged.accounts.dom().subset_of(original.accounts.dom())
    &&& staged.hidden_sessions + staged.sessions.len() == original.merged(staged).sessions.len()
    &&& forall|id: u64| #[trigger]
        scope.contains(id) && original.sessions.contains_key(id) ==> staged.sessions.contains_key(
            id,
        )
    &&& forall|id: u64| #[trigger] staged.sessions.contains_key(id) ==> scope.contains(id)
    &&& accounting::accounted(original.merged(staged))
}

/// An event that a part may go through.
pub open spec fn inside(event: Event, scope: Seq<u64>) -> bool {
    match event {
        Event::Open(session)
        | Event::Closed(session)
        | Event::Reserve { session, .. }
        | Event::Created { session, .. }
        | Event::Redirect { session, .. }
        | Event::Redirected { session, .. }
        | Event::Closing { session, .. }
        | Event::Rehydrate { session, .. }
        | Event::Rejected { session } => scope.contains(session),
        Event::Watermark => true,
        _ => false,
    }
}

/// Whether the whole takes the step that its part took.
pub open spec fn mirrors(
    original: MirrorModel,
    staged: Step,
    whole: Step,
    scope: Seq<u64>,
) -> bool {
    staged matches Ok((part, transition)) ==> {
        &&& whole == Ok::<_, InvalidReason>((original.merged(part), transition))
        &&& stands_for(original, part, scope)
    }
}

/// A fresh part stands for the ledger that it was taken from.
pub proof fn law_fork_stands_for(m: MirrorModel, group: u64, scope: Seq<u64>)
    requires
        accounting::accounted(m),
    ensures
        stands_for(m, m.fork(group, scope), scope),
        m.merged(m.fork(group, scope)) == m,
{
    let part = m.fork(group, scope);
    assert(part.accounts.dom().subset_of(m.accounts.dom()));
    assert(part.sessions.dom().subset_of(m.sessions.dom()));
    vstd::set_lib::lemma_len_subset(part.accounts.dom(), m.accounts.dom());
    vstd::set_lib::lemma_len_subset(part.sessions.dom(), m.sessions.dom());
    assert(m.merged(part).accounts =~= m.accounts);
    assert(m.merged(part).sessions =~= m.sessions);
    assert(m.merged(part) =~= m);
    assert forall|id: u64| #[trigger] part.accounts.contains_key(id) implies part.account_wf(
        id,
    ) by {
        assert(m.accounts.contains_key(id));
        assert(m.account_wf(id));
    }
}

proof fn lemma_counted_merge(
    original: Map<u64, AccountModel>,
    staged: Map<u64, AccountModel>,
    shift: Option<Shift>,
)
    ensures
        ledger::counted(staged, shift) matches Ok(next) ==> ledger::counted(
            original.union_prefer_right(staged),
            shift,
        ) == Ok::<_, InvalidReason>(original.union_prefer_right(next)),
{
    if let Ok(next) = ledger::counted(staged, shift) {
        if let Some(s) = shift {
            let whole = original.union_prefer_right(staged);
            assert(ledger::counted(whole, shift) is Ok);
            assert(ledger::counted(whole, shift)->Ok_0 =~= original.union_prefer_right(next));
        }
    }
}

/// What moves the accounts of a part moves the same accounts of the whole.
proof fn lemma_change_merge(
    original: MirrorModel,
    staged: MirrorModel,
    first: Option<Shift>,
    second: Option<Shift>,
    remove: Option<Seat>,
    append: Option<Seat>,
)
    requires
        staged.limits == original.limits,
        staged.wf(),
    ensures
        staged.change(first, second, remove, append) matches Ok(accounts)
            ==> original.merged(staged).change(first, second, remove, append) == Ok::<
            _,
            InvalidReason,
        >(original.accounts.union_prefer_right(accounts)) && accounts.dom()
            == staged.accounts.dom(),
{
    ledger::lemma_change_wf(staged, first, second, remove, append);
    if let Ok(accounts) = staged.change(first, second, remove, append) {
        reveal(MirrorModel::change);
        let whole = original.merged(staged);
        let once = ledger::counted(staged.accounts, first)->Ok_0;
        let twice = ledger::counted(once, second)->Ok_0;
        lemma_counted_merge(original.accounts, staged.accounts, first);
        lemma_counted_merge(original.accounts, once, second);
        let union = original.accounts.union_prefer_right(twice);
        assert(whole.misplaced(remove, append) is None);
        let left = ledger::unseated(twice, remove);
        lemma_dom_counted(staged.accounts, first);
        lemma_dom_counted(once, second);
        assert(ledger::unseated(union, remove) =~= original.accounts.union_prefer_right(left));
        assert(ledger::seated(original.accounts.union_prefer_right(left), append)
            =~= original.accounts.union_prefer_right(accounts));
    }
}

proof fn lemma_dom_counted(accounts: Map<u64, AccountModel>, shift: Option<Shift>)
    ensures
        ledger::counted(accounts, shift) matches Ok(next) ==> next.dom() == accounts.dom(),
{
    if let Ok(next) = ledger::counted(accounts, shift) {
        assert(next.dom() =~= accounts.dom());
    }
}

/// What settles a session of a part settles it in the whole.
proof fn lemma_settle_merge(
    original: MirrorModel,
    staged: MirrorModel,
    session: u64,
    state: Session,
    first: Option<Shift>,
    second: Option<Shift>,
    remove: Option<Seat>,
    append: Option<Seat>,
)
    requires
        staged.limits == original.limits,
        staged.wf(),
        original.wf(),
    ensures
        staged.settle(session, state, first, second, remove, append) matches Ok((part, transition))
            ==> {
            &&& original.merged(staged).settle(session, state, first, second, remove, append)
                == Ok::<_, InvalidReason>((original.merged(part), transition))
            &&& part.accounts.dom() == staged.accounts.dom()
            &&& part.sessions == staged.sessions.insert(session, state)
            &&& original.merged(part).sessions == original.merged(staged).sessions.insert(
                session,
                state,
            )
        },
{
    lemma_change_merge(original, staged, first, second, remove, append);
    if let Ok((part, _)) = staged.settle(session, state, first, second, remove, append) {
        assert(original.merged(part).sessions =~= original.merged(staged).sessions.insert(
            session,
            state,
        ));
        assert(original.merged(staged).settle(
            session,
            state,
            first,
            second,
            remove,
            append,
        )->Ok_0.0 =~= original.merged(part));
    }
}

/// A part that settled a session of its scope still stands for the whole.
proof fn lemma_settled_part(
    original: MirrorModel,
    staged: MirrorModel,
    part: MirrorModel,
    session: u64,
    state: Session,
    scope: Seq<u64>,
)
    requires
        stands_for(original, staged, scope),
        scope.contains(session),
        part.wf(),
        part.sessions == staged.sessions.insert(session, state),
        part.accounts.dom() == staged.accounts.dom(),
        part == (MirrorModel { accounts: part.accounts, sessions: part.sessions, ..staged }),
        original.merged(part).sessions == original.merged(staged).sessions.insert(session, state),
        accounting::accounted(original.merged(part)),
    ensures
        stands_for(original, part, scope),
{
    let whole = original.merged(staged).sessions;
    if staged.sessions.contains_key(session) {
        assert(whole.contains_key(session));
        assert(whole.insert(session, state).dom() =~= whole.dom());
        assert(part.sessions.dom() =~= staged.sessions.dom());
    } else {
        assert(!whole.contains_key(session));
    }
}

/// The whole accepts what its part accepts, and committing the part afterwards
/// is the same as having applied the event to the whole.
pub proof fn law_part_mirrors_whole(
    original: MirrorModel,
    staged: MirrorModel,
    scope: Seq<u64>,
    event: Event,
)
    requires
        stands_for(original, staged, scope),
        inside(event, scope),
    ensures
        mirrors(original, staged.apply(event), original.merged(staged).apply(event), scope),
{
    if let Ok((part, transition)) = staged.apply(event) {
        let whole = original.merged(staged);
        accounting::law_apply_keeps_accounting(whole, event);
        lemma_all_settles(original, staged, scope);
        assert(forall|id: u64| #[trigger]
            scope.contains(id) ==> (whole.sessions.contains_key(id)
                <==> staged.sessions.contains_key(id)));
        assert(forall|id: u64| #[trigger]
            staged.sessions.contains_key(id) ==> whole.sessions[id] == staged.sessions[id]);
        assert(forall|id: u64| #[trigger]
            staged.accounts.contains_key(id) ==> whole.accounts.contains_key(id)
                && whole.accounts[id] == staged.accounts[id]);
    }
}

/// The whole ends a selection that its part ends.
pub proof fn law_part_mirrors_selection_done(
    original: MirrorModel,
    staged: MirrorModel,
    scope: Seq<u64>,
    id: u64,
)
    requires
        stands_for(original, staged, scope),
        scope.contains(id),
    ensures
        mirrors(
            original,
            staged.selection_done(id),
            original.merged(staged).selection_done(id),
            scope,
        ),
{
    if let Ok((part, transition)) = staged.selection_done(id) {
        accounting::lemma_selection_done(original.merged(staged), id);
        lemma_all_settles(original, staged, scope);
    }
}

/// The whole marks a reconnect that its part marks.
pub proof fn law_part_mirrors_reconnect(
    original: MirrorModel,
    staged: MirrorModel,
    scope: Seq<u64>,
    id: u64,
    operation: u64,
    account: u64,
)
    requires
        stands_for(original, staged, scope),
        scope.contains(id),
    ensures
        mirrors(
            original,
            staged.reconnect(id, operation, account),
            original.merged(staged).reconnect(id, operation, account),
            scope,
        ),
{
    if let Ok((part, transition)) = staged.reconnect(id, operation, account) {
        accounting::lemma_reconnect(original.merged(staged), id, operation, account);
        lemma_all_settles(original, staged, scope);
    }
}

/// Every settlement of a part, in one statement.
proof fn lemma_all_settles(original: MirrorModel, staged: MirrorModel, scope: Seq<u64>)
    requires
        stands_for(original, staged, scope),
    ensures
        forall|
            session: u64,
            state: Session,
            first: Option<Shift>,
            second: Option<Shift>,
            remove: Option<Seat>,
            append: Option<Seat>,
        |
            #![trigger staged.settle(session, state, first, second, remove, append)]
            scope.contains(session) && (staged.sessions.contains_key(session)
                || staged.hidden_sessions + staged.sessions.len() < staged.limits.sessions) ==> (
            staged.settle(session, state, first, second, remove, append) matches Ok((part, t))
                ==> {
                &&& original.merged(staged).settle(session, state, first, second, remove, append)
                    == Ok::<_, InvalidReason>((original.merged(part), t))
                &&& accounting::accounted(original.merged(part)) ==> stands_for(
                    original,
                    part,
                    scope,
                )
            }),
{
    assert forall|
        session: u64,
        state: Session,
        first: Option<Shift>,
        second: Option<Shift>,
        remove: Option<Seat>,
        append: Option<Seat>,
    |
        #![trigger staged.settle(session, state, first, second, remove, append)]
        scope.contains(session) && (staged.sessions.contains_key(session) || staged.hidden_sessions
            + staged.sessions.len() < staged.limits.sessions) implies (staged.settle(
        session,
        state,
        first,
        second,
        remove,
        append,
    ) matches Ok((part, t)) ==> {
        &&& original.merged(staged).settle(session, state, first, second, remove, append) == Ok::<
            _,
            InvalidReason,
        >((original.merged(part), t))
        &&& accounting::accounted(original.merged(part)) ==> stands_for(original, part, scope)
    }) by {
        lemma_settle_merge(original, staged, session, state, first, second, remove, append);
        if let Ok((part, t)) = staged.settle(
            session,
            state,
            first,
            second,
            remove,
            append,
        ) {
            ledger::lemma_settle_wf(staged, session, state, first, second, remove, append);
            if accounting::accounted(original.merged(part)) {
                lemma_settled_part(original, staged, part, session, state, scope);
            }
        }
    }
}

} // verus!
