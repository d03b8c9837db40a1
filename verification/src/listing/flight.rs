//! What holds of a listing service through any history of calls, also while the turn of a task is
//! running that was cancelled or whose service was closed.
use vstd::prelude::*;

use crate::domain::index::KeyView;
use crate::domain::model::{EntryView, IssueView, Phase};
use crate::listing::cache;
use crate::listing::cache::CacheView;
use crate::listing::history;
use crate::listing::history::CacheCall;
use crate::listing::service;
use crate::listing::service::{Desk, Find, ServiceView, Shelf, Taken, TallyView, Wish};
use crate::scheduler::{PendingView, SchedulerView, Seat, Status, TicketView, Wait};

verus! {

/// A call of a service, or what others do meanwhile to the scheduler that it shares.
pub enum DeskCall<J> {
    Start {
        shelf: Shelf,
        pool_limit: nat,
        others: nat,
        number: Option<u64>,
        wish: Wish,
        capacity: nat,
        seat: Seat<J>,
    },
    Page { id: Seq<char>, cursor: Option<Seq<char>>, limit: usize, now: u64, told: bool },
    Work { id: Seq<char>, now: u64, told: bool },
    Expire { now: u64 },
    Cancel { id: Seq<char>, told: bool },
    Take {
        from: Shelf,
        pool_limit: nat,
        others: nat,
        tally: TallyView,
        find: Find,
        cost: nat,
    },
    Finish { task: Seq<char>, phase: Phase, issue: Option<IssueView> },
    Close,
    Meanwhile { scheduler: SchedulerView<J>, gone: Seq<PendingView<J>> },
}

impl<J> Desk<J> {
    /// The desk after a call.
    pub open spec fn after(self, call: DeskCall<J>) -> Desk<J> {
        match call {
            DeskCall::Start { shelf, pool_limit, others, number, wish, capacity, seat } => {
                if self.service.refusal(
                    shelf.index,
                    shelf.foreground,
                    wish.target,
                    wish.limit,
                    wish.at,
                    number,
                ) is Some {
                    self
                } else {
                    Desk::started(
                        self.prepared(pool_limit, others, number->0, wish, capacity),
                        number->0,
                        seat,
                    ).0
                }
            },
            DeskCall::Page { id, cursor, limit, now, told } => self.paged(
                id,
                cursor,
                limit,
                now,
                told,
            ).0,
            DeskCall::Work { id, now, told } => self.worked(id, now, told),
            DeskCall::Expire { now } => self.with_cache(self.service.cache.expired(now)).swept(),
            DeskCall::Cancel { id, told } => self.cancelled(id, told),
            DeskCall::Take { from, pool_limit, others, tally, find, cost } => self.taken(
                from,
                pool_limit,
                others,
                tally,
                find,
                cost,
            ).0,
            DeskCall::Finish { task, phase, issue } => self.finished(task, phase, issue),
            DeskCall::Close => self.shut(),
            DeskCall::Meanwhile { scheduler, gone } => Desk { scheduler, gone, ..self },
        }
    }

    /// The desk after some calls, one after the other.
    pub open spec fn after_all(self, calls: Seq<DeskCall<J>>) -> Desk<J>
        decreases calls.len(),
    {
        if calls.len() == 0 {
            self
        } else {
            self.after_all(calls.drop_last()).after(calls.last())
        }
    }

    /// Nothing more enters this listing, and as far as it is there it holds these entries.
    spec fn rests(self, id: Seq<char>, entries: Seq<EntryView>) -> bool {
        &&& self.service.is_over(id)
        &&& self.service.cache.snapshots.contains_key(id)
            ==> self.service.cache.snapshots[id].entries == entries
    }

    /// A closed service without listings.
    spec fn is_shut(self) -> bool {
        &&& self.service.closed
        &&& self.service.cache.snapshots == Map::<Seq<char>, cache::SnapshotView>::empty()
        &&& self.service.tickets == Map::<Seq<char>, TicketView>::empty()
    }
}

pub proof fn lemma_concat(cache: CacheView, a: Seq<CacheCall>, b: Seq<CacheCall>)
    ensures
        cache.after_all(a + b) == cache.after_all(a).after_all(b),
    decreases b.len(),
{
    if b.len() == 0 {
        assert(a + b =~= a);
    } else {
        assert((a + b).drop_last() =~= a + b.drop_last());
        assert((a + b).last() == b.last());
        lemma_concat(cache, a, b.drop_last());
    }
}

proof fn lemma_push(cache: CacheView, calls: Seq<CacheCall>, call: CacheCall)
    ensures
        cache.after_all(calls.push(call)) == cache.after_all(calls).after(call),
{
    assert(calls.push(call).drop_last() =~= calls);
}

/// A listing that takes over where its task stands is told so by at most one call of its cache.
#[verifier::spinoff_prover]
#[verifier::rlimit(40)]
pub proof fn lemma_synchronized_calls<J>(desk: Desk<J>, id: Seq<char>, told: bool) -> (calls: Seq<
    CacheCall,
>)
    ensures
        desk.synchronized(id, told).service.cache == desk.service.cache.after_all(calls),
{
    let cache = desk.service.cache;
    let none = Seq::<CacheCall>::empty();
    assert(cache.after_all(none) == cache);
    if !desk.service.tickets.contains_key(id) {
        return none;
    }
    let ticket = desk.service.tickets[id];
    match desk.scheduler.status(ticket.serial) {
        None => none,
        Some(status) => {
            let cancelled = desk.service.cancelled.contains(id);
            let wait = if cancelled && status is Running {
                Some(Wait::Draining)
            } else {
                desk.scheduler.wait_given(ticket, told)
            };
            let call = if cancelled && status.is_terminal() {
                CacheCall::Finish { id, phase: Phase::Cancelled, issue: None }
            } else {
                match status {
                    Status::Completed => CacheCall::Finish {
                        id,
                        phase: Phase::Completed,
                        issue: None,
                    },
                    Status::Cancelled => CacheCall::Finish {
                        id,
                        phase: Phase::Cancelled,
                        issue: None,
                    },
                    Status::Failed => CacheCall::Finish {
                        id,
                        phase: Phase::Failed,
                        issue: Some(service::listing_issue("INTERNAL"@)),
                    },
                    Status::ResourceLimit => CacheCall::Finish {
                        id,
                        phase: Phase::Completed,
                        issue: Some(service::listing_issue("RESOURCE_LIMIT"@)),
                    },
                    Status::Queued => CacheCall::Status {
                        id,
                        phase: Phase::Queued,
                        wait: service::wait_reason(wait),
                    },
                    _ => CacheCall::Status {
                        id,
                        phase: Phase::Running,
                        wait: service::wait_reason(wait),
                    },
                }
            };
            lemma_push(cache, none, call);
            none.push(call)
        },
    }
}

/// What a task hands over is told to the cache of its listing by some calls.
#[verifier::spinoff_prover]
#[verifier::rlimit(40)]
proof fn lemma_taken_calls<J>(desk: Desk<J>, call: DeskCall<J>) -> (calls: Seq<CacheCall>)
    requires
        call is Take,
    ensures
        desk.after(call).service.cache == desk.service.cache.after_all(calls),
{
    let cache = desk.service.cache;
    let none = Seq::<CacheCall>::empty();
    assert(cache.after_all(none) == cache);
    let pool_limit = call->Take_pool_limit;
    let others = call->Take_others;
    let tally = call->tally;
    let find = call->find;
    let cost = call->cost;
    let from = call->from;
    let task = tally.task;
    if desk.service.is_over(task) {
        return none;
    }
    match find {
        Find::End => {
            let end = CacheCall::Finish { id: task, phase: Phase::Completed, issue: None };
            lemma_push(cache, none, end);
            none.push(end)
        },
        Find::Failed(issue) => {
            let end = CacheCall::Finish { id: task, phase: Phase::Failed, issue: Some(issue) };
            lemma_push(cache, none, end);
            none.push(end)
        },
        Find::Row(row) => {
            let count = CacheCall::Observe {
                id: task,
                entries: tally.observed,
                directories: tally.directories,
            };
            lemma_push(cache, none, count);
            let counted = none.push(count);
            let seen = match row.issue {
                Some(issue) => {
                    let note = CacheCall::Record { id: task, met: issue };
                    lemma_push(cache, counted, note);
                    counted.push(note)
                },
                None => counted,
            };
            let shown = desk.service.observed(tally, row.issue).cache;
            assert(shown == cache.after_all(seen));
            if (row.entry.kind is Directory) != (tally.category is Directories) {
                return seen;
            }
            let owned = EntryView { parent_id: Some(tally.target), ..row.entry };
            let key = KeyView { parent_id: Some(tally.target), raw_name: row.raw_name };
            let placed = from.placed(key, owned, cost).1;
            let last = if !service::name_allowed(row.raw_name) {
                CacheCall::Finish {
                    id: task,
                    phase: Phase::Failed,
                    issue: Some(service::listing_issue("INVALID_ARGUMENT"@)),
                }
            } else if row.entry.kind is Directory && placed is Err {
                CacheCall::Finish {
                    id: task,
                    phase: Phase::Completed,
                    issue: Some(
                        service::listing_issue(
                            if placed->Err_0 is ResourceLimit {
                                "RESOURCE_LIMIT"@
                            } else {
                                "ENTRY_CHANGED"@
                            },
                        ),
                    ),
                }
            } else {
                let name = if row.entry.kind is Directory {
                    placed->Ok_0
                } else {
                    service::entry_text(task, tally.observed)
                };
                CacheCall::Append {
                    pool_limit,
                    others,
                    id: task,
                    entry: EntryView { entry_id: name, ..owned },
                }
            };
            lemma_push(cache, seen, last);
            seen.push(last)
        },
    }
}

/// A listing that is asked for is asked for by some calls of the cache.
#[verifier::spinoff_prover]
#[verifier::rlimit(40)]
proof fn lemma_started_calls<J>(desk: Desk<J>, call: DeskCall<J>) -> (calls: Seq<CacheCall>)
    requires
        call is Start,
    ensures
        desk.after(call).service.cache == desk.service.cache.after_all(calls),
{
    let cache = desk.service.cache;
    let none = Seq::<CacheCall>::empty();
    assert(cache.after_all(none) == cache);
    let pool_limit = call->Start_pool_limit;
    let others = call->Start_others;
    let number = call->number;
    let wish = call->wish;
    let capacity = call->capacity;
    let shelf = call->shelf;
    if desk.service.refusal(
        shelf.index,
        shelf.foreground,
        wish.target,
        wish.limit,
        wish.at,
        number,
    ) is Some {
        return none;
    }
    let id = service::task_text(number->0);
    let work = desk.service.work_for(id, wish.target, wish.category, wish.at);
    let ask = CacheCall::Start {
        pool_limit,
        others,
        work,
        category: wish.category,
        now: wish.now,
        capacity,
    };
    lemma_push(cache, none, ask);
    let asked = none.push(ask);
    let answer = cache.started(
        pool_limit,
        others,
        work,
        wish.category,
        wish.now,
        capacity,
    ).1;
    let desk_asked = desk.prepared(pool_limit, others, number->0, wish, capacity);
    if answer is Ok && answer->Ok_0.task_id == id {
        let want = CacheCall::Demand { id, limit: wish.limit };
        lemma_push(cache, asked, want);
        let wanted = asked.push(want);
        assert(cache.after_all(asked).snapshots.contains_key(id));
        assert(desk_asked.0.service.cache == cache.after_all(wanted));
        if desk_asked.0.scheduler.refusal(id) is Some {
            let end = CacheCall::Finish {
                id,
                phase: Phase::Failed,
                issue: Some(service::listing_issue("RESOURCE_LIMIT"@)),
            };
            lemma_push(cache, wanted, end);
            wanted.push(end)
        } else {
            wanted
        }
    } else {
        asked
    }
}

/// Whatever is called of a service is some calls of the cache that it keeps its listings in.
#[verifier::spinoff_prover]
#[verifier::rlimit(40)]
pub proof fn a_service_only_calls_its_cache<J>(desk: Desk<J>, calls: Seq<DeskCall<J>>) -> (told: Seq<
    CacheCall,
>)
    ensures
        desk.after_all(calls).service.cache == desk.service.cache.after_all(told),
    decreases calls.len(),
{
    let cache = desk.service.cache;
    let none = Seq::<CacheCall>::empty();
    if calls.len() == 0 {
        none
    } else {
        let head = a_service_only_calls_its_cache(desk, calls.drop_last());
        let now = desk.after_all(calls.drop_last());
        assert(now.service.cache.after_all(none) == now.service.cache);
        let more = match calls.last() {
            DeskCall::Start { .. } => lemma_started_calls(now, calls.last()),
            DeskCall::Take { .. } => lemma_taken_calls(now, calls.last()),
            DeskCall::Page { id, cursor, limit, now: at, told } => {
                let first = lemma_synchronized_calls(now, id, told);
                let read = CacheCall::Page { id, cursor, limit, now: at };
                lemma_push(now.service.cache, first, read);
                first.push(read)
            },
            DeskCall::Work { id, now: at, told } => {
                let first = lemma_synchronized_calls(now, id, told);
                let read = CacheCall::Work { id, now: at };
                lemma_push(now.service.cache, first, read);
                first.push(read)
            },
            DeskCall::Expire { now: at } => {
                lemma_push(now.service.cache, none, CacheCall::Expire { now: at });
                none.push(CacheCall::Expire { now: at })
            },
            DeskCall::Cancel { id, told } => if now.stops(id) {
                lemma_synchronized_calls(now.asked(id), id, told)
            } else {
                none
            },
            DeskCall::Finish { task, phase, issue } => {
                let end = CacheCall::Finish {
                    id: task,
                    phase: now.service.end_phase(task, phase),
                    issue: if now.service.cancelled.contains(task) {
                        None
                    } else {
                        issue
                    },
                };
                lemma_push(now.service.cache, none, end);
                none.push(end)
            },
            DeskCall::Close => {
                lemma_push(now.service.cache, none, CacheCall::Clear);
                none.push(CacheCall::Clear)
            },
            DeskCall::Meanwhile { .. } => none,
        };
        lemma_concat(cache, head, more);
        head + more
    }
}

/// A listing only grows: whatever is called of its service, as long as it is there nothing was
/// taken away from it, the sequence of its work has not gone back and shows every change, and once
/// it has ended nothing of it changes.
pub proof fn a_listing_grows_with_its_service<J>(
    desk: Desk<J>,
    id: Seq<char>,
    calls: Seq<DeskCall<J>>,
)
    requires
        desk.service.cache.wf(),
        desk.service.cache.snapshots.contains_key(id),
        desk.service.cache.handed_out(desk.service.cache.snapshots[id].revision),
        desk.after_all(calls).service.cache.has(id, desk.service.cache.snapshots[id].revision),
    ensures
        desk.after_all(calls).service.cache.snapshots[id].follows(desk.service.cache.snapshots[id]),
{
    let told = a_service_only_calls_its_cache(desk, calls);
    history::a_listing_grows_through_any_calls(desk.service.cache, id, told);
}

/// Whether no call of some starts a listing with this id.
pub open spec fn none_starts<J>(calls: Seq<DeskCall<J>>, id: Seq<char>) -> bool {
    forall|i: int|
        0 <= i < calls.len() && (#[trigger] calls[i]) is Start && calls[i]->number is Some
            ==> service::task_text(calls[i]->number->0) != id
}

/// Whether a listing that is there afterwards was there before, as the same listing of the same
/// directory and with the same entries, and is not demanded less.
pub open spec fn keeps(before: CacheView, after: CacheView, id: Seq<char>) -> bool {
    after.snapshots.contains_key(id) ==> {
        &&& before.snapshots.contains_key(id)
        &&& after.snapshots[id].entries == before.snapshots[id].entries
        &&& after.snapshots[id].revision == before.snapshots[id].revision
        &&& after.snapshots[id].category == before.snapshots[id].category
        &&& after.snapshots[id].work.target_id == before.snapshots[id].work.target_id
        &&& after.snapshots[id].demand_end >= before.snapshots[id].demand_end
    }
}

/// Whether a call neither starts a listing with this id nor hands over what its task found.
pub open spec fn spares<J>(call: DeskCall<J>, id: Seq<char>) -> bool {
    &&& call is Start && call->number is Some ==> service::task_text(call->number->0) != id
    &&& call is Take ==> call->tally.task != id
}

proof fn lemma_synchronized<J>(desk: Desk<J>, other: Seq<char>, told: bool, id: Seq<char>)
    ensures
        keeps(desk.service.cache, desk.synchronized(other, told).service.cache, id),
        desk.synchronized(other, told).service.closed == desk.service.closed,
        desk.synchronized(other, told).service.cancelled == desk.service.cancelled,
        desk.synchronized(other, told).service.tickets == desk.service.tickets,
{
}

proof fn lemma_appended<J>(
    desk: Desk<J>,
    pool_limit: nat,
    others: nat,
    other: Seq<char>,
    entry: EntryView,
    id: Seq<char>,
)
    requires
        other != id,
    ensures
        keeps(
            desk.service.cache,
            desk.appended(pool_limit, others, other, entry).0.service.cache,
            id,
        ),
{
    let cache = desk.service.cache;
    history::lemma_evicted(cache, pool_limit, others, cache::append_cost(entry), Some(other));
}

#[verifier::spinoff_prover]
#[verifier::rlimit(40)]
proof fn lemma_taken<J>(desk: Desk<J>, call: DeskCall<J>, id: Seq<char>)
    requires
        call is Take,
        spares(call, id),
    ensures
        keeps(desk.service.cache, desk.after(call).service.cache, id),
{
    if let DeskCall::Take { from, pool_limit, others, tally, find, cost } = call {
        if !desk.service.is_over(tally.task) && find is Row {
            let row = find->Row_0;
            let seen = Desk { service: desk.service.observed(tally, row.issue), ..desk };
            assert(keeps(desk.service.cache, seen.service.cache, id));
            let owned = EntryView { parent_id: Some(tally.target), ..row.entry };
            let key = KeyView {
                parent_id: Some(tally.target),
                raw_name: row.raw_name,
            };
            let placed = from.placed(key, owned, cost).1;
            let name = if row.entry.kind is Directory {
                placed->Ok_0
            } else {
                service::entry_text(tally.task, tally.observed)
            };
            lemma_appended(
                seen,
                pool_limit,
                others,
                tally.task,
                EntryView { entry_id: name, ..owned },
                id,
            );
        }
    }
}

#[verifier::spinoff_prover]
#[verifier::rlimit(40)]
proof fn lemma_started<J>(desk: Desk<J>, call: DeskCall<J>, id: Seq<char>)
    requires
        call is Start,
        spares(call, id),
    ensures
        keeps(desk.service.cache, desk.after(call).service.cache, id),
{
    if let DeskCall::Start { shelf, pool_limit, others, number, wish, capacity, seat } = call {
        if desk.after(call) != desk {
            let name = service::task_text(number->0);
            let work = desk.service.work_for(name, wish.target, wish.category, wish.at);
            let cache = desk.service.cache;
            let fresh = cache.expired(wish.now);
            history::lemma_evicted(
                CacheView { serial: (fresh.serial + 1) as u64, ..fresh },
                pool_limit,
                others,
                cache::start_cost(cache::queued(work), capacity),
                None,
            );
            let started = cache.started(
                pool_limit,
                others,
                work,
                wish.category,
                wish.now,
                capacity,
            ).0;
            assert(keeps(cache, started, id));
            let asked = desk.prepared(pool_limit, others, number->0, wish, capacity);
            assert(keeps(cache, asked.0.service.cache, id));
        }
    }
}

/// A call that has nothing to do with a listing leaves its entries as they are.
#[verifier::spinoff_prover]
#[verifier::rlimit(40)]
pub proof fn lemma_keeps<J>(desk: Desk<J>, call: DeskCall<J>, id: Seq<char>)
    requires
        spares(call, id),
    ensures
        keeps(desk.service.cache, desk.after(call).service.cache, id),
{
    match call {
        DeskCall::Start { .. } => {
            lemma_started(desk, call, id);
        },
        DeskCall::Take { .. } => {
            lemma_taken(desk, call, id);
        },
        DeskCall::Page { id: other, told, .. } => {
            lemma_synchronized(desk, other, told, id);
        },
        DeskCall::Work { id: other, told, .. } => {
            lemma_synchronized(desk, other, told, id);
        },
        DeskCall::Cancel { id: other, told } => {
            if desk.stops(other) {
                lemma_synchronized(desk.asked(other), other, told, id);
            }
        },
        _ => {},
    }
}

/// A listing that nothing more enters stays so.
#[verifier::spinoff_prover]
#[verifier::rlimit(40)]
proof fn lemma_over<J>(desk: Desk<J>, call: DeskCall<J>, id: Seq<char>)
    requires
        desk.service.is_over(id),
        call is Start && call->number is Some ==> service::task_text(call->number->0) != id,
    ensures
        desk.after(call).service.is_over(id),
{
    if spares(call, id) {
        lemma_keeps(desk, call, id);
    }
}

proof fn lemma_rests<J>(desk: Desk<J>, call: DeskCall<J>, id: Seq<char>, entries: Seq<EntryView>)
    requires
        desk.rests(id, entries),
        call is Start && call->number is Some ==> service::task_text(call->number->0) != id,
    ensures
        desk.after(call).rests(id, entries),
{
    lemma_over(desk, call, id);
    if spares(call, id) {
        lemma_keeps(desk, call, id);
    }
}

proof fn lemma_rests_all<J>(
    desk: Desk<J>,
    calls: Seq<DeskCall<J>>,
    id: Seq<char>,
    entries: Seq<EntryView>,
)
    requires
        desk.rests(id, entries),
        none_starts(calls, id),
    ensures
        desk.after_all(calls).rests(id, entries),
    decreases calls.len(),
{
    if calls.len() > 0 {
        let head = calls.drop_last();
        assert forall|i: int|
            0 <= i < head.len() && (#[trigger] head[i]) is Start && head[i]->number is Some implies
            service::task_text(head[i]->number->0) != id by {
            assert(head[i] == calls[i]);
        }
        lemma_rests_all(desk, head, id, entries);
        assert(calls[calls.len() - 1] == calls.last());
        lemma_rests(desk.after_all(head), calls.last(), id, entries);
    }
}

/// Nothing enters a listing after it was cancelled, though its task may be in the middle of a
/// turn: whatever is called afterwards, what the task hands over is not taken, and as far as the
/// listing is still there it holds the entries that it held. Its task is never used for another.
pub proof fn a_cancelled_listing_rests<J>(
    desk: Desk<J>,
    id: Seq<char>,
    told: bool,
    calls: Seq<DeskCall<J>>,
    from: Shelf,
    pool_limit: nat,
    others: nat,
    tally: TallyView,
    find: Find,
    cost: nat,
)
    requires
        desk.stops(id),
        none_starts(calls, id),
        tally.task == id,
    ensures
        ({
            let later = desk.cancelled(id, told).after_all(calls);
            &&& later.taken(from, pool_limit, others, tally, find, cost) == (
                later,
                from,
                Taken::Over,
            )
            &&& later.service.cache.snapshots.contains_key(id)
                ==> later.service.cache.snapshots[id].entries
                == desk.service.cache.snapshots[id].entries
        }),
{
    let entries = desk.service.cache.snapshots[id].entries;
    lemma_synchronized(desk.asked(id), id, told, id);
    assert(desk.cancelled(id, told).rests(id, entries));
    lemma_rests_all(desk.cancelled(id, told), calls, id, entries);
}

#[verifier::spinoff_prover]
#[verifier::rlimit(40)]
proof fn lemma_shut<J>(desk: Desk<J>, call: DeskCall<J>)
    requires
        desk.is_shut(),
    ensures
        desk.after(call).is_shut(),
{
    let nothing = Map::<Seq<char>, cache::SnapshotView>::empty();
    let after = desk.after(call);
    match call {
        DeskCall::Page { id, cursor, limit, now, told } => {
            assert(desk.service.cache.expired(now).snapshots =~= nothing);
        },
        DeskCall::Work { id, now, told } => {
            assert(desk.service.cache.expired(now).snapshots =~= nothing);
        },
        DeskCall::Expire { now } => {
            assert(desk.service.cache.expired(now).snapshots =~= nothing);
        },
        _ => {},
    }
    assert(after.service.tickets =~= Map::<Seq<char>, TicketView>::empty());
}

proof fn lemma_shut_all<J>(desk: Desk<J>, calls: Seq<DeskCall<J>>)
    requires
        desk.is_shut(),
    ensures
        desk.after_all(calls).is_shut(),
    decreases calls.len(),
{
    if calls.len() > 0 {
        lemma_shut_all(desk, calls.drop_last());
        lemma_shut(desk.after_all(calls.drop_last()), calls.last());
    }
}

/// A closed service stays closed and empty whatever is called afterwards: it starts nothing, and
/// what a task hands over that was in the middle of a turn is not taken.
pub proof fn a_closed_service_rests<J>(
    desk: Desk<J>,
    calls: Seq<DeskCall<J>>,
    from: Shelf,
    pool_limit: nat,
    others: nat,
    tally: TallyView,
    find: Find,
    cost: nat,
)
    ensures
        ({
            let later = desk.shut().after_all(calls);
            &&& later.service.closed
            &&& later.service.cache.snapshots == Map::<Seq<char>, cache::SnapshotView>::empty()
            &&& later.taken(from, pool_limit, others, tally, find, cost) == (
                later,
                from,
                Taken::Over,
            )
        }),
{
    lemma_shut_all(desk.shut(), calls);
}

} // verus!
