//! What the service of listings is for: which listings it starts, how far they are said to be, and
//! what becomes of what a source gives.
use vstd::prelude::*;

use crate::domain::index::{IndexError, IndexView, KeyView, Origin};
use crate::domain::laws::{
    a_known_directory_is_found_again, a_new_directory_is_registered, is_new, is_plain,
    plain_names_are_allowed, the_newest_entry_is_kept,
};
use crate::domain::model::{
    Coverage, EntryView, IssueScope, IssueView, Operation, Phase, WaitReason,
};
use crate::domain::wire;
use crate::listing::cache;
use crate::listing::cache::{CacheError, SnapshotView};
use crate::listing::job;
use crate::listing::job::{Course, Move, ReadingView};
use crate::listing::laws::an_entry_that_fits_is_appended;
use crate::listing::service;
use crate::listing::service::{Desk, Find, RowView, ServiceView, Shelf, Taken, TallyView, Wish};
use crate::runtime::memory::PoolView;
use crate::scheduler::{JobStep, SchedulerView, Seat, Status, TicketView, Wait};
use crate::text;
use crate::text_map;

verus! {

/// A listing can be asked for with a limit of 1 to 1000 and a time of at most 64 bytes, of a
/// directory that the index knows, in the scope that the index belongs to or takes; otherwise the
/// request is refused, and so it is without a number for its task and once the service was closed.
pub proof fn listings_are_refused_for_a_cause(
    service: ServiceView,
    index: IndexView,
    pool: PoolView,
    target: Seq<char>,
    limit: usize,
    at: Seq<char>,
    number: Option<u64>,
)
    ensures
        ({
            let refusal = service.refusal(index, pool, target, limit, at, number);
            let formed = 1 <= limit <= 1000 && text::utf8(at).len() <= 64
                && index.records.contains_key(target);
            let bound = index.bind_answer(pool, service.scope);
            &&& !formed ==> refusal == Some(CacheError::InvalidArgument)
            &&& formed && bound == Err::<(), IndexError>(IndexError::ResourceLimit) ==> refusal
                == Some(CacheError::ResourceLimit)
            &&& formed && bound is Err && !(bound->Err_0 is ResourceLimit) ==> refusal == Some(
                CacheError::InvalidArgument,
            )
            &&& formed && bound is Ok && number is None ==> refusal == Some(
                CacheError::ResourceLimit,
            )
            &&& formed && bound is Ok && number is Some && service.closed ==> refusal == Some(
                CacheError::TaskExpired,
            )
            &&& formed && bound is Ok && number is Some && !service.closed ==> refusal is None
        }),
{
}

/// A listing that the cache starts anew gets a task of its own at the end of the foreground lane,
/// where the scheduler takes it. Its work is queued and waits for a slot, and it is to collect the
/// first page and another one.
#[verifier::spinoff_prover]
#[verifier::rlimit(40)]
pub proof fn a_listing_gets_a_task<J>(
    desk: Desk<J>,
    pool_limit: nat,
    others: nat,
    number: u64,
    wish: Wish,
    capacity: nat,
    seat: Seat<J>,
)
    requires
        !desk.service.closed,
        ({
            let id = "list-task-"@ + text::decimal(number as nat);
            let work = desk.service.work_for(id, wish.target, wish.category, wish.at);
            let (cache, answer) = desk.service.cache.started(
                pool_limit,
                others,
                work,
                wish.category,
                wish.now,
                capacity,
            );
            let asked = desk.prepared(pool_limit, others, number, wish, capacity);
            &&& answer is Ok
            &&& answer->Ok_0.task_id == id
            &&& cache.snapshots.contains_key(id)
            &&& asked.0.scheduler.refusal(id) is None
        }),
    ensures
        ({
            let id = "list-task-"@ + text::decimal(number as nat);
            let asked = desk.prepared(pool_limit, others, number, wish, capacity);
            let (after, answer) = Desk::started(asked, number, seat);
            let work = desk.service.work_for(id, wish.target, wish.category, wish.at);
            let ticket = TicketView {
                id,
                scope: desk.service.scope,
                token: seat.token,
                serial: asked.0.scheduler.next,
            };
            &&& answer is Ok
            &&& answer->Ok_0.task_id == id
            &&& after.service.tickets.contains_key(id)
            &&& after.service.tickets[id] == ticket
            &&& after.service.cache.snapshots[id].demand_end == 2 * wish.limit
            &&& after.scheduler.foreground.len() == asked.0.scheduler.foreground.len() + 1
            &&& after.scheduler.foreground.last().ticket == ticket
            &&& after.scheduler.foreground.last().job == seat.job
            &&& after.scheduler.background == asked.0.scheduler.background
            &&& work.task_id == id
            &&& work.session_id == desk.service.scope.session_id
            &&& work.generation == desk.service.scope.generation
            &&& work.target_id == wish.target
            &&& work.operation == (if wish.category is Directories {
                Operation::ListDirectories
            } else {
                Operation::ListFiles
            })
            &&& work.phase == Phase::Queued
            &&& work.wait_reason == Some(WaitReason::Slot)
            &&& work.sequence == 0
            &&& work.processed_entries == 0
            &&& work.processed_directories == 0
            &&& work.observed_at == wish.at
        }),
{
    let id = "list-task-"@ + text::decimal(number as nat);
    assert(service::task_text(number) == id);
}

/// What a task waits for is told as it is.
pub proof fn waits_are_told(wait: Option<Wait>)
    ensures
        service::wait_reason(Some(Wait::Slot)) == Some(WaitReason::Slot),
        service::wait_reason(Some(Wait::Draining)) == Some(WaitReason::Draining),
        service::wait_reason(Some(Wait::PageDemand)) == Some(WaitReason::PageDemand),
        service::wait_reason(wait) is None <==> wait is None,
{
}

/// The listing of a task that goes on shows where the task stands; a change is shown under the next
/// sequence. Once the task came to its end the listing has ended too, as the task did: completed,
/// cancelled, failed with an internal issue, or completed short for want of resources. A listing
/// that was cancelled has ended as cancelled, whatever its task came to.
#[verifier::spinoff_prover]
#[verifier::rlimit(40)]
pub proof fn a_listing_shows_where_its_task_stands<J>(
    service: ServiceView,
    scheduler: SchedulerView<J>,
    id: Seq<char>,
    status: Status,
    told: bool,
)
    requires
        service.tickets.contains_key(id),
        service.cache.snapshots.contains_key(id),
        !service.cache.snapshots[id].exhausted,
        service.cache.snapshots[id].work.sequence < u64::MAX,
        scheduler.status(service.tickets[id].serial) == Some(status),
    ensures
        ({
            let before = service.cache.snapshots[id];
            let after = service.synchronized(scheduler, id, told).cache.snapshots[id];
            let cancelled = service.cancelled.contains(id);
            let live = status == Status::Queued || status == Status::Running || status
                == Status::Paused;
            &&& after.entries == before.entries
            &&& live ==> {
                &&& !after.exhausted
                &&& after.work.phase == (if status == Status::Queued {
                    Phase::Queued
                } else {
                    Phase::Running
                })
                &&& cancelled && status == Status::Running ==> after.work.wait_reason == Some(
                    WaitReason::Draining,
                )
                &&& status == Status::Paused ==> after.work.wait_reason == Some(
                    WaitReason::PageDemand,
                )
                &&& after.work.sequence == before.work.sequence + (if after.work.phase
                    == before.work.phase && after.work.wait_reason == before.work.wait_reason {
                    0int
                } else {
                    1int
                })
            }
            &&& !live && cancelled ==> after.exhausted && after.work.phase == Phase::Cancelled
            &&& !live && !cancelled && status == Status::Completed ==> after.exhausted
                && after.work.phase == Phase::Completed && after.work.issues == before.work.issues
            &&& !live && !cancelled && status == Status::Cancelled ==> after.exhausted
                && after.work.phase == Phase::Cancelled
        }),
{
}

/// What a listing that has ended is: a listing ends once, in the phase in which it was ended and with
/// the issue that was given; it is complete exactly where it was completed and no issue was met.
pub proof fn a_listing_ends_once(listing: SnapshotView, phase: Phase, issue: Option<IssueView>)
    ensures
        ({
            let after = listing.finished(phase, issue);
            &&& listing.exhausted ==> after == listing
            &&& !listing.exhausted ==> {
                &&& after.exhausted
                &&& after.work.phase == phase
                &&& after.work.wait_reason is None
                &&& after.work.issues == (match issue {
                    Some(issue) => listing.work.issues.with(issue),
                    None => listing.work.issues,
                })
                &&& after.coverage == Coverage::Complete <==> phase == Phase::Completed
                    && after.work.issues.counts == Map::<Seq<char>, nat>::empty()
                &&& after.entries == listing.entries
                &&& after.pages == listing.pages
                &&& after.cursors == listing.cursors
            }
        }),
{
}

/// What a source gives is taken as it is: an entry of the listing's own category is kept, one of the
/// other is passed over, the end completes the listing, and a failure ends it with that failure.
/// Either way every entry is counted. Once the listing is over nothing is taken.
#[verifier::spinoff_prover]
#[verifier::rlimit(40)]
pub proof fn what_a_source_gives_is_taken<J>(
    desk: Desk<J>,
    shelf: Shelf,
    pool_limit: nat,
    others: nat,
    tally: TallyView,
    find: Find,
    cost: nat,
)
    requires
        desk.service.cache.snapshots.contains_key(tally.task),
        !desk.service.cache.snapshots[tally.task].exhausted,
    ensures
        ({
            let task = tally.task;
            let (after, placed, taken) = desk.taken(shelf, pool_limit, others, tally, find, cost);
            let before = desk.service.cache.snapshots[task];
            let now = after.service.cache.snapshots[task];
            let over = desk.service.closed || desk.service.cancelled.contains(task);
            &&& over ==> taken == Taken::Over && after == desk && placed == shelf
            &&& !over && find is End ==> {
                &&& taken == Taken::Ended(Phase::Completed)
                &&& now.exhausted
                &&& now.work.phase == Phase::Completed
                &&& now.entries == before.entries
                &&& placed == shelf
            }
            &&& !over && find is Failed ==> {
                &&& taken == Taken::Ended(Phase::Failed)
                &&& now.entries == before.entries
                &&& now.exhausted ==> now.work.phase == Phase::Failed && now.work.issues
                    == before.work.issues.with(find->Failed_0)
                &&& placed == shelf
            }
            &&& !over && find is Row && (find->Row_0.entry.kind is Directory) != (
            tally.category is Directories) ==> {
                &&& taken == Taken::Skipped
                &&& !now.exhausted
                &&& now.entries == before.entries
                &&& now.work.processed_entries == tally.observed
                &&& now.work.processed_directories == tally.directories
                &&& placed == shelf
            }
        }),
{
}

/// An entry of the listing's own category is kept at the end of the listing, whatever bytes its name
/// is made of, as long as the name is plain and has between 1 and 765 bytes and the entry fits. It
/// stands below the listed directory and else is as the source gave it: a directory has the id that
/// it was placed under, any other entry one made of its task and its number.
#[verifier::spinoff_prover]
#[verifier::rlimit(40)]
pub proof fn an_entry_of_the_category_is_kept<J>(
    desk: Desk<J>,
    shelf: Shelf,
    pool_limit: nat,
    others: nat,
    tally: TallyView,
    row: RowView,
    cost: nat,
    id: Seq<char>,
)
    requires
        desk.service.cache.snapshots.dom().finite(),
        desk.service.cache.snapshots.contains_key(tally.task),
        !desk.service.cache.snapshots[tally.task].exhausted,
        !desk.service.closed,
        !desk.service.cancelled.contains(tally.task),
        tally.target == desk.service.cache.snapshots[tally.task].work.target_id,
        tally.category == desk.service.cache.snapshots[tally.task].category,
        (row.entry.kind is Directory) == (tally.category is Directories),
        1 <= row.raw_name.len() <= 765,
        is_plain(row.raw_name),
        row.entry.kind is Directory ==> shelf.placed(
            KeyView { parent_id: Some(tally.target), raw_name: row.raw_name },
            EntryView { parent_id: Some(tally.target), ..row.entry },
            cost,
        ).1 == Ok::<Seq<char>, IndexError>(id),
        !(row.entry.kind is Directory) ==> id == tally.task + "-entry-"@ + text::decimal(
            tally.observed as nat,
        ),
    ensures
        ({
            let task = tally.task;
            let entry = EntryView { entry_id: id, parent_id: Some(tally.target), ..row.entry };
            let before = desk.service.cache.snapshots[task];
            let bytes = before.bytes + cache::append_cost(entry);
            let (after, placed, taken) = desk.taken(
                shelf,
                pool_limit,
                others,
                tally,
                Find::Row(row),
                cost,
            );
            let now = after.service.cache.snapshots[task];
            &&& bytes <= desk.service.cache.limit && others + bytes <= pool_limit ==> {
                &&& taken == Taken::Kept
                &&& now.entries == before.entries.push(entry)
                &&& now.bytes == bytes
                &&& now.work.phase is Running
                &&& now.work.observed_at == entry.observed_at
                &&& now.work.processed_entries == tally.observed
                &&& now.work.processed_directories == tally.directories
                &&& now.work.issues == (match row.issue {
                    Some(issue) => before.work.issues.with(issue),
                    None => before.work.issues,
                })
            }
            &&& bytes > desk.service.cache.limit || others + bytes > pool_limit ==> {
                &&& taken != Taken::Kept
                &&& now.entries == before.entries
            }
            &&& !(row.entry.kind is Directory) ==> placed == shelf
        }),
{
    let task = tally.task;
    let entry = EntryView { entry_id: id, parent_id: Some(tally.target), ..row.entry };
    let seen = desk.service.observed(tally, row.issue).cache;
    plain_names_are_allowed(row.raw_name, 765);
    assert(seen.snapshots.dom() =~= desk.service.cache.snapshots.dom());
    let other = task.push('-');
    assert(other.len() != task.len());
    an_entry_that_fits_is_appended(seen, pool_limit, others, task, entry, other, other);
}

/// A listed directory is placed in the index wherever the pool has room for it: a new one is
/// registered and gets the next number, one that is known keeps its id. Either way what the source
/// gave of it is its entry from then on.
#[verifier::spinoff_prover]
#[verifier::rlimit(40)]
pub proof fn a_listed_directory_is_placed(
    shelf: Shelf,
    target: Seq<char>,
    name: Seq<u8>,
    entry: EntryView,
    cost: nat,
    id: Seq<char>,
)
    requires
        shelf.index.wf(),
        shelf.index.records.contains_key(target),
        shelf.foreground.sizes[shelf.hold] == shelf.index.foreground,
        shelf.index.foreground <= shelf.foreground.used,
        1 <= name.len() <= 765,
        is_plain(name),
        text::utf8(shelf.index.prefix).len() <= 128,
        shelf.index.next < u64::MAX,
        entry.kind is Directory,
        entry.parent_id == Some(target),
        ({
            let key = KeyView { parent_id: Some(target), raw_name: name };
            ||| shelf.index.records.contains_key(id) && shelf.index.records[id].key == key
            ||| is_new(shelf.index, key) && id == shelf.index.prefix + "-"@ + text::decimal(
                (shelf.index.next + 1) as nat,
            )
        }),
        shelf.foreground.used + cost + wire::entry_estimate((EntryView { entry_id: id, ..entry }))
            <= shelf.foreground.limit,
    ensures
        ({
            let key = KeyView { parent_id: Some(target), raw_name: name };
            let named = EntryView { entry_id: id, ..entry };
            let (after, answer) = shelf.placed(key, entry, cost);
            &&& answer == Ok::<Seq<char>, IndexError>(id)
            &&& after.index.records.contains_key(id)
            &&& after.index.records[id].key == key
            &&& after.index.records[id].entry == Some(named)
            &&& shelf.index.records.contains_key(id) ==> after.index.records[id].usage
                == shelf.index.records[id].usage && after.index.next == shelf.index.next
            &&& forall|other: Seq<char>|
                other != id ==> after.index.records.contains_key(other)
                    == shelf.index.records.contains_key(other) && #[trigger]
                after.index.records[other] == shelf.index.records[other]
        }),
{
    let key = KeyView { parent_id: Some(target), raw_name: name };
    let named = EntryView { entry_id: id, ..entry };
    let known = shelf.registered(key, cost);
    if shelf.index.records.contains_key(id) && shelf.index.records[id].key == key {
        a_known_directory_is_found_again(
            shelf.index,
            shelf.foreground,
            id,
            Origin::Foreground,
            cost,
        );
    } else {
        a_new_directory_is_registered(
            shelf.index,
            shelf.foreground,
            target,
            name,
            Origin::Foreground,
            cost,
        );
    }
    let other = id.push('-');
    assert(other.len() != id.len());
    the_newest_entry_is_kept(known.index, known.foreground, id, named, other);
}

/// What a task counts: every entry that its source gave, and the directories among them.
pub proof fn entries_are_tallied(tally: TallyView, row: RowView)
    requires
        tally.observed < u64::MAX,
        tally.directories < u64::MAX,
    ensures
        tally.with(Find::Row(row)).observed == tally.observed + 1,
        tally.with(Find::Row(row)).directories == tally.directories + (if row.entry.kind
            is Directory {
            1int
        } else {
            0int
        }),
        tally.with(Find::Row(row)).task == tally.task,
        tally.with(Find::Row(row)).target == tally.target,
        tally.with(Find::Row(row)).category == tally.category,
        tally.with(Find::End) == tally,
{
}

/// A task looks at its listing before it reads: told to stop it ends as cancelled, it pauses where
/// the listing has enough, it is done with where the listing is over, and else it reads on.
pub proof fn a_task_reads_while_it_is_to(service: ServiceView, task: Seq<char>)
    ensures
        ({
            let there = service.cache.snapshots.contains_key(task);
            let listing = service.cache.snapshots[task];
            let over = service.closed || service.cancelled.contains(task) || !there;
            &&& job::looked_at(service, task, true) == Some(JobStep::Completed)
            &&& over ==> job::looked_at(service, task, false) == Some(JobStep::Completed)
            &&& !over && !listing.exhausted && listing.entries.len() < listing.demand_end
                ==> job::looked_at(service, task, false) is None
            &&& !over && (listing.exhausted || listing.entries.len() >= listing.demand_end)
                ==> job::looked_at(service, task, false) == Some(JobStep::Paused)
        }),
{
}

/// How a step of a listing goes: the task looks, reads and takes what it read, and looks again while
/// the step is to go on. A verdict ends the step: one that the task is to come back from is published
/// first, any other is not, and so is a step that is over without a verdict.
pub proof fn a_step_reads_between_two_looks(verdict: Option<JobStep>, step: JobStep, on: bool)
    ensures
        job::move_after(Move::Look, None, on) is Read,
        job::move_after(Move::Read, verdict, on) is Accept,
        job::move_after(Move::Accept, None, true) is Look,
        job::move_after(Move::Accept, None, false) == Move::Publish(JobStep::Yield),
        ({
            let looked = job::move_after(Move::Look, Some(step), on);
            let accepted = job::move_after(Move::Accept, Some(step), on);
            &&& looked == accepted
            &&& step is Paused || step is Yield ==> looked == Move::Publish(step)
            &&& !(step is Paused || step is Yield) ==> looked == Move::Over(step)
        }),
        job::move_after(Move::Publish(step), verdict, on) == Move::Over(step),
        job::move_after(Move::Over(step), verdict, on) == Move::Over(step),
{
}

/// How a listing ends for which nothing could be read: without a handle it is completed short for
/// want of resources, a directory that could not be opened fails it with the reason, and a stop
/// cancels it.
pub proof fn a_listing_without_a_directory_ends<J>(issue: IssueView)
    ensures
        Course::<J>::ending(ReadingView::NoHandle).0 == Phase::Completed,
        Course::<J>::ending(ReadingView::NoHandle).1 == Some(
            IssueView {
                code: "RESOURCE_LIMIT"@,
                operation: "list"@,
                scope: IssueScope::Subtree,
                entry_id: None,
                native_code: None,
            },
        ),
        Course::<J>::ending(ReadingView::Unopened(issue)) == (Phase::Failed, Some(issue)),
        Course::<J>::ending(ReadingView::Stopped) == (Phase::Cancelled, None::<IssueView>),
{
}

/// How a task that is done with leaves its listing.
pub proof fn the_end_of_a_task_ends_its_listing(status: Status)
    ensures
        job::outcome(Status::Cancelled) == (Phase::Cancelled, None::<IssueView>),
        job::outcome(Status::Completed) == (Phase::Completed, None::<IssueView>),
        job::outcome(Status::Failed).0 == Phase::Failed,
        job::outcome(Status::Failed).1 is Some,
        job::outcome(Status::Failed).1->0.code == "INTERNAL"@,
        job::outcome(Status::ResourceLimit).0 == Phase::Completed,
        job::outcome(Status::ResourceLimit).1 is Some,
        job::outcome(Status::ResourceLimit).1->0.code == "RESOURCE_LIMIT"@,
        job::outcome(status).0 == Phase::Failed <==> status == Status::Failed,
        job::outcome(status).0 == Phase::Cancelled <==> status == Status::Cancelled,
{
}

/// A cancellation of a listing that goes on reaches its task, and is remembered; one that has ended,
/// and one that is not there, is left alone.
pub proof fn a_cancellation_reaches_its_listing<J>(desk: Desk<J>, id: Seq<char>, told: bool)
    ensures
        ({
            let after = desk.cancelled(id, told);
            let listing = desk.service.cache.snapshots[id];
            let ended = desk.service.cache.snapshots.contains_key(id) && (listing.work.phase
                == Phase::Completed || listing.work.phase == Phase::Failed || listing.work.phase
                == Phase::Cancelled);
            let heard = desk.service.tickets.contains_key(id) && !ended;
            &&& !heard ==> after == desk
            &&& heard ==> {
                &&& after.service.cancelled.contains(id)
                &&& after.scheduler == desk.scheduler.without_task(
                    desk.service.tickets[id].serial,
                )
            }
        }),
{
}

proof fn lemma_dropped(rows: Seq<(Seq<char>, TicketView)>, keep: Set<Seq<char>>, i: int)
    requires
        0 <= i < rows.len(),
        !keep.contains(rows[i].0),
    ensures
        service::dropped_rows(rows, keep).contains(rows[i].1),
    decreases rows.len(),
{
    let head = service::dropped_rows(rows.drop_last(), keep);
    let all = service::dropped_rows(rows, keep);
    if i == rows.len() - 1 {
        assert(all[head.len() as int] == rows[i].1);
    } else {
        lemma_dropped(rows.drop_last(), keep, i);
        assert(rows.drop_last()[i] == rows[i]);
        let j = choose|j: int| 0 <= j < head.len() && head[j] == rows[i].1;
        assert(all[j] == head[j]);
    }
}

/// A listing that left the cache leaves nothing behind: its task is withdrawn, and neither its ticket
/// nor that it was to be cancelled is remembered. Those of the listings that stayed are kept.
pub proof fn a_listing_that_left_leaves_nothing<J>(desk: Desk<J>, id: Seq<char>)
    requires
        desk.service.cache.eviction_epoch != desk.service.seen_eviction_epoch,
        desk.service.tickets.dom().finite(),
        desk.service.tickets.contains_key(id),
    ensures
        ({
            let before = desk.service;
            let after = desk.swept().service;
            let left = !before.cache.snapshots.contains_key(id);
            &&& left ==> before.dropped().contains(before.tickets[id])
            &&& after.tickets.contains_key(id) <==> !left
            &&& !left ==> after.tickets[id] == before.tickets[id]
            &&& after.cancelled.contains(id) <==> before.cancelled.contains(id) && !left
            &&& after.cache == before.cache
            &&& after.seen_eviction_epoch == before.cache.eviction_epoch
        }),
{
    broadcast use vstd::set::group_set_axioms, vstd::map::group_map_axioms;

    let tickets = desk.service.tickets;
    let keep = desk.service.cache.snapshots.dom();
    let rows = text_map::rows_of(tickets);
    text_map::lemma_rows_of(tickets);
    text_map::lemma_map_of(rows);
    if !keep.contains(id) {
        assert(text_map::map_of(rows).contains_key(id));
        let i = choose|i: int| 0 <= i < rows.len() && (#[trigger] rows[i]).0 == id;
        assert(rows[i].1 == tickets[id]);
        lemma_dropped(rows, keep, i);
    }
}

/// For a listing that is not there any more nothing is taken.
pub proof fn nothing_is_taken_for_a_listing_that_left<J>(
    desk: Desk<J>,
    shelf: Shelf,
    pool_limit: nat,
    others: nat,
    tally: TallyView,
    find: Find,
    cost: nat,
)
    requires
        !desk.service.cache.snapshots.contains_key(tally.task),
    ensures
        desk.taken(shelf, pool_limit, others, tally, find, cost) == (desk, shelf, Taken::Over),
{
}

} // verus!
