//! The whole run of a listing: its task and everybody else make their moves one after the other,
//! from the start of the listing to the last page that is read of it.
use vstd::prelude::*;

use crate::domain::controller::Cancellation;
use crate::domain::index::KeyView;
use crate::domain::model::{EntryView, FsIssue, PageView, Phase};
use crate::domain::wire;
use crate::listing::cache;
use crate::listing::cache::{CacheError, CacheView, SnapshotView};
use crate::listing::flight;
use crate::listing::flight::DeskCall;
use crate::listing::history;
use crate::listing::history::{CacheCall, PageRead};
use crate::listing::job::{Course, ListingJob, ListingSource, Reading, ReadingView, Turn};
use crate::listing::service;
use crate::listing::service::{Desk, Find, ListedEntry, RowView, Shelf, TallyView, Wish};
use crate::runtime::memory::PoolView;
use crate::scheduler::{Handles, JobStep, Seat};
use crate::text;

verus! {

/// A move in the run of a listing: a turn of its task, an offer of its state, or a call of the
/// service by anybody, with what the index and the pool are afterwards. A task that shares the
/// listings with others makes a turn in two moves, between which it reads: it looks at its listing,
/// and hands over what it read.
pub enum Motion<J> {
    Turn { turn: Turn },
    Look { stop: bool },
    Hand { reading: ReadingView, open: bool, cost: nat },
    Offer { now: u64 },
    Call { call: DeskCall<J>, shelf: Shelf, pool: PoolView },
}

/// An entry that a source gave, and the id under which it is listed.
pub struct Given {
    pub row: RowView,
    pub name: Seq<char>,
}

impl Given {
    /// How the entry is shown in the listing of a directory.
    pub open spec fn shown(self, target: Seq<char>) -> EntryView {
        EntryView { entry_id: self.name, parent_id: Some(target), ..self.row.entry }
    }
}

/// What a listing shows of the entries that a source gave: those of its category, in order.
pub open spec fn listed(given: Seq<Given>, tally: TallyView) -> Seq<EntryView>
    decreases given.len(),
{
    if given.len() == 0 {
        Seq::empty()
    } else {
        let head = listed(given.drop_last(), tally);
        if (given.last().row.entry.kind is Directory) == (tally.category is Directories) {
            head.push(given.last().shown(tally.target))
        } else {
            head
        }
    }
}

impl<J> Course<J> {
    /// What a move leaves.
    #[verifier::opaque]
    pub open spec fn moved(self, motion: Motion<J>) -> Course<J> {
        match motion {
            Motion::Turn { turn } => self.turned(turn).0,
            Motion::Look { stop } => self.looked(stop),
            Motion::Hand { reading, open, cost } => self.opened(open).accepted(reading, cost).0,
            Motion::Offer { now } => self.published(now),
            Motion::Call { call, shelf, pool } => Course {
                desk: self.desk.after(call),
                shelf,
                pool,
                ..self
            },
        }
    }

    /// What some moves leave, one after the other.
    pub open spec fn ran(self, motions: Seq<Motion<J>>) -> Course<J>
        decreases motions.len(),
    {
        if motions.len() == 0 {
            self
        } else {
            self.ran(motions.drop_last()).moved(motions.last())
        }
    }

    /// The step that is over after a move of the task, if one is.
    pub open spec fn verdict(self, motion: Motion<J>) -> Option<JobStep> {
        match motion {
            Motion::Turn { turn } => self.turned(turn).1,
            Motion::Look { stop } => self.look(stop),
            Motion::Hand { reading, open, cost } => self.opened(open).accepted(reading, cost).1,
            _ => None,
        }
    }

    /// Whether the task is done with after a move.
    pub open spec fn ends(self, motion: Motion<J>) -> bool {
        match self.verdict(motion) {
            Some(step) => !(step is Paused || step is Yield),
            None => false,
        }
    }

    /// Whether the task is done with after some moves.
    pub open spec fn done(self, motions: Seq<Motion<J>>) -> bool
        decreases motions.len(),
    {
        motions.len() > 0 && (self.done(motions.drop_last()) || self.ran(motions.drop_last()).ends(
            motions.last(),
        ))
    }

    /// Whether moves can have been made so: a task that is done with makes no more of them, and
    /// nobody else starts a listing with its id or hands over in its name.
    pub open spec fn can_run(self, motions: Seq<Motion<J>>) -> bool
        decreases motions.len(),
    {
        motions.len() == 0 || {
            &&& self.can_run(motions.drop_last())
            &&& match motions.last() {
                Motion::Turn { turn } => !self.done(motions.drop_last()) && self.ran(
                    motions.drop_last(),
                ).allows(turn),
                Motion::Look { .. } => !self.done(motions.drop_last()),
                Motion::Hand { reading, open, cost } => {
                    let now = self.ran(motions.drop_last());
                    &&& !self.done(motions.drop_last())
                    &&& now.reads(reading, open)
                    &&& now.opened(open).charges(reading, cost)
                },
                Motion::Offer { .. } => true,
                Motion::Call { call, .. } => flight::spares(call, self.job.tally.task),
            }
        }
    }

    /// What a move takes of reading: what it came to, whether the directory is open then, and what
    /// registering costs. A turn reads where it looked at its listing and has to go on.
    pub open spec fn taking(self, motion: Motion<J>) -> Option<(ReadingView, bool, nat)> {
        match motion {
            Motion::Turn { turn } => if self.look(turn.stop) is None {
                Some((turn.reading, turn.open, turn.cost))
            } else {
                None
            },
            Motion::Hand { reading, open, cost } => Some((reading, open, cost)),
            _ => None,
        }
    }

    /// What the source gave for a move, if it gave something.
    pub open spec fn found(self, motion: Motion<J>) -> Option<Find> {
        match self.taking(motion) {
            Some((ReadingView::Found(find), _, _)) => Some(find),
            _ => None,
        }
    }

    /// An entry that a move took, with its id. A directory is known to the index by it; any other
    /// entry gets it from its number among all that the source gave.
    pub open spec fn given_in(self, cost: nat, row: RowView) -> Given {
        let tally = self.job.tally.with(Find::Row(row));
        let owned = EntryView { parent_id: Some(tally.target), ..row.entry };
        let key = KeyView { parent_id: Some(tally.target), raw_name: row.raw_name };
        Given {
            row,
            name: if row.entry.kind is Directory {
                self.shelf.placed(key, owned, cost).1->Ok_0
            } else {
                service::entry_text(tally.task, tally.observed)
            },
        }
    }

    /// What the source gave in some moves, in order.
    pub open spec fn given(self, motions: Seq<Motion<J>>) -> Seq<Given>
        decreases motions.len(),
    {
        if motions.len() == 0 {
            Seq::empty()
        } else {
            let now = self.ran(motions.drop_last());
            let head = self.given(motions.drop_last());
            match now.found(motions.last()) {
                Some(Find::Row(row)) => head.push(
                    now.given_in((now.taking(motions.last())->0).2, row),
                ),
                _ => head,
            }
        }
    }

    /// Whether the source came to its end in some moves.
    pub open spec fn at_end(self, motions: Seq<Motion<J>>) -> bool
        decreases motions.len(),
    {
        motions.len() > 0 && (self.at_end(motions.drop_last()) || self.ran(
            motions.drop_last(),
        ).found(motions.last()) == Some(Find::End))
    }

    /// Whether the source was to open the directory for a move: the task reads, does not have it
    /// open, and gets a handle.
    pub open spec fn opens_in(self, motion: Motion<J>) -> bool {
        &&& self.taking(motion) is Some
        &&& !self.job.open
        &&& !((self.taking(motion)->0).0 is NoHandle)
    }

    /// How often the source was to open the directory in some moves.
    pub open spec fn openings(self, motions: Seq<Motion<J>>) -> nat
        decreases motions.len(),
    {
        if motions.len() == 0 {
            0
        } else {
            self.openings(motions.drop_last()) + if self.ran(motions.drop_last()).opens_in(
                motions.last(),
            ) {
                1nat
            } else {
                0nat
            }
        }
    }

    /// Whether the task has the listing that it was made for.
    pub open spec fn has_listing(self) -> bool {
        self.desk.service.cache.snapshots.contains_key(self.job.tally.task)
    }

    /// The listing of the task.
    pub open spec fn listing(self) -> SnapshotView {
        self.desk.service.cache.snapshots[self.job.tally.task]
    }

    /// Whether the task of a new listing is about to make its first turn.
    pub open spec fn begins(self) -> bool {
        &&& !self.job.open
        &&& self.job.tally.observed == 0
        &&& self.has_listing()
        &&& self.listing().wf()
        &&& self.listing().entries.len() == 0
        &&& self.desk.service.cache.handed_out(self.listing().revision)
        &&& self.listing().category == self.job.tally.category
        &&& self.listing().work.target_id == self.job.tally.target
    }
}

/// A listing that was started anew begins a run: its task is about to make its first turn.
#[verifier::spinoff_prover]
#[verifier::rlimit(40)]
pub proof fn a_new_listing_begins_a_run<J>(
    desk: Desk<J>,
    pool_limit: nat,
    others: nat,
    number: u64,
    wish: Wish,
    capacity: nat,
    seat: Seat<J>,
    course: Course<J>,
)
    requires
        !desk.service.cache.snapshots.contains_key(service::task_text(number)),
        ({
            let asked = desk.prepared(pool_limit, others, number, wish, capacity);
            let (after, result) = Desk::started(asked, number, seat);
            &&& result is Ok
            &&& result->Ok_0.task_id == service::task_text(number)
            &&& course.desk == after
        }),
        course.job.tally == (TallyView {
            task: service::task_text(number),
            target: wish.target,
            category: wish.category,
            observed: 0,
            directories: 0,
        }),
        !course.job.open,
    ensures
        course.begins(),
{
    let id = service::task_text(number);
    let work = desk.service.work_for(id, wish.target, wish.category, wish.at);
    let fresh = desk.service.cache.expired(wish.now);
    let numbered = CacheView { serial: (fresh.serial + 1) as u64, ..fresh };
    let bytes = cache::start_cost(cache::queued(work), capacity);
    history::lemma_evicted(numbered, pool_limit, others, bytes, None);
    assert(course.listing().revision == cache::revision_text((fresh.serial + 1) as nat));
}

impl<J> Course<J> {
    /// The call of the service by which a task hands over what it read.
    spec fn hand_call(self, reading: ReadingView, cost: nat) -> DeskCall<J> {
        match reading {
            ReadingView::Found(find) => DeskCall::Take {
                from: self.shelf,
                pool_limit: self.pool.limit,
                others: self.others(),
                tally: self.job.tally.with(find),
                find,
                cost,
            },
            _ => DeskCall::Finish {
                task: self.job.tally.task,
                phase: Self::ending(reading).0,
                issue: Self::ending(reading).1,
            },
        }
    }

    /// The call of the service that a look at a listing makes, if it makes one.
    spec fn look_call(self, stop: bool) -> Option<DeskCall<J>> {
        if stop {
            Some(
                DeskCall::Finish {
                    task: self.job.tally.task,
                    phase: Phase::Cancelled,
                    issue: None,
                },
            )
        } else {
            None
        }
    }

    /// The call of the service that a move makes, if it makes one.
    spec fn call_in(self, motion: Motion<J>) -> Option<DeskCall<J>> {
        match motion {
            Motion::Turn { turn } => match self.look(turn.stop) {
                Some(_) => self.look_call(turn.stop),
                None => Some(self.hand_call(turn.reading, turn.cost)),
            },
            Motion::Look { stop } => self.look_call(stop),
            Motion::Hand { reading, cost, .. } => Some(self.hand_call(reading, cost)),
            Motion::Offer { .. } => None,
            Motion::Call { call, .. } => Some(call),
        }
    }
}

proof fn lemma_call_in<J>(now: Course<J>, motion: Motion<J>)
    ensures
        now.moved(motion).desk == (match now.call_in(motion) {
            Some(call) => now.desk.after(call),
            None => now.desk,
        }),
{
    reveal(Course::moved);
    reveal(Course::turned);
}

/// Whatever is done in a move is some calls of the cache.
proof fn lemma_move_calls<J>(now: Course<J>, motion: Motion<J>) -> (told: Seq<CacheCall>)
    ensures
        now.moved(motion).desk.service.cache == now.desk.service.cache.after_all(told),
{
    lemma_call_in(now, motion);
    match now.call_in(motion) {
        Some(call) => {
            let calls = seq![call];
            assert(calls.drop_last() =~= Seq::<DeskCall<J>>::empty());
            assert(now.desk.after_all(calls.drop_last()) == now.desk);
            assert(now.desk.after_all(calls) == now.desk.after(call));
            flight::a_service_only_calls_its_cache(now.desk, calls)
        },
        None => {
            let none = Seq::<CacheCall>::empty();
            assert(now.desk.service.cache.after_all(none) == now.desk.service.cache);
            none
        },
    }
}

/// Whatever is done in the moves from some point on is some calls of the cache.
proof fn lemma_run_calls<J>(start: Course<J>, motions: Seq<Motion<J>>, from: int) -> (told: Seq<
    CacheCall,
>)
    requires
        0 <= from <= motions.len(),
    ensures
        start.ran(motions).desk.service.cache == start.ran(
            motions.take(from),
        ).desk.service.cache.after_all(told),
    decreases motions.len(),
{
    let first = start.ran(motions.take(from)).desk.service.cache;
    if from == motions.len() {
        assert(motions.take(from) =~= motions);
        let none = Seq::<CacheCall>::empty();
        assert(first.after_all(none) == first);
        none
    } else {
        let head = lemma_run_calls(start, motions.drop_last(), from);
        assert(motions.drop_last().take(from) =~= motions.take(from));
        let more = lemma_move_calls(start.ran(motions.drop_last()), motions.last());
        flight::lemma_concat(first, head, more);
        head + more
    }
}

/// What handing over an entry makes of the listing.
#[verifier::spinoff_prover]
#[verifier::rlimit(40)]
proof fn lemma_row<J>(now: Course<J>, row: RowView, open: bool, cost: nat)
    requires
        now.has_listing(),
        now.listing().category == now.job.tally.category,
        now.listing().work.target_id == now.job.tally.target,
    ensures
        ({
            let (after, verdict) = now.opened(open).accepted(
                ReadingView::Found(Find::Row(row)),
                cost,
            );
            let wanted = (row.entry.kind is Directory) == (now.job.tally.category is Directories);
            &&& after.job.tally == now.job.tally.after(row.entry.kind)
            &&& after.job.open == open
            &&& verdict is None || verdict == Some(JobStep::Completed) || verdict == Some(
                JobStep::Failed,
            )
            &&& after.has_listing() ==> {
                &&& after.listing().revision == now.listing().revision
                &&& after.listing().category == now.listing().category
                &&& after.listing().work.target_id == now.listing().work.target_id
                &&& after.listing().demand_end == now.listing().demand_end
                &&& after.listing().entries == (if verdict is None && wanted {
                    now.listing().entries.push(
                        now.given_in(cost, row).shown(now.job.tally.target),
                    )
                } else {
                    now.listing().entries
                })
            }
        }),
{
    let tally = now.job.tally.with(Find::Row(row));
    let task = tally.task;
    let service = now.desk.service;
    let seen = service.observed(tally, row.issue).cache;
    assert(seen.snapshots.contains_key(task));
    assert(seen.snapshots[task].entries == service.cache.snapshots[task].entries);
    let entry = now.given_in(cost, row).shown(tally.target);
    history::lemma_evicted(
        seen,
        now.pool.limit,
        now.others(),
        cache::append_cost(entry),
        Some(task),
    );
}

impl<J> Course<J> {
    /// Whether a move finds an entry of the listing's category and the task goes on with it.
    spec fn keeps_row(self, motion: Motion<J>) -> bool {
        &&& self.found(motion) is Some
        &&& self.found(motion)->0 is Row
        &&& (self.found(motion)->0->Row_0.entry.kind is Directory) == (
        self.job.tally.category is Directories)
        &&& !self.ends(motion)
    }

    /// The task's listing is of the task's directory and category.
    spec fn fitting(self) -> bool {
        &&& self.listing().category == self.job.tally.category
        &&& self.listing().work.target_id == self.job.tally.target
    }

    /// What a move makes of the listing.
    spec fn listing_moves(self, motion: Motion<J>) -> bool {
        let after = self.moved(motion);
        after.has_listing() ==> {
            &&& self.has_listing()
            &&& after.listing().revision == self.listing().revision
            &&& after.listing().category == self.listing().category
            &&& after.listing().work.target_id == self.listing().work.target_id
            &&& after.listing().demand_end >= self.listing().demand_end
            &&& after.listing().entries == (if self.keeps_row(motion) {
                self.listing().entries.push(
                    self.given_in((self.taking(motion)->0).2, self.found(motion)->0->Row_0).shown(
                        self.job.tally.target,
                    ),
                )
            } else {
                self.listing().entries
            })
        }
    }
}

/// What a move makes of the task.
#[verifier::spinoff_prover]
#[verifier::rlimit(40)]
proof fn lemma_job_moves<J>(now: Course<J>, motion: Motion<J>)
    ensures
        ({
            let after = now.moved(motion);
            &&& after.job.tally == (match now.found(motion) {
                Some(find) => now.job.tally.with(find),
                None => now.job.tally,
            })
            &&& after.job.open == (match now.taking(motion) {
                Some(taking) => taking.1,
                None => now.job.open,
            })
            &&& now.found(motion) == Some(Find::End) ==> now.ends(motion)
            &&& now.taking(motion) is Some && now.found(motion) is None ==> now.ends(motion)
        }),
{
    reveal(Course::moved);
    reveal(Course::turned);
}

/// What a move of the task makes of its listing.
#[verifier::spinoff_prover]
#[verifier::rlimit(40)]
proof fn lemma_task_moves<J>(now: Course<J>, motion: Motion<J>)
    requires
        motion is Turn || motion is Look || motion is Hand,
        now.has_listing() ==> now.fitting(),
    ensures
        now.listing_moves(motion),
{
    reveal(Course::moved);
    reveal(Course::turned);
    if now.has_listing() && now.found(motion) is Some && now.found(motion)->0 is Row {
        let taking = now.taking(motion)->0;
        lemma_row(now, now.found(motion)->0->Row_0, taking.1, taking.2);
    }
}

/// What a move makes of the listing.
proof fn lemma_listing_moves<J>(now: Course<J>, motion: Motion<J>)
    requires
        motion is Call ==> flight::spares(motion->call, now.job.tally.task),
        now.has_listing() ==> now.fitting(),
    ensures
        now.listing_moves(motion),
{
    match motion {
        Motion::Offer { .. } => {
            reveal(Course::moved);
        },
        Motion::Call { call, .. } => {
            reveal(Course::moved);
            flight::lemma_keeps(now.desk, call, now.job.tally.task);
        },
        _ => {
            lemma_task_moves(now, motion);
        },
    }
}

/// A number of entries, as far as 64 bits go.
spec fn counted(n: nat) -> u64 {
    if n <= u64::MAX {
        n as u64
    } else {
        u64::MAX
    }
}

impl<J> Course<J> {
    /// The task is the same, it has counted what the source gave, and the directory was opened at
    /// most once.
    spec fn on_course(self, motions: Seq<Motion<J>>) -> bool {
        let now = self.ran(motions);
        let given = self.given(motions);
        &&& now.job.tally.task == self.job.tally.task
        &&& now.job.tally.target == self.job.tally.target
        &&& now.job.tally.category == self.job.tally.category
        &&& now.job.tally.observed == counted(given.len())
        &&& self.openings(motions) <= 1
        &&& self.openings(motions) == 0 ==> !now.job.open && given.len() == 0
        &&& self.openings(motions) == 1 ==> now.job.open || self.done(motions)
        &&& self.at_end(motions) ==> self.done(motions)
    }

    /// The listing shows what the source gave.
    spec fn shows(self, motions: Seq<Motion<J>>) -> bool {
        let now = self.ran(motions);
        let wanted = listed(self.given(motions), self.job.tally);
        let entries = now.listing().entries;
        &&& entries.len() <= wanted.len() <= entries.len() + 1
        &&& entries == wanted.take(entries.len() as int)
        &&& !self.done(motions) || self.at_end(motions) ==> entries == wanted
    }

    /// The listing, as long as it is there, is the one that the run began with, and in order.
    spec fn same_listing(self, motions: Seq<Motion<J>>) -> bool {
        let now = self.ran(motions);
        &&& now.desk.service.cache.handed_out(self.listing().revision)
        &&& now.has_listing() ==> {
            &&& now.listing().wf()
            &&& now.listing().revision == self.listing().revision
            &&& now.listing().category == self.listing().category
            &&& now.listing().work.target_id == self.listing().work.target_id
        }
    }
}

/// A move leaves the task the same, and opens the directory only where it is not open.
#[verifier::spinoff_prover]
#[verifier::rlimit(40)]
proof fn lemma_on_course<J>(start: Course<J>, motions: Seq<Motion<J>>)
    requires
        start.begins(),
        start.can_run(motions),
    ensures
        start.on_course(motions),
    decreases motions.len(),
{
    if motions.len() > 0 {
        let head = motions.drop_last();
        lemma_on_course(start, head);
        lemma_job_moves(start.ran(head), motions.last());
        reveal(Course::allows);
    }
}

/// As long as a listing is there after a move, it was there before, as the same listing.
#[verifier::spinoff_prover]
#[verifier::rlimit(40)]
proof fn lemma_same_listing<J>(start: Course<J>, motions: Seq<Motion<J>>)
    requires
        start.begins(),
        start.can_run(motions),
    ensures
        start.same_listing(motions),
        motions.len() > 0 ==> start.ran(motions.drop_last()).listing_moves(motions.last()),
    decreases motions.len(),
{
    if motions.len() > 0 {
        let head = motions.drop_last();
        let now = start.ran(head);
        lemma_same_listing(start, head);
        lemma_on_course(start, head);
        lemma_on_course(start, motions);
        lemma_listing_moves(now, motions.last());
        let told = lemma_move_calls(now, motions.last());
        if now.has_listing() {
            history::lemma_grows(now.desk.service.cache, start.job.tally.task, told);
        } else {
            history::lemma_calls_keep_revisions(
                now.desk.service.cache,
                start.listing().revision,
                told,
            );
        }
    }
}

#[verifier::spinoff_prover]
#[verifier::rlimit(40)]
proof fn lemma_shows<J>(start: Course<J>, motions: Seq<Motion<J>>)
    requires
        start.begins(),
        start.can_run(motions),
        start.ran(motions).has_listing(),
    ensures
        start.shows(motions),
    decreases motions.len(),
{
    if motions.len() == 0 {
        assert(start.listing().entries =~= Seq::<EntryView>::empty());
        assert(listed(start.given(motions), start.job.tally) =~= Seq::<EntryView>::empty());
        assert(Seq::<EntryView>::empty().take(0) =~= Seq::<EntryView>::empty());
    } else {
        let head = motions.drop_last();
        let now = start.ran(head);
        lemma_same_listing(start, motions);
        lemma_on_course(start, head);
        lemma_on_course(start, motions);
        lemma_job_moves(now, motions.last());
        lemma_shows(start, head);
        let before = listed(start.given(head), start.job.tally);
        let wanted = listed(start.given(motions), start.job.tally);
        if now.found(motions.last()) is Some && now.found(motions.last())->0 is Row {
            assert(start.given(motions).drop_last() =~= start.given(head));
            assert(wanted.take(before.len() as int) =~= before);
        }
        assert(wanted.take(wanted.len() as int) =~= wanted);
    }
}

/// A listing shows what its source gave, in the order in which the source gave it and each entry
/// once: whatever everybody else calls in between, it holds the entries of its category that were
/// given, all of them as long as its task is not done with and also once the source came to its
/// end. Where the task was done with otherwise, at most the entry that was given last is missing.
pub proof fn a_listing_shows_what_its_source_gave<J>(start: Course<J>, motions: Seq<Motion<J>>)
    requires
        start.begins(),
        start.can_run(motions),
        start.ran(motions).has_listing(),
    ensures
        ({
            let wanted = listed(start.given(motions), start.job.tally);
            let entries = start.ran(motions).listing().entries;
            &&& entries.len() <= wanted.len() <= entries.len() + 1
            &&& entries == wanted.take(entries.len() as int)
            &&& !start.done(motions) || start.at_end(motions) ==> entries == wanted
        }),
{
    lemma_shows(start, motions);
}

/// The source of a listing is to open its directory at most once, and gives nothing before it has.
pub proof fn a_source_opens_once<J>(start: Course<J>, motions: Seq<Motion<J>>)
    requires
        start.begins(),
        start.can_run(motions),
    ensures
        start.openings(motions) <= 1,
        start.given(motions).len() > 0 ==> start.openings(motions) == 1,
{
    lemma_on_course(start, motions);
}

/// What a source gave is named by its number, but for directories.
proof fn lemma_names<J>(start: Course<J>, motions: Seq<Motion<J>>, i: int)
    requires
        start.begins(),
        start.can_run(motions),
        0 <= i < start.given(motions).len() <= u64::MAX,
        !(start.given(motions)[i].row.entry.kind is Directory),
    ensures
        start.given(motions)[i].name == service::entry_text(start.job.tally.task, (i + 1) as u64),
    decreases motions.len(),
{
    let head = motions.drop_last();
    lemma_on_course(start, head);
    if i < start.given(head).len() {
        assert(start.given(motions)[i] == start.given(head)[i]);
        lemma_names(start, head, i);
    }
}

proof fn lemma_entry_texts(task: Seq<char>, a: u64, b: u64)
    requires
        a != b,
    ensures
        service::entry_text(task, a) != service::entry_text(task, b),
{
    let head = task + "-entry-"@;
    let x = text::decimal(a as nat);
    let y = text::decimal(b as nat);
    text::lemma_decimal(a as nat);
    text::lemma_decimal(b as nat);
    assert((head + x).skip(head.len() as int) =~= x);
    assert((head + y).skip(head.len() as int) =~= y);
}

/// Which of the given entries is the one that stands at a place of the listing.
spec fn place_in(given: Seq<Given>, tally: TallyView, at: int) -> int
    decreases given.len(),
{
    if given.len() == 0 {
        0
    } else if at < listed(given.drop_last(), tally).len() {
        place_in(given.drop_last(), tally, at)
    } else {
        given.len() - 1
    }
}

proof fn lemma_place_in(given: Seq<Given>, tally: TallyView, at: int)
    requires
        0 <= at < listed(given, tally).len(),
    ensures
        0 <= place_in(given, tally, at) < given.len(),
        listed(given, tally)[at] == given[place_in(given, tally, at)].shown(tally.target),
        (given[place_in(given, tally, at)].row.entry.kind is Directory) == (
        tally.category is Directories),
    decreases given.len(),
{
    if given.len() > 0 && at < listed(given.drop_last(), tally).len() {
        lemma_place_in(given.drop_last(), tally, at);
    }
}

proof fn lemma_places_rise(given: Seq<Given>, tally: TallyView, a: int, b: int)
    requires
        0 <= a < b < listed(given, tally).len(),
    ensures
        place_in(given, tally, a) < place_in(given, tally, b),
    decreases given.len(),
{
    if given.len() > 0 {
        let head = given.drop_last();
        if b < listed(head, tally).len() {
            lemma_places_rise(head, tally, a, b);
        } else {
            lemma_place_in(head, tally, a);
        }
    }
}

/// An entry of a listing of files has the number of the given entry that it shows.
#[verifier::spinoff_prover]
proof fn lemma_entry_id<J>(start: Course<J>, motions: Seq<Motion<J>>, at: int)
    requires
        start.begins(),
        start.can_run(motions),
        start.shows(motions),
        !(start.job.tally.category is Directories),
        start.given(motions).len() <= u64::MAX,
        0 <= at < start.ran(motions).listing().entries.len(),
    ensures
        ({
            let place = place_in(start.given(motions), start.job.tally, at);
            &&& 0 <= place < start.given(motions).len()
            &&& start.ran(motions).listing().entries[at].entry_id == service::entry_text(
                start.job.tally.task,
                (place + 1) as u64,
            )
        }),
{
    let given = start.given(motions);
    let tally = start.job.tally;
    let entries = start.ran(motions).listing().entries;
    let wanted = listed(given, tally);
    assert(entries[at] == wanted.take(entries.len() as int)[at]);
    lemma_place_in(given, tally, at);
    lemma_names(start, motions, place_in(given, tally, at));
}

/// No two entries of a listing of files have one id, as long as 64 bits can count what its source
/// gave. The ids of directories are those by which the index knows their names.
#[verifier::spinoff_prover]
pub proof fn the_ids_of_a_listing_differ<J>(
    start: Course<J>,
    motions: Seq<Motion<J>>,
    a: int,
    b: int,
)
    requires
        start.begins(),
        start.can_run(motions),
        start.ran(motions).has_listing(),
        !(start.job.tally.category is Directories),
        start.given(motions).len() <= u64::MAX,
        0 <= a < b < start.ran(motions).listing().entries.len(),
    ensures
        start.ran(motions).listing().entries[a].entry_id != start.ran(
            motions,
        ).listing().entries[b].entry_id,
{
    let given = start.given(motions);
    let tally = start.job.tally;
    lemma_shows(start, motions);
    lemma_entry_id(start, motions, a);
    lemma_entry_id(start, motions, b);
    lemma_places_rise(given, tally, a, b);
    lemma_entry_texts(
        tally.task,
        (place_in(given, tally, a) + 1) as u64,
        (place_in(given, tally, b) + 1) as u64,
    );
}

impl<J> Course<J> {
    /// What was answered to a move that asked for a page.
    pub open spec fn page_at(self, motions: Seq<Motion<J>>, at: int) -> Result<
        PageView,
        CacheError,
    > {
        match motions[at] {
            Motion::Call { call: DeskCall::Page { id, cursor, limit, now, told }, .. } => self.ran(
                motions.take(at),
            ).desk.paged(id, cursor, limit, now, told).1,
            _ => Err(CacheError::InvalidArgument),
        }
    }

    /// Whether one of some moves asked for the page with this cursor and got it.
    pub open spec fn asks_at(
        self,
        motions: Seq<Motion<J>>,
        at: int,
        cursor: Option<Seq<char>>,
        limit: usize,
    ) -> bool {
        &&& 0 <= at < motions.len()
        &&& motions[at] is Call
        &&& motions[at]->call is Page
        &&& motions[at]->call->Page_id == self.job.tally.task
        &&& motions[at]->call->Page_cursor == cursor
        &&& motions[at]->call->Page_limit == limit
        &&& self.page_at(motions, at) is Ok
    }

    /// Whether these moves read the pages of the listing one after the other from the start, each
    /// with the cursor that the page before announced.
    pub open spec fn follows_cursors(
        self,
        motions: Seq<Motion<J>>,
        reads: Seq<int>,
        limit: usize,
    ) -> bool
        decreases reads.len(),
    {
        if reads.len() == 0 {
            true
        } else if reads.len() == 1 {
            self.asks_at(motions, reads[0], None, limit)
        } else {
            let before = reads[reads.len() - 2];
            let next = self.page_at(motions, before)->Ok_0.next_cursor;
            &&& self.follows_cursors(motions, reads.drop_last(), limit)
            &&& before < reads.last()
            &&& next is Some
            &&& self.asks_at(motions, reads.last(), next, limit)
        }
    }

    /// The entries of the pages that were read, one after the other.
    pub open spec fn pages_read(self, motions: Seq<Motion<J>>, reads: Seq<int>) -> Seq<EntryView>
        decreases reads.len(),
    {
        if reads.len() == 0 {
            Seq::empty()
        } else {
            self.pages_read(motions, reads.drop_last()) + self.page_at(
                motions,
                reads.last(),
            )->Ok_0.entries
        }
    }

    /// The cache as it stood when a move that asked for a page read it.
    spec fn cache_at(self, motions: Seq<Motion<J>>, at: int) -> CacheView {
        self.ran(motions.take(at)).desk.synchronized(
            motions[at]->call->Page_id,
            motions[at]->call->Page_told,
        ).service.cache
    }

    /// A page that was read: what the listing was then, and what was handed out.
    spec fn read_in(self, motions: Seq<Motion<J>>, at: int) -> PageRead {
        let cache = self.cache_at(motions, at);
        let snapshot = cache.snapshots[self.job.tally.task];
        PageRead {
            snapshot,
            serial: cache.serial,
            draft: snapshot.drafted(
                cache.serial,
                motions[at]->call->Page_cursor,
                motions[at]->call->Page_limit as nat,
                cache.message_limit as nat,
            )->Ok_0,
        }
    }
}

/// The first moves of some that can have been made can have been made too.
proof fn lemma_can_start<J>(start: Course<J>, motions: Seq<Motion<J>>, n: int)
    requires
        start.can_run(motions),
        0 <= n <= motions.len(),
    ensures
        start.can_run(motions.take(n)),
    decreases motions.len(),
{
    if n < motions.len() {
        lemma_can_start(start, motions.drop_last(), n);
        assert(motions.drop_last().take(n) =~= motions.take(n));
    } else {
        assert(motions.take(n) =~= motions);
    }
}

/// A listing that is there later was there all the time.
#[verifier::spinoff_prover]
proof fn lemma_was_there<J>(start: Course<J>, motions: Seq<Motion<J>>, n: int)
    requires
        start.begins(),
        start.can_run(motions),
        start.ran(motions).has_listing(),
        0 <= n <= motions.len(),
    ensures
        start.ran(motions.take(n)).has_listing(),
    decreases motions.len(),
{
    if n < motions.len() {
        lemma_same_listing(start, motions);
        lemma_was_there(start, motions.drop_last(), n);
        assert(motions.drop_last().take(n) =~= motions.take(n));
    } else {
        assert(motions.take(n) =~= motions);
    }
}

/// What is known of the listing when one of some moves is made.
#[verifier::spinoff_prover]
proof fn lemma_there<J>(start: Course<J>, motions: Seq<Motion<J>>, n: int)
    requires
        start.begins(),
        start.can_run(motions),
        start.ran(motions).has_listing(),
        0 <= n <= motions.len(),
    ensures
        start.can_run(motions.take(n)),
        ({
            let now = start.ran(motions.take(n));
            &&& now.has_listing()
            &&& now.job.tally.task == start.job.tally.task
            &&& now.listing().wf()
            &&& now.listing().revision == start.listing().revision
            &&& now.desk.service.cache.handed_out(start.listing().revision)
        }),
        n < motions.len() ==> start.ran(motions.take(n + 1)) == start.ran(motions.take(n)).moved(
            motions[n],
        ),
{
    lemma_can_start(start, motions, n);
    lemma_was_there(start, motions, n);
    lemma_on_course(start, motions.take(n));
    lemma_same_listing(start, motions.take(n));
    if n < motions.len() {
        assert(motions.take(n + 1).drop_last() =~= motions.take(n));
        assert(motions.take(n + 1).last() == motions[n]);
    }
}

/// The cache after a move that asked for a page.
proof fn lemma_page_moves<J>(now: Course<J>, motion: Motion<J>)
    requires
        motion is Call,
        motion->call is Page,
    ensures
        now.moved(motion).desk.service.cache == now.desk.synchronized(
            motion->call->Page_id,
            motion->call->Page_told,
        ).service.cache.paged(
            motion->call->Page_id,
            motion->call->Page_cursor,
            motion->call->Page_limit,
            motion->call->Page_now,
        ).0,
{
    reveal(Course::moved);
}

/// The cache when a page was read of it.
#[verifier::spinoff_prover]
#[verifier::rlimit(40)]
proof fn lemma_cache_at<J>(
    start: Course<J>,
    motions: Seq<Motion<J>>,
    at: int,
    cursor: Option<Seq<char>>,
    limit: usize,
)
    requires
        start.begins(),
        start.can_run(motions),
        start.ran(motions).has_listing(),
        start.asks_at(motions, at, cursor, limit),
    ensures
        ({
            let cache = start.cache_at(motions, at);
            let task = start.job.tally.task;
            let now = motions[at]->call->Page_now;
            &&& cache.snapshots.contains_key(task)
            &&& cache.snapshots[task].wf()
            &&& cache.snapshots[task].revision == start.listing().revision
            &&& cache.handed_out(start.listing().revision)
            &&& cache.message_limit == start.desk.service.cache.message_limit
            &&& start.page_at(motions, at) == cache.paged(task, cursor, limit, now).1
            &&& start.ran(motions.take(at + 1)).desk.service.cache == cache.paged(
                task,
                cursor,
                limit,
                now,
            ).0
        }),
{
    let head = motions.take(at);
    let task = start.job.tally.task;
    let now = start.ran(head);
    lemma_there(start, motions, at);
    lemma_there(start, motions, at + 1);
    lemma_page_moves(now, motions[at]);
    let told = motions[at]->call->Page_told;
    let synced = flight::lemma_synchronized_calls(now.desk, task, told);
    lemma_sync(now, told);
    history::lemma_grows(now.desk.service.cache, task, synced);
    let calls = lemma_run_calls(start, head, 0);
    assert(head.take(0) =~= Seq::<Motion<J>>::empty());
    history::lemma_limits(start.desk.service.cache, calls);
    history::lemma_limits(now.desk.service.cache, synced);
}

/// What a listing keeps that takes over where its task stands.
proof fn lemma_sync<J>(now: Course<J>, told: bool)
    requires
        now.has_listing(),
    ensures
        ({
            let cache = now.desk.synchronized(now.job.tally.task, told).service.cache;
            let snapshot = cache.snapshots[now.job.tally.task];
            &&& cache.snapshots.contains_key(now.job.tally.task)
            &&& snapshot.revision == now.listing().revision
            &&& snapshot.entries == now.listing().entries
            &&& snapshot.demand_end == now.listing().demand_end
            &&& now.listing().exhausted ==> snapshot.exhausted
        }),
{
}

/// A page that a cache hands out, and what it leaves of the listing.
#[verifier::spinoff_prover]
proof fn lemma_handed(
    cache: CacheView,
    task: Seq<char>,
    cursor: Option<Seq<char>>,
    limit: usize,
    now: u64,
)
    requires
        cache.paged(task, cursor, limit, now).1 is Ok,
    ensures
        ({
            let (after, page) = cache.paged(task, cursor, limit, now);
            let snapshot = cache.snapshots[task];
            let drafted = snapshot.drafted(
                cache.serial,
                cursor,
                limit as nat,
                cache.message_limit as nat,
            );
            let draft = drafted->Ok_0;
            let demand = wire::clip(draft.offset + 2 * limit as nat);
            let left = if draft.first_time {
                snapshot.recorded(draft, limit as nat)
            } else {
                snapshot
            };
            &&& drafted is Ok
            &&& page->Ok_0.entries == snapshot.entries.subrange(
                draft.offset as int,
                draft.end as int,
            )
            &&& page->Ok_0.next_cursor == draft.next_cursor
            &&& page->Ok_0.listing_revision == snapshot.revision
            &&& after.snapshots.contains_key(task)
            &&& after.snapshots[task].entries == left.entries
            &&& after.snapshots[task].pages == left.pages
            &&& after.snapshots[task].cursors == left.cursors
            &&& after.snapshots[task].exhausted == snapshot.exhausted
            &&& after.snapshots[task].demand_end == if demand > snapshot.demand_end {
                demand
            } else {
                snapshot.demand_end
            }
        }),
{
}

/// What a page that was read shows, and what the listing was afterwards.
#[verifier::spinoff_prover]
#[verifier::rlimit(40)]
proof fn lemma_read_in<J>(
    start: Course<J>,
    motions: Seq<Motion<J>>,
    at: int,
    cursor: Option<Seq<char>>,
    limit: usize,
)
    requires
        start.begins(),
        start.can_run(motions),
        start.ran(motions).has_listing(),
        start.asks_at(motions, at, cursor, limit),
    ensures
        ({
            let read = start.read_in(motions, at);
            let page = start.page_at(motions, at)->Ok_0;
            let after = start.ran(motions.take(at + 1));
            &&& read.snapshot.revision == start.listing().revision
            &&& page.entries == read.entries()
            &&& page.next_cursor == read.draft.next_cursor
            &&& read.read_at(
                cursor,
                limit as nat,
                start.desk.service.cache.message_limit as nat,
            )
            &&& after.has_listing()
            &&& after.listing().entries == read.left(limit as nat).entries
            &&& after.listing().pages == read.left(limit as nat).pages
            &&& after.listing().cursors == read.left(limit as nat).cursors
            &&& after.listing().exhausted == read.snapshot.exhausted
        }),
{
    lemma_there(start, motions, at + 1);
    lemma_cache_at(start, motions, at, cursor, limit);
    lemma_handed(
        start.cache_at(motions, at),
        start.job.tally.task,
        cursor,
        limit,
        motions[at]->call->Page_now,
    );
}

/// A page that is read later is read of a later state of the listing.
#[verifier::spinoff_prover]
#[verifier::rlimit(40)]
proof fn lemma_read_later<J>(
    start: Course<J>,
    motions: Seq<Motion<J>>,
    first: int,
    cursor: Option<Seq<char>>,
    then: int,
    next: Option<Seq<char>>,
    limit: usize,
)
    requires
        start.begins(),
        start.can_run(motions),
        start.ran(motions).has_listing(),
        start.asks_at(motions, first, cursor, limit),
        start.asks_at(motions, then, next, limit),
        first < then,
    ensures
        start.read_in(motions, then).snapshot.extends(
            start.read_in(motions, first).left(limit as nat),
        ),
{
    let task = start.job.tally.task;
    lemma_read_in(start, motions, first, cursor, limit);
    lemma_read_in(start, motions, then, next, limit);
    let early = motions.take(first + 1);
    let late = motions.take(then);
    lemma_there(start, motions, first + 1);
    lemma_there(start, motions, then);
    lemma_cache_at(start, motions, then, next, limit);
    let after = start.ran(early).desk.service.cache;
    let calls = lemma_run_calls(start, late, first + 1);
    assert(late.take(first + 1) =~= early);
    let synced = flight::lemma_synchronized_calls(
        start.ran(late).desk,
        task,
        motions[then]->call->Page_told,
    );
    flight::lemma_concat(after, calls, synced);
    history::lemma_grows(after, task, calls + synced);
}

/// The pages that were read, with what the listing was at each of them.
spec fn reads_in<J>(start: Course<J>, motions: Seq<Motion<J>>, reads: Seq<int>) -> Seq<PageRead> {
    Seq::new(reads.len(), |i: int| start.read_in(motions, reads[i]))
}

spec fn cursor_of<J>(start: Course<J>, motions: Seq<Motion<J>>, reads: Seq<int>) -> Option<
    Seq<char>,
> {
    if reads.len() <= 1 {
        None
    } else {
        start.page_at(motions, reads[reads.len() - 2])->Ok_0.next_cursor
    }
}

#[verifier::spinoff_prover]
#[verifier::rlimit(40)]
proof fn lemma_reads_in<J>(
    start: Course<J>,
    motions: Seq<Motion<J>>,
    reads: Seq<int>,
    limit: usize,
)
    requires
        start.begins(),
        start.can_run(motions),
        start.ran(motions).has_listing(),
        start.follows_cursors(motions, reads, limit),
        reads.len() > 0,
    ensures
        start.asks_at(motions, reads.last(), cursor_of(start, motions, reads), limit),
        history::read_on(
            reads_in(start, motions, reads),
            limit,
            start.desk.service.cache.message_limit as nat,
        ),
        history::joined(reads_in(start, motions, reads)) == start.pages_read(motions, reads),
    decreases reads.len(),
{
    let all = reads_in(start, motions, reads);
    let head = reads.drop_last();
    assert(all.drop_last() =~= reads_in(start, motions, head));
    lemma_read_in(start, motions, reads.last(), cursor_of(start, motions, reads), limit);
    assert(all.last() == start.read_in(motions, reads.last()));
    if reads.len() == 1 {
        assert(all.drop_last() =~= Seq::<PageRead>::empty());
        assert(history::joined(all.drop_last()) =~= Seq::<EntryView>::empty());
        assert(start.pages_read(motions, head) =~= Seq::<EntryView>::empty());
    } else {
        lemma_reads_in(start, motions, head, limit);
        assert(head.last() == reads[reads.len() - 2]);
        lemma_read_in(start, motions, head.last(), cursor_of(start, motions, head), limit);
        lemma_read_later(
            start,
            motions,
            head.last(),
            cursor_of(start, motions, head),
            reads.last(),
            cursor_of(start, motions, reads),
            limit,
        );
        assert(all[all.len() - 2] == start.read_in(motions, head.last()));
    }
}

/// Whoever follows the cursors from the start to a page that announces no other gets the whole
/// listing: every entry once and in order, whatever everybody else calls in between and however
/// much the listing grows meanwhile. It is finished then, and stays as it was read.
#[verifier::spinoff_prover]
#[verifier::rlimit(40)]
pub proof fn following_the_cursors_reads_the_whole_listing<J>(
    start: Course<J>,
    motions: Seq<Motion<J>>,
    reads: Seq<int>,
    limit: usize,
)
    requires
        start.begins(),
        start.can_run(motions),
        start.ran(motions).has_listing(),
        start.follows_cursors(motions, reads, limit),
        reads.len() > 0,
        start.page_at(motions, reads.last())->Ok_0.next_cursor is None,
    ensures
        start.pages_read(motions, reads) == start.ran(motions).listing().entries,
        start.ran(motions).listing().exhausted,
{
    let task = start.job.tally.task;
    let all = reads_in(start, motions, reads);
    let at = reads.last();
    lemma_reads_in(start, motions, reads, limit);
    history::pages_join_up(all, limit, start.desk.service.cache.message_limit as nat);
    lemma_read_in(start, motions, at, cursor_of(start, motions, reads), limit);
    assert(all.last() == start.read_in(motions, at));
    let early = motions.take(at + 1);
    lemma_there(start, motions, at + 1);
    lemma_there(start, motions, motions.len() as int);
    assert(motions.take(motions.len() as int) =~= motions);
    let calls = lemma_run_calls(start, motions, at + 1);
    history::lemma_grows(start.ran(early).desk.service.cache, task, calls);
}

/// Whether a source that is at `first` keeps to some rows for a directory: where it opens the
/// directory they are all ahead, reading on gives the first that is ahead, and with none ahead it
/// comes to the end.
pub open spec fn keeps_to<S: ListingSource>(
    first: S,
    target: Seq<char>,
    ahead: spec_fn(S, S::Cursor) -> Seq<RowView>,
    rows: Seq<RowView>,
) -> bool {
    &&& forall|after: S, cursor: S::Cursor| #[trigger]
        S::opens(&first, target, &after, Ok(cursor)) ==> ahead(after, cursor) == rows
    &&& forall|
        before: S,
        from: S::Cursor,
        after: S,
        to: S::Cursor,
        found: Result<Option<ListedEntry>, FsIssue>,
    | #[trigger]
        S::gives(&before, &from, &after, &to, found) ==> if ahead(before, from).len() == 0 {
            service::find_of(found) is End
        } else {
            &&& service::find_of(found) == Find::Row(ahead(before, from)[0])
            &&& ahead(after, to) == ahead(before, from).drop_first()
        }
}

/// Whether one of some moves leads from one state of the task to the next. A turn is made with the
/// task's token and its handles, and so is the reading before something is handed over; any other
/// move leaves the source alone.
pub open spec fn worked_at<S: ListingSource, H: Handles, J>(
    jobs: Seq<ListingJob<S, H>>,
    start: Course<J>,
    cancel: &Cancellation,
    handles: &H,
    motions: Seq<Motion<J>>,
    i: int,
) -> bool {
    let now = start.ran(motions.take(i));
    &&& jobs[i]@ == now.job
    &&& jobs[i + 1]@ == now.moved(motions[i]).job
    &&& match motions[i] {
        Motion::Turn { turn } => ListingJob::<S, H>::makes(
            &jobs[i],
            cancel,
            handles,
            turn,
            now.look(turn.stop) is None,
            &jobs[i + 1],
        ),
        Motion::Look { stop } => {
            &&& cancel.tells(stop)
            &&& ListingJob::<S, H>::same_gear(&jobs[i], &jobs[i + 1])
        },
        Motion::Hand { reading, .. } => exists|read: Reading|
            read@ == reading && #[trigger] ListingJob::<S, H>::reads(
                &jobs[i],
                cancel,
                handles,
                &jobs[i + 1],
                read,
            ),
        _ => ListingJob::<S, H>::same_gear(&jobs[i], &jobs[i + 1]),
    }
}

/// Whether the task went through these states in some moves.
pub open spec fn worked<S: ListingSource, H: Handles, J>(
    jobs: Seq<ListingJob<S, H>>,
    start: Course<J>,
    cancel: &Cancellation,
    handles: &H,
    motions: Seq<Motion<J>>,
) -> bool {
    &&& jobs.len() == motions.len() + 1
    &&& jobs[0]@ == start.job
    &&& forall|i: int|
        0 <= i < motions.len() ==> #[trigger] worked_at(
            jobs,
            start,
            cancel,
            handles,
            motions,
            i,
        )
}

/// The rows that were given.
pub open spec fn rows_of(given: Seq<Given>) -> Seq<RowView> {
    Seq::new(given.len(), |i: int| given[i].row)
}

/// What the source still has to give, as long as the task is not done with.
spec fn in_step<S: ListingSource, H: Handles, J>(
    job: ListingJob<S, H>,
    first: S,
    start: Course<J>,
    motions: Seq<Motion<J>>,
    ahead: spec_fn(S, S::Cursor) -> Seq<RowView>,
    rows: Seq<RowView>,
) -> bool {
    let given = rows_of(start.given(motions));
    &&& start.openings(motions) == 0 ==> job.source() == first
    &&& job.cursor() is Some && !start.done(motions) ==> rows == given + ahead(
        job.source(),
        job.cursor()->0,
    )
    &&& given.len() <= rows.len()
    &&& given == rows.take(given.len() as int)
    &&& start.at_end(motions) ==> given == rows
}

/// One row that was given is no longer ahead.
proof fn lemma_given_more(
    given: Seq<Given>,
    more: Given,
    ahead: Seq<RowView>,
    rows: Seq<RowView>,
)
    requires
        ahead.len() > 0,
        more.row == ahead[0],
        rows == rows_of(given) + ahead,
    ensures
        rows == rows_of(given.push(more)) + ahead.drop_first(),
        given.len() < rows.len(),
        rows_of(given.push(more)) == rows.take(given.len() as int + 1),
{
    assert(rows =~= rows_of(given.push(more)) + ahead.drop_first());
    assert(rows_of(given.push(more)) =~= rows.take(given.len() as int + 1));
}

#[verifier::spinoff_prover]
#[verifier::rlimit(60)]
proof fn lemma_in_step<S: ListingSource, H: Handles, J>(
    jobs: Seq<ListingJob<S, H>>,
    start: Course<J>,
    cancel: &Cancellation,
    handles: &H,
    motions: Seq<Motion<J>>,
    ahead: spec_fn(S, S::Cursor) -> Seq<RowView>,
    rows: Seq<RowView>,
    n: int,
)
    requires
        start.begins(),
        start.can_run(motions),
        worked(jobs, start, cancel, handles, motions),
        keeps_to(jobs[0].source(), start.job.tally.target, ahead, rows),
        0 <= n <= motions.len(),
    ensures
        in_step(jobs[n], jobs[0].source(), start, motions.take(n), ahead, rows),
    decreases n,
{
    let part = motions.take(n);
    lemma_can_start(start, motions, n);
    lemma_on_course(start, part);
    jobs[n].lemma_open();
    if n == 0 {
        assert(rows_of(start.given(part)) =~= rows.take(0));
    } else {
        let head = motions.take(n - 1);
        assert(part.drop_last() =~= head);
        let now = start.ran(head);
        let before = jobs[n - 1];
        lemma_in_step(jobs, start, cancel, handles, motions, ahead, rows, n - 1);
        lemma_can_start(start, motions, n - 1);
        lemma_on_course(start, head);
        before.lemma_open();
        assert(worked_at(jobs, start, cancel, handles, motions, n - 1));
        if now.taking(motions[n - 1]) is Some {
            lemma_reading_in_step(jobs, start, cancel, handles, motions, ahead, rows, n);
        }
    }
}

#[verifier::spinoff_prover]
#[verifier::rlimit(60)]
proof fn lemma_reading_in_step<S: ListingSource, H: Handles, J>(
    jobs: Seq<ListingJob<S, H>>,
    start: Course<J>,
    cancel: &Cancellation,
    handles: &H,
    motions: Seq<Motion<J>>,
    ahead: spec_fn(S, S::Cursor) -> Seq<RowView>,
    rows: Seq<RowView>,
    n: int,
)
    requires
        0 < n <= motions.len(),
        keeps_to(jobs[0].source(), start.job.tally.target, ahead, rows),
        in_step(jobs[n - 1], jobs[0].source(), start, motions.take(n - 1), ahead, rows),
        start.ran(motions.take(n - 1)).taking(motions[n - 1]) is Some,
        start.can_run(motions.take(n)),
        start.on_course(motions.take(n - 1)),
        start.on_course(motions.take(n)),
        worked_at(jobs, start, cancel, handles, motions, n - 1),
        jobs[n]@.open == jobs[n].cursor() is Some,
        jobs[n - 1]@.open == jobs[n - 1].cursor() is Some,
    ensures
        in_step(jobs[n], jobs[0].source(), start, motions.take(n), ahead, rows),
{
    let part = motions.take(n);
    let head = motions.take(n - 1);
    assert(part.drop_last() =~= head);
    let now = start.ran(head);
    let before = jobs[n - 1];
    let after = jobs[n];
    let given = start.given(head);
    let taking = now.taking(motions[n - 1])->0;
    lemma_job_moves(now, motions[n - 1]);
    let reading = choose|reading: Reading|
        reading@ == taking.0 && #[trigger] ListingJob::<S, H>::reads(
            &before,
            cancel,
            handles,
            &after,
            reading,
        );
    if let Reading::Found(found) = reading {
        let find = service::find_of(found);
        // What was ahead when the source was read on.
        let left = match before.cursor() {
            Some(from) => ahead(before.source(), from),
            None => rows,
        };
        assert(rows_of(given) + left =~= rows);
        if find is Row {
            lemma_given_more(given, now.given_in(taking.2, find->Row_0), left, rows);
        } else {
            assert(rows_of(given) =~= rows);
        }
    } else {
        assert(start.done(part));
    }
}

/// What a listing of files shows of the rows of a directory: those that are no directories, in
/// order, each under its number among all rows.
pub open spec fn files_of(rows: Seq<RowView>, tally: TallyView) -> Seq<EntryView>
    decreases rows.len(),
{
    if rows.len() == 0 {
        Seq::empty()
    } else {
        let head = files_of(rows.drop_last(), tally);
        if rows.last().entry.kind is Directory {
            head
        } else {
            head.push(
                EntryView {
                    entry_id: service::entry_text(tally.task, rows.len() as u64),
                    parent_id: Some(tally.target),
                    ..rows.last().entry
                },
            )
        }
    }
}

/// Entries that are named by their numbers are shown so.
proof fn lemma_files_of(given: Seq<Given>, tally: TallyView)
    requires
        !(tally.category is Directories),
        forall|i: int|
            0 <= i < given.len() && !((#[trigger] given[i]).row.entry.kind is Directory)
                ==> given[i].name == service::entry_text(tally.task, (i + 1) as u64),
    ensures
        listed(given, tally) == files_of(rows_of(given), tally),
    decreases given.len(),
{
    if given.len() > 0 {
        let head = given.drop_last();
        lemma_files_of(head, tally);
        assert(rows_of(given).drop_last() =~= rows_of(head));
    }
}

/// A listing of files that is read to its end brings what its source gave. The source keeps to
/// some rows and came to its end; whoever followed the cursors, whatever everybody else called in
/// between, got every row that is no directory once and in the source's order, under an id of its
/// own. The directory was opened once for it.
pub proof fn a_whole_listing_is_read<S: ListingSource, H: Handles, J>(
    jobs: Seq<ListingJob<S, H>>,
    start: Course<J>,
    cancel: &Cancellation,
    handles: &H,
    motions: Seq<Motion<J>>,
    ahead: spec_fn(S, S::Cursor) -> Seq<RowView>,
    rows: Seq<RowView>,
    reads: Seq<int>,
    limit: usize,
)
    requires
        start.begins(),
        start.can_run(motions),
        start.ran(motions).has_listing(),
        worked(jobs, start, cancel, handles, motions),
        keeps_to(jobs[0].source(), start.job.tally.target, ahead, rows),
        rows.len() <= u64::MAX,
        start.at_end(motions),
        start.follows_cursors(motions, reads, limit),
        reads.len() > 0,
        start.page_at(motions, reads.last())->Ok_0.next_cursor is None,
    ensures
        rows_of(start.given(motions)) == rows,
        start.pages_read(motions, reads) == listed(start.given(motions), start.job.tally),
        !(start.job.tally.category is Directories) ==> start.pages_read(motions, reads) == files_of(
            rows,
            start.job.tally,
        ),
        start.openings(motions) == 1,
{
    let given = start.given(motions);
    assert(motions.take(motions.len() as int) =~= motions);
    lemma_in_step(
        jobs,
        start,
        cancel,
        handles,
        motions,
        ahead,
        rows,
        motions.len() as int,
    );
    following_the_cursors_reads_the_whole_listing(start, motions, reads, limit);
    a_listing_shows_what_its_source_gave(start, motions);
    lemma_end_opens(start, motions);
    if !(start.job.tally.category is Directories) {
        assert forall|i: int| 0 <= i < given.len() && !(
        (#[trigger] given[i]).row.entry.kind is Directory) implies given[i].name
            == service::entry_text(start.job.tally.task, (i + 1) as u64) by {
            lemma_names(start, motions, i);
        }
        lemma_files_of(given, start.job.tally);
    }
}

/// A source that came to its end was opened.
proof fn lemma_end_opens<J>(start: Course<J>, motions: Seq<Motion<J>>)
    requires
        start.begins(),
        start.can_run(motions),
        start.at_end(motions),
    ensures
        start.openings(motions) == 1,
    decreases motions.len(),
{
    let head = motions.drop_last();
    lemma_on_course(start, motions);
    lemma_on_course(start, head);
    if start.at_end(head) {
        lemma_end_opens(start, head);
    }
}

/// A listing is never demanded less than before.
#[verifier::spinoff_prover]
proof fn lemma_demand<J>(start: Course<J>, motions: Seq<Motion<J>>, n: int)
    requires
        start.begins(),
        start.can_run(motions),
        start.ran(motions).has_listing(),
        0 <= n <= motions.len(),
    ensures
        start.ran(motions).listing().demand_end >= start.ran(
            motions.take(n),
        ).listing().demand_end,
    decreases motions.len(),
{
    if n < motions.len() {
        let head = motions.drop_last();
        assert(head.take(n) =~= motions.take(n));
        lemma_same_listing(start, motions);
        lemma_demand(start, head, n);
    } else {
        assert(motions.take(n) =~= motions);
    }
}

/// The answers to two requests for one page are the same.
#[verifier::spinoff_prover]
#[verifier::rlimit(40)]
proof fn lemma_read_again<J>(
    start: Course<J>,
    motions: Seq<Motion<J>>,
    first: int,
    then: int,
    cursor: Option<Seq<char>>,
    limit: usize,
)
    requires
        start.begins(),
        start.can_run(motions),
        start.ran(motions).has_listing(),
        start.asks_at(motions, first, cursor, limit),
        start.asks_at(motions, then, cursor, limit),
        first < then,
        start.page_at(motions, first)->Ok_0.entries.len() > 0 || start.ran(
            motions.take(first + 1),
        ).listing().exhausted,
    ensures
        start.page_at(motions, then)->Ok_0.entries == start.page_at(motions, first)->Ok_0.entries,
        start.page_at(motions, then)->Ok_0.next_cursor == start.page_at(
            motions,
            first,
        )->Ok_0.next_cursor,
{
    let task = start.job.tally.task;
    lemma_read_in(start, motions, first, cursor, limit);
    lemma_read_in(start, motions, then, cursor, limit);
    let early = motions.take(first + 1);
    let late = motions.take(then);
    lemma_there(start, motions, first + 1);
    lemma_there(start, motions, then);
    lemma_cache_at(start, motions, first, cursor, limit);
    lemma_cache_at(start, motions, then, cursor, limit);
    let calls = lemma_run_calls(start, late, first + 1);
    assert(late.take(first + 1) =~= early);
    let synced = flight::lemma_synchronized_calls(
        start.ran(late).desk,
        task,
        motions[then]->call->Page_told,
    );
    let read = start.cache_at(motions, first);
    let at = motions[first]->call->Page_now;
    let left = read.paged(task, cursor, limit, at).0;
    flight::lemma_concat(left, calls, synced);
    let again = start.cache_at(motions, then);
    lemma_handed(read, task, cursor, limit, at);
    lemma_handed(again, task, cursor, limit, motions[then]->call->Page_now);
    history::a_page_is_the_same_whenever_it_is_read(
        read,
        task,
        cursor,
        limit,
        at,
        calls + synced,
        motions[then]->call->Page_now,
    );
}

/// What reading a page demands.
#[verifier::spinoff_prover]
#[verifier::rlimit(40)]
proof fn lemma_read_demand<J>(
    start: Course<J>,
    motions: Seq<Motion<J>>,
    at: int,
    cursor: Option<Seq<char>>,
    limit: usize,
)
    requires
        start.begins(),
        start.can_run(motions),
        start.ran(motions).has_listing(),
        start.asks_at(motions, at, cursor, limit),
    ensures
        ({
            let before = start.ran(motions.take(at));
            let after = start.ran(motions.take(at + 1));
            let demand = wire::clip(start.read_in(motions, at).draft.offset + 2 * limit as nat);
            &&& before.has_listing()
            &&& after.has_listing()
            &&& before.job.tally.task == start.job.tally.task
            &&& after.job.tally.task == start.job.tally.task
            &&& after.listing().entries == before.listing().entries
            &&& before.listing().exhausted ==> after.listing().exhausted
            &&& after.listing().demand_end == if demand > before.listing().demand_end {
                demand
            } else {
                before.listing().demand_end
            }
        }),
{
    lemma_there(start, motions, at);
    lemma_there(start, motions, at + 1);
    lemma_cache_at(start, motions, at, cursor, limit);
    lemma_sync(start.ran(motions.take(at)), motions[at]->call->Page_told);
    lemma_handed(
        start.cache_at(motions, at),
        start.job.tally.task,
        cursor,
        limit,
        motions[at]->call->Page_now,
    );
}

/// Where a page that is read again begins.
#[verifier::spinoff_prover]
#[verifier::rlimit(40)]
proof fn lemma_same_offset<J>(
    start: Course<J>,
    motions: Seq<Motion<J>>,
    first: int,
    then: int,
    cursor: Option<Seq<char>>,
    limit: usize,
)
    requires
        start.begins(),
        start.can_run(motions),
        start.ran(motions).has_listing(),
        start.asks_at(motions, first, cursor, limit),
        start.asks_at(motions, then, cursor, limit),
        first < then,
    ensures
        start.read_in(motions, then).draft.offset == start.read_in(motions, first).draft.offset,
{
    lemma_read_in(start, motions, first, cursor, limit);
    lemma_read_in(start, motions, then, cursor, limit);
    lemma_read_later(start, motions, first, cursor, then, cursor, limit);
    let asked = start.read_in(motions, first);
    let again = start.read_in(motions, then);
    let size = start.desk.service.cache.message_limit as nat;
    cache::pages_fit_and_continue(asked.snapshot, asked.serial, cursor, limit as nat, size);
    cache::pages_fit_and_continue(again.snapshot, again.serial, cursor, limit as nat, size);
    if cursor is Some {
        let key = cursor->0;
        assert(asked.snapshot.cursors.contains_key(key));
        let left = asked.left(limit as nat);
        if asked.draft.first_time && asked.draft.next_cursor == cursor {
            lemma_same_mark(asked.snapshot, key, asked.draft.end, limit as nat);
        }
        assert(left.cursors.contains_key(key));
        assert(left.cursors[key] == asked.snapshot.cursors[key]);
        assert(again.snapshot.cursors[key] == left.cursors[key]);
    }
}

/// The text of a cursor tells where it continues.
proof fn lemma_same_mark(snapshot: SnapshotView, cursor: Seq<char>, end: nat, limit: nat)
    requires
        snapshot.wf(),
        snapshot.cursors.contains_key(cursor),
        cache::names_mark(cursor, end, limit),
    ensures
        snapshot.cursors[cursor] == (cache::MarkView { offset: end, limit }),
{
    let mark = snapshot.cursors[cursor];
    let n = choose|n: nat| cursor == #[trigger] cache::cursor_text(n, end, limit);
    let m = choose|m: nat| cursor == #[trigger] cache::cursor_text(m, mark.offset, mark.limit);
    cache::lemma_cursor_text(n, end, limit, m, mark.offset, mark.limit);
}

/// Reading a page again brings the same entries and the same continuation, whatever everybody else
/// called in between, and demands nothing: a listing that had enough still has enough, so that its
/// task has nothing to read. An empty page of a listing that was not finished is no such page.
pub proof fn a_page_read_again_demands_nothing<J>(
    start: Course<J>,
    motions: Seq<Motion<J>>,
    first: int,
    then: int,
    cursor: Option<Seq<char>>,
    limit: usize,
)
    requires
        start.begins(),
        start.can_run(motions),
        start.ran(motions).has_listing(),
        start.asks_at(motions, first, cursor, limit),
        start.asks_at(motions, then, cursor, limit),
        first < then,
        start.page_at(motions, first)->Ok_0.entries.len() > 0 || start.ran(
            motions.take(first + 1),
        ).listing().exhausted,
    ensures
        ({
            let page = start.page_at(motions, first)->Ok_0;
            let again = start.page_at(motions, then)->Ok_0;
            let before = start.ran(motions.take(then));
            let after = start.ran(motions.take(then + 1));
            let task = start.job.tally.task;
            &&& again.entries == page.entries
            &&& again.next_cursor == page.next_cursor
            &&& after.listing().entries == before.listing().entries
            &&& after.listing().demand_end == before.listing().demand_end
            &&& service::needs_more(after.desk.service.cache, task) ==> service::needs_more(
                before.desk.service.cache,
                task,
            )
        }),
{
    let early = motions.take(first + 1);
    let late = motions.take(then);
    lemma_read_again(start, motions, first, then, cursor, limit);
    lemma_same_offset(start, motions, first, then, cursor, limit);
    lemma_read_demand(start, motions, first, cursor, limit);
    lemma_read_demand(start, motions, then, cursor, limit);
    lemma_can_start(start, motions, then);
    assert(late.take(first + 1) =~= early);
    lemma_demand(start, late, first + 1);
}

/// The moves that some turns are.
pub open spec fn turns_of<J>(turns: Seq<Turn>) -> Seq<Motion<J>> {
    Seq::new(turns.len(), |i: int| Motion::Turn { turn: turns[i] })
}

/// The moves that a step of a task is: its turns, and the offer of what a task leaves that goes on
/// later.
pub open spec fn step_of<J>(turns: Seq<Turn>, now: u64, step: JobStep) -> Seq<Motion<J>> {
    if step is Paused || step is Yield {
        turns_of::<J>(turns).push(Motion::Offer { now })
    } else {
        turns_of(turns)
    }
}

proof fn lemma_moved<J>(now: Course<J>, turn: Turn, at: u64)
    ensures
        now.moved(Motion::Turn { turn }) == now.turned(turn).0,
        now.moved(Motion::Offer { now: at }) == now.published(at),
{
    reveal(Course::moved);
}

proof fn lemma_turns_run<J>(start: Course<J>, turns: Seq<Turn>)
    requires
        start.passes(turns),
    ensures
        start.can_run(turns_of(turns)),
        start.ran(turns_of(turns)) == start.after(turns),
        !start.done(turns_of(turns)),
    decreases turns.len(),
{
    if turns.len() > 0 {
        lemma_turns_run(start, turns.drop_last());
        assert(turns_of::<J>(turns).drop_last() =~= turns_of(turns.drop_last()));
        lemma_moved(start.after(turns.drop_last()), turns.last(), 0);
    }
}

/// A step of a task is a run: its turns are moves that can have been made, and what they leave is
/// what the step leaves. The task is done with afterwards unless the step pauses or yields.
#[verifier::spinoff_prover]
#[verifier::rlimit(40)]
pub proof fn a_step_is_a_run<J>(
    start: Course<J>,
    turns: Seq<Turn>,
    now: u64,
    end: Course<J>,
    step: JobStep,
)
    requires
        start.steps_to(turns, now, end, step),
    ensures
        start.can_run(step_of(turns, now, step)),
        start.ran(step_of(turns, now, step)) == end,
        start.done(step_of(turns, now, step)) == !(step is Paused || step is Yield),
{
    let head = turns.drop_last();
    let made = turns_of::<J>(turns);
    lemma_turns_run(start, head);
    assert(made.drop_last() =~= turns_of(head));
    assert(made.last() == (Motion::<J>::Turn { turn: turns.last() }));
    lemma_moved(start.after(head), turns.last(), now);
    assert(start.can_run(made));
    assert(start.ran(made) == start.after(head).turned(turns.last()).0);
    if step is Paused || step is Yield {
        let all = step_of::<J>(turns, now, step);
        assert(all.drop_last() =~= made);
        lemma_moved(start.ran(made), turns.last(), now);
        assert(!start.done(made));
        assert(all.last() == (Motion::<J>::Offer { now }));
    }
}

/// The states that a task goes through in a step are those of a run.
#[verifier::spinoff_prover]
#[verifier::rlimit(40)]
pub proof fn a_step_is_worked_so<S: ListingSource, H: Handles, J>(
    jobs: Seq<ListingJob<S, H>>,
    last: ListingJob<S, H>,
    start: Course<J>,
    cancel: &Cancellation,
    handles: &H,
    turns: Seq<Turn>,
    now: u64,
    end: Course<J>,
    step: JobStep,
)
    requires
        start.steps_to(turns, now, end, step),
        ListingJob::<S, H>::made(jobs, start, cancel, handles, turns),
        jobs.last()@ == start.after(turns).job,
        ListingJob::<S, H>::same_gear(&jobs.last(), &last),
        last@ == end.job,
    ensures
        worked(
            if step is Paused || step is Yield {
                jobs.push(last)
            } else {
                jobs
            },
            start,
            cancel,
            handles,
            step_of(turns, now, step),
        ),
{
    let motions = step_of::<J>(turns, now, step);
    let all = if step is Paused || step is Yield {
        jobs.push(last)
    } else {
        jobs
    };
    assert(turns.take(0) =~= Seq::<Turn>::empty());
    assert(ListingJob::<S, H>::made_at(jobs, start, cancel, handles, turns, 0));
    assert forall|i: int| 0 <= i < motions.len() implies #[trigger] worked_at(
        all,
        start,
        cancel,
        handles,
        motions,
        i,
    ) by {
        lemma_after_some(start, turns, i);
        assert(motions.take(i) =~= turns_of(turns.take(i)));
        if i < turns.len() {
            assert(ListingJob::<S, H>::made_at(jobs, start, cancel, handles, turns, i));
            assert(turns.take(i + 1).drop_last() =~= turns.take(i));
            assert(turns.take(i + 1).last() == turns[i]);
            if i + 1 < turns.len() {
                assert(ListingJob::<S, H>::made_at(jobs, start, cancel, handles, turns, i + 1));
            } else {
                assert(turns.take(i + 1) =~= turns);
            }
        } else {
            assert(turns.take(i) =~= turns);
        }
        lemma_moved(start.after(turns.take(i)), turns[i], now);
    }
}

/// What the first of some turns leave, as moves.
proof fn lemma_after_some<J>(start: Course<J>, turns: Seq<Turn>, n: int)
    requires
        0 <= n <= turns.len(),
    ensures
        start.ran(turns_of(turns.take(n))) == start.after(turns.take(n)),
    decreases n,
{
    let part = turns.take(n);
    if n > 0 {
        lemma_after_some(start, turns, n - 1);
        assert(part.drop_last() =~= turns.take(n - 1));
        assert(turns_of::<J>(part).drop_last() =~= turns_of(turns.take(n - 1)));
        lemma_moved(start.after(turns.take(n - 1)), turns[n - 1], 0);
    }
}

/// Two runs make one run, where the task is not done with after the first.
#[verifier::spinoff_prover]
#[verifier::rlimit(40)]
pub proof fn runs_join<J>(start: Course<J>, first: Seq<Motion<J>>, second: Seq<Motion<J>>)
    requires
        start.begins(),
        start.can_run(first),
        !start.done(first),
        start.ran(first).can_run(second),
    ensures
        start.can_run(first + second),
        start.ran(first + second) == start.ran(first).ran(second),
        start.done(first + second) == start.ran(first).done(second),
    decreases second.len(),
{
    lemma_on_course(start, first);
    if second.len() == 0 {
        assert(first + second =~= first);
    } else {
        runs_join(start, first, second.drop_last());
        assert((first + second).drop_last() =~= first + second.drop_last());
        assert((first + second).last() == second.last());
    }
}

} // verus!
