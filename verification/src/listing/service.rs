//! Demand-driven listings over a typed source: which tasks there are, what they wait for, and
//! which of them still count. The state belongs to one generation of a session.
use vstd::prelude::*;

use crate::domain::controller;
use crate::domain::controller::{Scope, ScopeView};
use crate::domain::index;
use crate::domain::index::{
    is_component, DirectoryIndex, DirectoryKey, IndexError, IndexPools, IndexView, KeyView, Origin,
    MAX_COMPONENT_BYTES,
};
use crate::domain::model;
use crate::domain::model::{
    Bytes, Category, Entry, EntryView, FsIssue, IssueScope, IssueView, Issues, IssuesView, Kind,
    ListingPage, Operation, PageView, Phase, Value, WaitReason, WorkRecord, WorkView,
};
use crate::listing::cache;
use crate::listing::cache::{
    CacheError, CacheView, HandleView, ListingCache, ListingHandle, SnapshotView,
};
use crate::runtime::memory::{ByteBudget, PoolView};
use crate::scheduler;
use crate::scheduler::{
    Lane, Pending, PendingView, Scheduler, SchedulerView, Seat, Status, SubmitError, Ticket, TicketView,
    Wait,
};
use crate::text;
use crate::text::{byte_len, numeral, same_text};
use crate::text_map;
use crate::text_map::TextMap;

verus! {

broadcast use vstd::set::group_set_axioms;

/// The issue of a listing as a whole.
pub open spec fn listing_issue(code: Seq<char>) -> IssueView {
    IssueView {
        code,
        operation: "list"@,
        scope: IssueScope::Subtree,
        entry_id: None,
        native_code: None,
    }
}

pub(crate) fn issue(code: &str) -> (issue: FsIssue)
    ensures
        issue@ == listing_issue(code@),
{
    FsIssue {
        code: code.to_owned(),
        operation: "list".to_owned(),
        scope: IssueScope::Subtree,
        entry_id: None,
        native_code: None,
    }
}

/// The id of a listing task.
pub open spec fn task_text(number: u64) -> Seq<char> {
    "list-task-"@ + text::decimal(number as nat)
}

fn task_name(number: u64) -> (id: String)
    ensures
        id@ == task_text(number),
{
    let mut id = "list-task-".to_owned();
    id.append(numeral(number as u128).as_str());
    id
}

/// The listings of one generation.
pub struct ListingService {
    scope: Scope,
    cache: ListingCache,
    tickets: TextMap<Ticket>,
    cancelled: TextMap<()>,
    closed: bool,
    seen_eviction_epoch: u64,
}

/// Which listings there are, the tickets of their tasks, and which tasks were cancelled.
#[verifier::ext_equal]
pub struct ServiceView {
    pub scope: ScopeView,
    pub cache: CacheView,
    pub tickets: Map<Seq<char>, TicketView>,
    pub cancelled: Set<Seq<char>>,
    pub closed: bool,
    pub seen_eviction_epoch: u64,
}

impl View for ListingService {
    type V = ServiceView;

    closed spec fn view(&self) -> ServiceView {
        ServiceView {
            scope: self.scope@,
            cache: self.cache@,
            tickets: text_map::shown(self.tickets@),
            cancelled: self.cancelled@.dom(),
            closed: self.closed,
            seen_eviction_epoch: self.seen_eviction_epoch,
        }
    }
}

/// The tickets of the rows whose ids are not kept, in order.
pub open spec fn dropped_rows(
    rows: Seq<(Seq<char>, TicketView)>,
    keep: Set<Seq<char>>,
) -> Seq<TicketView>
    decreases rows.len(),
{
    if rows.len() == 0 {
        Seq::empty()
    } else {
        let head = dropped_rows(rows.drop_last(), keep);
        if keep.contains(rows.last().0) {
            head
        } else {
            head.push(rows.last().1)
        }
    }
}

/// The rows whose ids are kept, in order.
spec fn kept_rows<V>(rows: Seq<(Seq<char>, V)>, keep: Set<Seq<char>>) -> Seq<(Seq<char>, V)>
    decreases rows.len(),
{
    if rows.len() == 0 {
        rows
    } else {
        let head = kept_rows(rows.drop_last(), keep);
        if keep.contains(rows.last().0) {
            head.push(rows.last())
        } else {
            head
        }
    }
}

/// The kept rows stand for the map without the other ids.
proof fn lemma_kept_rows<V>(rows: Seq<(Seq<char>, V)>, keep: Set<Seq<char>>)
    requires
        text_map::increasing(rows),
    ensures
        text_map::map_of(kept_rows(rows, keep)) == text_map::map_of(rows).restrict(
            keep.intersect(text_map::map_of(rows).dom()),
        ),
    decreases rows.len(),
{
    let map = text_map::map_of(rows);
    if rows.len() == 0 {
        assert(text_map::map_of(kept_rows(rows, keep)) =~= map.restrict(keep.intersect(map.dom())));
    } else {
        let head = rows.drop_last();
        assert(text_map::increasing(head)) by {
            assert forall|i: int, j: int| 0 <= i < j < head.len() implies text::text_before(
                (#[trigger] head[i]).0,
                (#[trigger] head[j]).0,
            ) by {
                assert(head[i] == rows[i] && head[j] == rows[j]);
            }
        }
        lemma_kept_rows(head, keep);
        text_map::lemma_unique(rows);
        text_map::lemma_map_of(head);
        let last = rows.last();
        assert(!text_map::map_of(head).contains_key(last.0)) by {
            if text_map::map_of(head).contains_key(last.0) {
                let i = choose|i: int| 0 <= i < head.len() && (#[trigger] head[i]).0 == last.0;
                assert(rows[i].0 == rows[rows.len() - 1].0);
            }
        }
        let kept_head = kept_rows(head, keep);
        if keep.contains(last.0) {
            assert(kept_rows(rows, keep).drop_last() =~= kept_head);
        }
        assert(text_map::map_of(kept_rows(rows, keep)) =~= map.restrict(keep.intersect(map.dom())));
    }
}

/// The scheduler after some tasks were cancelled, one after the other.
pub open spec fn without_all<J>(
    scheduler: SchedulerView<J>,
    tickets: Seq<TicketView>,
) -> SchedulerView<J>
    decreases tickets.len(),
{
    if tickets.len() == 0 {
        scheduler
    } else {
        without_all(scheduler, tickets.drop_last()).without_task(tickets.last().serial)
    }
}

/// The tasks that are taken out meanwhile.
pub open spec fn withdrawn_all<J>(
    scheduler: SchedulerView<J>,
    tickets: Seq<TicketView>,
) -> Seq<PendingView<J>>
    decreases tickets.len(),
{
    if tickets.len() == 0 {
        Seq::empty()
    } else {
        let head = withdrawn_all(scheduler, tickets.drop_last());
        match without_all(scheduler, tickets.drop_last()).withdrawn(tickets.last().serial) {
            Some(task) => head.push(task),
            None => head,
        }
    }
}

/// Cancels tasks whose listings are gone. What is taken out is handed over.
fn cancel_retired<J>(
    scheduler: &mut Scheduler<J>,
    retired: Vec<Ticket>,
    gone: &mut Vec<Pending<J>>,
)
    requires
        old(scheduler).wf(),
    ensures
        final(scheduler).wf(),
        final(scheduler).budget() == old(scheduler).budget(),
        final(scheduler)@ == without_all(old(scheduler)@, model::views(retired@)),
        scheduler::waiting(final(gone)@) == scheduler::waiting(old(gone)@) + withdrawn_all(
            old(scheduler)@,
            model::views(retired@),
        ),
{
    let ghost before = scheduler@;
    let ghost tickets = model::views(retired@);
    let ghost start = scheduler::waiting(gone@);
    let len: usize = retired.len();
    let mut i: usize = 0;
    assert(tickets.take(0) =~= Seq::<TicketView>::empty());
    assert(start + withdrawn_all(before, tickets.take(0)) =~= start);
    while i < len
        invariant
            i <= len,
            len == retired@.len(),
            tickets == model::views(retired@),
            scheduler.wf(),
            scheduler.budget() == old(scheduler).budget(),
            scheduler@ == without_all(before, tickets.take(i as int)),
            scheduler::waiting(gone@) == start + withdrawn_all(before, tickets.take(i as int)),
        decreases len - i,
    {
        let ghost now = scheduler@;
        let ghost held = scheduler::waiting(gone@);
        proof {
            assert(tickets.take(i + 1).drop_last() =~= tickets.take(i as int));
            assert(tickets.take(i + 1).last() == retired@[i as int]@);
        }
        let (_told, task) = scheduler.cancel_task(&retired[i]);
        if let Some(task) = task {
            let ghost shown = task@;
            gone.push(task);
            assert(scheduler::waiting(gone@) =~= held.push(shown));
            assert(start + withdrawn_all(before, tickets.take(i as int)).push(shown) =~= held.push(
                shown,
            ));
        }
        i = i + 1;
    }
    assert(tickets.take(len as int) =~= tickets);
}

impl ServiceView {
    /// The tickets of the tasks whose listings are gone, since that was looked at last.
    pub open spec fn dropped(self) -> Seq<TicketView> {
        if self.cache.eviction_epoch == self.seen_eviction_epoch {
            Seq::empty()
        } else {
            dropped_rows(text_map::rows_of(self.tickets), self.cache.snapshots.dom())
        }
    }

    /// The service without those tickets.
    pub open spec fn swept(self) -> ServiceView {
        if self.cache.eviction_epoch == self.seen_eviction_epoch {
            self
        } else {
            let keep = self.cache.snapshots.dom();
            ServiceView {
                seen_eviction_epoch: self.cache.eviction_epoch,
                tickets: self.tickets.restrict(keep.intersect(self.tickets.dom())),
                cancelled: self.cancelled.difference(self.tickets.dom().difference(keep)),
                ..self
            }
        }
    }
}

impl ListingService {
    /// The listings and the tickets are in order.
    pub closed spec fn wf(&self) -> bool {
        &&& self.cache.wf()
        &&& self.tickets.wf()
        &&& self.cancelled.wf()
    }

    /// The pool has the cache's hold on its books.
    pub closed spec fn backed(&self, pool: &ByteBudget) -> bool {
        self.cache.backed(pool)
    }

    /// A service is backed by every pool whose books are in order and give its hold what its
    /// listings use.
    pub proof fn lemma_backed(&self, pool: &ByteBudget)
        requires
            self.wf(),
        ensures
            self.backed(pool) <==> pool.wf() && 0 <= self.hold() < pool@.sizes.len()
                && pool@.sizes[self.hold()] == self@.cache.used(),
    {
        self.cache.lemma_backed(pool);
    }

    /// Which reservation of the pool is the cache's.
    pub closed spec fn hold(&self) -> int {
        self.cache.hold()
    }

    /// What others hold in the pool.
    pub open spec fn others(&self, pool: PoolView) -> nat {
        (pool.used - self@.cache.used()) as nat
    }

    /// A service without listings.
    pub fn new(scope: Scope, cache: ListingCache) -> (service: Self)
        requires
            cache.wf(),
        ensures
            service.wf(),
            forall|pool: &ByteBudget| cache.backed(pool) ==> service.backed(pool),
            service.hold() == cache.hold(),
            service@ == (ServiceView {
                scope: scope@,
                cache: cache@,
                tickets: Map::empty(),
                cancelled: Set::empty(),
                closed: false,
                seen_eviction_epoch: 0,
            }),
    {
        let service = ListingService {
            scope,
            cache,
            tickets: TextMap::new(),
            cancelled: TextMap::new(),
            closed: false,
            seen_eviction_epoch: 0,
        };
        assert(service@.tickets =~= Map::<Seq<char>, TicketView>::empty());
        assert(service@.cancelled =~= Set::<Seq<char>>::empty());
        service
    }

    /// Drops the tickets of listings that are gone.
    fn retired(&mut self) -> (tickets: Vec<Ticket>)
        requires
            old(self).wf(),
        ensures
            final(self).wf(),
            final(self).hold() == old(self).hold(),
            forall|pool: &ByteBudget| old(self).backed(pool) ==> final(self).backed(pool),
            final(self)@ == old(self)@.swept(),
            model::views(tickets@) == old(self)@.dropped(),
    {
        let ghost before = self@;
        let mut dropped: Vec<Ticket> = Vec::new();
        assert(model::views(dropped@) =~= Seq::<TicketView>::empty());
        let epoch: u64 = self.cache.eviction_epoch();
        if epoch == self.seen_eviction_epoch {
            return dropped;
        }
        self.seen_eviction_epoch = epoch;
        let ghost keep = before.cache.snapshots.dom();
        let ghost rows = self.tickets.rows();
        let ghost all = text_map::shown_rows(rows);
        let ghost cancelled = self.cancelled@.dom();
        let ghost mut done: int = 0;
        proof {
            text_map::lemma_shown_rows(rows);
            text_map::lemma_map_of(rows);
            text_map::lemma_unique(rows);
            assert(rows.take(0) =~= Seq::<(Seq<char>, Ticket)>::empty());
            assert(all.take(0) =~= Seq::<(Seq<char>, TicketView)>::empty());
            assert(rows =~= kept_rows(rows.take(0), keep) + rows.skip(0));
            assert(cancelled =~= cancelled.difference(ids_before(rows, 0).difference(keep)));
        }
        let mut i: usize = 0;
        while i < self.tickets.len()
            invariant
                0 <= done <= rows.len(),
                self.tickets.wf(),
                self.cancelled.wf(),
                self.cache.wf(),
                self.cache == old(self).cache,
                self.closed == old(self).closed,
                self.scope == old(self).scope,
                self.seen_eviction_epoch == epoch,
                keep == self.cache@.snapshots.dom(),
                text_map::increasing(rows),
                all == text_map::shown_rows(rows),
                i == kept_rows(rows.take(done), keep).len(),
                self.tickets.rows() == kept_rows(rows.take(done), keep) + rows.skip(done),
                model::views(dropped@) == dropped_rows(all.take(done), keep),
                self.cancelled@.dom() == cancelled.difference(
                    ids_before(rows, done).difference(keep),
                ),
            decreases rows.len() - done,
        {
            let ghost kept = kept_rows(rows.take(done), keep);
            let ghost now = self.tickets.rows();
            proof {
                assert(now[i as int] == rows[done]);
                assert(rows.take(done + 1).drop_last() =~= rows.take(done));
                assert(all.take(done + 1).drop_last() =~= all.take(done));
                assert(all.take(done + 1).last() == (rows[done].0, rows[done].1@));
                assert(ids_before(rows, done + 1) =~= ids_before(rows, done).insert(rows[done].0));
            }
            let id = self.tickets.key_at(i).clone();
            if self.cache.contains(id.as_str()) {
                proof {
                    assert(kept.push(rows[done]) + rows.skip(done + 1) =~= now);
                    assert(cancelled.difference(ids_before(rows, done + 1).difference(keep))
                        =~= cancelled.difference(ids_before(rows, done).difference(keep)));
                    done = done + 1;
                }
                i = i + 1;
            } else {
                let ghost flagged = self.cancelled@.dom();
                self.cancelled.remove(id.as_str());
                let (_id, ticket) = self.tickets.remove_at(i);
                let ghost held = model::views(dropped@);
                let ghost shown = ticket@;
                dropped.push(ticket);
                proof {
                    assert(now.remove(i as int) =~= kept + rows.skip(done + 1));
                    assert(model::views(dropped@) =~= held.push(shown));
                    assert(self.cancelled@.dom() =~= flagged.remove(id@));
                    assert(self.cancelled@.dom() =~= cancelled.difference(
                        ids_before(rows, done + 1).difference(keep),
                    ));
                    done = done + 1;
                }
            }
        }
        proof {
            assert(done == rows.len());
            assert(rows.take(done) =~= rows);
            assert(all.take(done) =~= all);
            assert(rows.skip(done) =~= Seq::<(Seq<char>, Ticket)>::empty());
            assert(self.tickets.rows() =~= kept_rows(rows, keep));
            lemma_kept_rows(rows, keep);
            assert(ids_before(rows, done) =~= old(self).tickets@.dom());
            assert(self@.tickets =~= before.swept().tickets);
            assert(self@ =~= before.swept());
        }
        dropped
    }
}

/// The ids of the first rows.
spec fn ids_before<V>(rows: Seq<(Seq<char>, V)>, n: int) -> Set<Seq<char>> {
    Set::new(|id: Seq<char>| exists|i: int| 0 <= i < n && i < rows.len() && rows[i].0 == id)
}

/// What a listing is told of a wait of its task.
pub open spec fn wait_reason(wait: Option<Wait>) -> Option<WaitReason> {
    match wait {
        Some(Wait::Slot) => Some(WaitReason::Slot),
        Some(Wait::Draining) => Some(WaitReason::Draining),
        Some(Wait::PageDemand) => Some(WaitReason::PageDemand),
        None => None,
    }
}

pub(crate) fn shown_wait(wait: Option<Wait>) -> (reason: Option<WaitReason>)
    ensures
        reason == wait_reason(wait),
{
    match wait {
        Some(Wait::Slot) => Some(WaitReason::Slot),
        Some(Wait::Draining) => Some(WaitReason::Draining),
        Some(Wait::PageDemand) => Some(WaitReason::PageDemand),
        None => None,
    }
}

/// The cache after the phase of a listing and its wait were published.
pub open spec fn restated(
    cache: CacheView,
    id: Seq<char>,
    phase: Phase,
    wait: Option<WaitReason>,
) -> CacheView {
    let work = cache.snapshots[id].work;
    if work.phase == phase && work.wait_reason == wait {
        cache
    } else {
        cache.reworked(
            id,
            WorkView {
                phase,
                wait_reason: wait,
                sequence: controller::next_serial(work.sequence),
                ..work
            },
        )
    }
}

/// The cache after a listing took over where its task stands.
pub open spec fn followed(
    cache: CacheView,
    id: Seq<char>,
    status: Status,
    wait: Option<Wait>,
) -> CacheView {
    match status {
        Status::Completed => cache.finished(id, Phase::Completed, None),
        Status::Cancelled => cache.finished(id, Phase::Cancelled, None),
        Status::Failed => cache.finished(id, Phase::Failed, Some(listing_issue("INTERNAL"@))),
        Status::ResourceLimit => cache.finished(
            id,
            Phase::Completed,
            Some(listing_issue("RESOURCE_LIMIT"@)),
        ),
        Status::Queued => restated(cache, id, Phase::Queued, wait_reason(wait)),
        Status::Running | Status::Paused => restated(cache, id, Phase::Running, wait_reason(wait)),
    }
}

impl ServiceView {
    /// Whether this is an answer of the token that decides what the task of a listing waits for.
    pub open spec fn told_by<J>(
        self,
        scheduler: SchedulerView<J>,
        id: Seq<char>,
        told: bool,
    ) -> bool {
        if self.tickets.contains_key(id) {
            scheduler.told_by(self.tickets[id], told)
        } else {
            !told
        }
    }

    /// The service after a listing took over where its task stands, by what the token told that
    /// decides what the task waits for. A cancelled task that came
    /// to its end counts as cancelled, whatever it came to; while it runs on, it drains.
    pub open spec fn synchronized<J>(
        self,
        scheduler: SchedulerView<J>,
        id: Seq<char>,
        told: bool,
    ) -> ServiceView {
        if !self.tickets.contains_key(id) {
            self
        } else {
            let ticket = self.tickets[id];
            match scheduler.status(ticket.serial) {
                None => self,
                Some(status) => if self.cancelled.contains(id) && status.is_terminal() {
                    ServiceView {
                        cache: self.cache.finished(id, Phase::Cancelled, None),
                        ..self
                    }
                } else {
                    let wait = if self.cancelled.contains(id) && status is Running {
                        Some(Wait::Draining)
                    } else {
                        scheduler.wait_given(ticket, told)
                    };
                    ServiceView { cache: followed(self.cache, id, status, wait), ..self }
                },
            }
        }
    }
}

impl ListingService {
    fn follow(&mut self, id: &str, status: Status, wait: Option<Wait>)
        requires
            old(self).wf(),
        ensures
            final(self).wf(),
            final(self).hold() == old(self).hold(),
            forall|pool: &ByteBudget| old(self).backed(pool) ==> final(self).backed(pool),
            final(self)@ == (ServiceView {
                cache: followed(old(self)@.cache, id@, status, wait),
                ..old(self)@
            }),
            final(self)@.cache.used() == old(self)@.cache.used(),
    {
        match status {
            Status::Completed => {
                let _done = self.cache.finish(id, Phase::Completed, None);
            },
            Status::Cancelled => {
                let _done = self.cache.finish(id, Phase::Cancelled, None);
            },
            Status::Failed => {
                let _done = self.cache.finish(id, Phase::Failed, Some(issue("INTERNAL")));
            },
            Status::ResourceLimit => {
                let _done = self.cache.finish(
                    id,
                    Phase::Completed,
                    Some(issue("RESOURCE_LIMIT")),
                );
            },
            Status::Queued => {
                self.cache.update_status(id, Phase::Queued, shown_wait(wait));
            },
            Status::Running | Status::Paused => {
                self.cache.update_status(id, Phase::Running, shown_wait(wait));
            },
        }
    }

    /// Lets a listing take over where its task stands.
    fn synchronize<J>(&mut self, scheduler: &Scheduler<J>, id: &str)
        requires
            old(self).wf(),
        ensures
            final(self).wf(),
            final(self).hold() == old(self).hold(),
            forall|pool: &ByteBudget| old(self).backed(pool) ==> final(self).backed(pool),
            exists|told: bool|
                {
                    &&& old(self)@.told_by(scheduler@, id@, told)
                    &&& final(self)@ == #[trigger] old(self)@.synchronized(scheduler@, id@, told)
                },
            final(self)@.cache.used() == old(self)@.cache.used(),
    {
        let ghost before = self@;
        let ticket = match self.tickets.get(id) {
            Some(ticket) => ticket.clone(),
            None => {
                assert(before.synchronized(scheduler@, id@, false) == before);
                return;
            },
        };
        let wait = scheduler.wait_reason(&ticket);
        let ghost told = choose|told: bool|
            scheduler@.told_by(ticket@, told) && wait == #[trigger] scheduler@.wait_given(
                ticket@,
                told,
            );
        let ghost wanted = before.synchronized(scheduler@, id@, told);
        let status = match ticket.status(scheduler) {
            Some(status) => status,
            None => {
                assert(wanted == before);
                return;
            },
        };
        let cancelled = self.cancelled.contains(id);
        if cancelled && status.terminal() {
            let _done = self.cache.finish(id, Phase::Cancelled, None);
        } else if cancelled && status == Status::Running {
            self.follow(id, status, Some(Wait::Draining));
        } else {
            self.follow(id, status, wait);
        }
        assert(self@ == wanted);
    }

    /// Cancels the tasks whose listings are gone.
    fn sweep<J>(&mut self, scheduler: &mut Scheduler<J>, gone: &mut Vec<Pending<J>>)
        requires
            old(self).wf(),
            old(scheduler).wf(),
        ensures
            final(self).wf(),
            final(self).hold() == old(self).hold(),
            forall|pool: &ByteBudget| old(self).backed(pool) ==> final(self).backed(pool),
            final(self)@ == old(self)@.swept(),
            final(scheduler).wf(),
            final(scheduler).budget() == old(scheduler).budget(),
            final(scheduler)@ == without_all(old(scheduler)@, old(self)@.dropped()),
            scheduler::waiting(final(gone)@) == scheduler::waiting(old(gone)@) + withdrawn_all(
                old(scheduler)@,
                old(self)@.dropped(),
            ),
    {
        let retired = self.retired();
        cancel_retired(scheduler, retired, gone);
    }
}

/// A demand for more of a listing, where it needs more.
pub open spec fn demanded<J>(
    scheduler: SchedulerView<J>,
    cache: CacheView,
    id: Seq<char>,
) -> SchedulerView<J> {
    if needs_more(cache, id) {
        scheduler.resumed(id)
    } else {
        scheduler
    }
}

/// Whether a listing has to collect more entries.
pub open spec fn needs_more(cache: CacheView, id: Seq<char>) -> bool {
    cache.snapshots.contains_key(id) && !cache.snapshots[id].exhausted
        && cache.snapshots[id].entries.len() < cache.snapshots[id].demand_end
}

/// A service and the scheduler that it shares, with the tasks that were taken out of it.
#[verifier::ext_equal]
pub struct Desk<J> {
    pub service: ServiceView,
    pub scheduler: SchedulerView<J>,
    pub gone: Seq<PendingView<J>>,
}

impl<J> Desk<J> {
    /// The desk with another cache.
    pub open spec fn with_cache(self, cache: CacheView) -> Desk<J> {
        Desk { service: ServiceView { cache, ..self.service }, ..self }
    }

    /// The desk after the tasks whose listings are gone were cancelled.
    pub open spec fn swept(self) -> Desk<J> {
        let dropped = self.service.dropped();
        Desk {
            service: self.service.swept(),
            scheduler: without_all(self.scheduler, dropped),
            gone: self.gone + withdrawn_all(self.scheduler, dropped),
        }
    }

    /// The desk after a listing took over where its task stands.
    pub open spec fn synchronized(self, id: Seq<char>, told: bool) -> Desk<J> {
        Desk { service: self.service.synchronized(self.scheduler, id, told), ..self }
    }

    /// Whether this is an answer of the token that decides what the task of a listing waits for.
    pub open spec fn told_by(self, id: Seq<char>, told: bool) -> bool {
        self.service.told_by(self.scheduler, id, told)
    }

    /// The desk after a page was asked for, and the answer.
    pub open spec fn paged(
        self,
        id: Seq<char>,
        cursor: Option<Seq<char>>,
        limit: usize,
        now: u64,
        told: bool,
    ) -> (Desk<J>, Result<PageView, CacheError>) {
        let current = self.synchronized(id, told);
        let (cache, answer) = current.service.cache.paged(id, cursor, limit, now);
        let read = current.with_cache(cache).swept();
        (
            Desk {
                scheduler: if answer is Ok {
                    demanded(read.scheduler, cache, id)
                } else {
                    read.scheduler
                },
                ..read
            },
            answer,
        )
    }

    /// The desk after the work of a listing was asked for.
    pub open spec fn worked(self, id: Seq<char>, now: u64, told: bool) -> Desk<J> {
        let current = self.synchronized(id, told);
        let cache = current.service.cache.told(id, now);
        let read = current.with_cache(cache).swept();
        Desk { scheduler: demanded(read.scheduler, cache, id), ..read }
    }
}

impl ListingService {
    /// The service, the scheduler and what was taken out of it.
    pub open spec fn desk<J>(&self, scheduler: &Scheduler<J>, gone: &Vec<Pending<J>>) -> Desk<J> {
        Desk { service: self@, scheduler: scheduler@, gone: scheduler::waiting(gone@) }
    }

    /// Reads a page. A listing that needs more for the next one is demanded; a full queue is
    /// temporary, and the next read demands again.
    pub fn page<J>(
        &mut self,
        pool: &mut ByteBudget,
        scheduler: &mut Scheduler<J>,
        gone: &mut Vec<Pending<J>>,
        id: &str,
        cursor: Option<&str>,
        limit: usize,
        now: u64,
    ) -> (result: Result<ListingPage, CacheError>)
        requires
            old(self).wf(),
            old(self).backed(old(pool)),
            old(scheduler).wf(),
        ensures
            final(self).wf(),
            final(self).backed(final(pool)),
            final(self).hold() == old(self).hold(),
            final(pool)@ == old(pool)@.resized(old(self).hold(), final(self)@.cache.used()),
            final(scheduler).wf(),
            final(scheduler).budget() == old(scheduler).budget(),
            exists|told: bool|
                {
                    let (desk, answer) = #[trigger] old(self).desk(old(scheduler), old(gone)).paged(
                        id@,
                        cache::optional_str(cursor),
                        limit,
                        now,
                        told,
                    );
                    &&& old(self)@.told_by(old(scheduler)@, id@, told)
                    &&& final(self).desk(final(scheduler), final(gone)) == desk
                    &&& match answer {
                        Ok(page) => result is Ok && result->Ok_0@ == page,
                        Err(error) => result == Err::<ListingPage, CacheError>(error),
                    }
                },
            result is Ok ==> result->Ok_0@.entries.len() <= limit,
    {
        let ghost start = self.desk(scheduler, gone);
        self.synchronize(scheduler, id);
        let ghost told = choose|told: bool|
            start.told_by(id@, told) && self@ == #[trigger] start.service.synchronized(
                start.scheduler,
                id@,
                told,
            );
        let ghost wanted = start.paged(id@, cache::optional_str(cursor), limit, now, told);
        let result = self.cache.page(pool, id, cursor, limit, now);
        let mut demand = false;
        if result.is_ok() {
            match self.cache.needs_collection(id) {
                Ok(needed) => {
                    demand = needed;
                },
                Err(_) => {},
            }
        }
        self.sweep(scheduler, gone);
        if demand {
            let _answer = scheduler.resume(id);
        }
        assert(self.desk(scheduler, gone) =~= wanted.0);
        result
    }

    /// The work of a listing. Reading it demands more, like reading a page.
    pub fn work<J>(
        &mut self,
        pool: &mut ByteBudget,
        scheduler: &mut Scheduler<J>,
        gone: &mut Vec<Pending<J>>,
        id: &str,
        now: u64,
    ) -> (result: Result<WorkRecord, CacheError>)
        requires
            old(self).wf(),
            old(self).backed(old(pool)),
            old(scheduler).wf(),
        ensures
            final(self).wf(),
            final(self).backed(final(pool)),
            final(self).hold() == old(self).hold(),
            final(pool)@ == old(pool)@.resized(old(self).hold(), final(self)@.cache.used()),
            final(scheduler).wf(),
            final(scheduler).budget() == old(scheduler).budget(),
            exists|told: bool|
                {
                    let start = old(self).desk(old(scheduler), old(gone));
                    let read = start.synchronized(id@, told).service.cache.expired(now);
                    &&& start.told_by(id@, told)
                    &&& final(self).desk(final(scheduler), final(gone)) == #[trigger] old(
                        self,
                    ).desk(old(scheduler), old(gone)).worked(id@, now, told)
                    &&& if read.snapshots.contains_key(id@) {
                        result is Ok && result->Ok_0@ == read.snapshots[id@].work
                    } else {
                        result == Err::<WorkRecord, CacheError>(CacheError::TaskExpired)
                    }
                },
    {
        let ghost start = self.desk(scheduler, gone);
        self.synchronize(scheduler, id);
        let ghost told = choose|told: bool|
            start.told_by(id@, told) && self@ == #[trigger] start.service.synchronized(
                start.scheduler,
                id@,
                told,
            );
        let ghost wanted = start.worked(id@, now, told);
        let result = self.cache.work(pool, id, now);
        let mut demand = false;
        match self.cache.needs_collection(id) {
            Ok(needed) => {
                demand = needed;
            },
            Err(_) => {},
        }
        self.sweep(scheduler, gone);
        if demand {
            let _answer = scheduler.resume(id);
        }
        assert(self.desk(scheduler, gone) =~= wanted);
        result
    }

    /// Drops the listings that nobody read for the time to live, and cancels their tasks.
    pub fn expire<J>(
        &mut self,
        pool: &mut ByteBudget,
        scheduler: &mut Scheduler<J>,
        gone: &mut Vec<Pending<J>>,
        now: u64,
    )
        requires
            old(self).wf(),
            old(self).backed(old(pool)),
            old(scheduler).wf(),
        ensures
            final(self).wf(),
            final(self).backed(final(pool)),
            final(self).hold() == old(self).hold(),
            final(pool)@ == old(pool)@.resized(old(self).hold(), final(self)@.cache.used()),
            final(scheduler).wf(),
            final(scheduler).budget() == old(scheduler).budget(),
            ({
                let start = old(self).desk(old(scheduler), old(gone));
                final(self).desk(final(scheduler), final(gone)) == start.with_cache(
                    start.service.cache.expired(now),
                ).swept()
            }),
    {
        self.cache.expire(pool, now);
        self.sweep(scheduler, gone);
    }

    /// How much memory the listings are charged for.
    pub fn managed_listing_bytes(&self) -> (bytes: usize)
        requires
            self.wf(),
        ensures
            bytes == self@.cache.used(),
    {
        self.cache.managed_bytes()
    }
}

impl ServiceView {
    /// Why a listing is not started, before the cache is asked.
    pub open spec fn refusal(
        self,
        index: IndexView,
        foreground: PoolView,
        target: Seq<char>,
        limit: usize,
        at: Seq<char>,
        number: Option<u64>,
    ) -> Option<CacheError> {
        if limit < 1 || limit > 1000 || text::utf8(at).len() > 64 || !index.records.contains_key(
            target,
        ) {
            Some(CacheError::InvalidArgument)
        } else {
            match index.bind_answer(foreground, self.scope) {
                Err(IndexError::ResourceLimit) => Some(CacheError::ResourceLimit),
                Err(_) => Some(CacheError::InvalidArgument),
                Ok(_) => if number is None {
                    Some(CacheError::ResourceLimit)
                } else if self.closed {
                    Some(CacheError::TaskExpired)
                } else {
                    None
                },
            }
        }
    }

    /// The index after a listing was asked for: it is bound to the scope, where the arguments
    /// are in order.
    pub open spec fn bound(
        self,
        index: IndexView,
        foreground: PoolView,
        target: Seq<char>,
        limit: usize,
        at: Seq<char>,
    ) -> IndexView {
        if limit < 1 || limit > 1000 || text::utf8(at).len() > 64 || !index.records.contains_key(
            target,
        ) {
            index
        } else {
            index.bound(foreground, self.scope)
        }
    }

    /// The work of a new listing.
    pub open spec fn work_for(
        self,
        id: Seq<char>,
        target: Seq<char>,
        category: Category,
        at: Seq<char>,
    ) -> WorkView {
        WorkView {
            session_id: self.scope.session_id,
            generation: self.scope.generation,
            task_id: id,
            operation: if category is Directories {
                Operation::ListDirectories
            } else {
                Operation::ListFiles
            },
            target_id: target,
            phase: Phase::Queued,
            wait_reason: Some(WaitReason::Slot),
            sequence: 0,
            processed_entries: 0,
            processed_directories: 0,
            observed_at: at,
            issues: IssuesView::none(),
        }
    }
}

/// A listing that is asked for.
#[verifier::ext_equal]
pub struct Wish {
    pub target: Seq<char>,
    pub category: Category,
    pub limit: usize,
    pub at: Seq<char>,
    pub now: u64,
}

impl ServiceView {
    /// Whether the text of the next revision can have allocated this many bytes.
    pub open spec fn revision_takes(self, bytes: nat) -> bool {
        index::text_takes(
            cache::revision_text(controller::next_serial(self.cache.serial) as nat),
            bytes,
        )
    }
}

impl<J> Desk<J> {
    /// The desk after the cache was asked for a listing, and the answer. A new listing collects
    /// the first page and one page of lookahead.
    pub open spec fn prepared(
        self,
        pool_limit: nat,
        others: nat,
        number: u64,
        wish: Wish,
        capacity: nat,
    ) -> (Desk<J>, Result<HandleView, CacheError>) {
        let id = task_text(number);
        let work = self.service.work_for(id, wish.target, wish.category, wish.at);
        let (cache, answer) = self.service.cache.started(
            pool_limit,
            others,
            work,
            wish.category,
            wish.now,
            capacity,
        );
        let asked = if answer is Ok && answer->Ok_0.task_id == id {
            cache.with(
                id,
                SnapshotView { demand_end: (wish.limit * 2) as nat, ..cache.snapshots[id] },
            )
        } else {
            cache
        };
        (self.with_cache(asked).swept(), answer)
    }

    /// Why the task of a new listing does not come to run.
    pub open spec fn commit_refusal(self, id: Seq<char>) -> Option<CacheError> {
        match self.scheduler.refusal(id) {
            Some(SubmitError::ResourceLimit) => Some(CacheError::ResourceLimit),
            Some(_) => Some(CacheError::TaskExpired),
            None => if self.service.closed || !self.service.cache.snapshots.contains_key(id) {
                Some(CacheError::TaskExpired)
            } else {
                None
            },
        }
    }

    /// The desk after the task of a new listing was submitted. Where the scheduler refuses it, the
    /// listing fails; where the listing is gone meanwhile, the task is cancelled.
    pub open spec fn committed(self, id: Seq<char>, seat: Seat<J>) -> Desk<J> {
        let ticket = TicketView {
            id,
            scope: self.service.scope,
            token: seat.token,
            serial: self.scheduler.next,
        };
        if self.scheduler.refusal(id) is Some {
            self.with_cache(
                self.service.cache.finished(
                    id,
                    Phase::Failed,
                    Some(listing_issue("RESOURCE_LIMIT"@)),
                ),
            )
        } else {
            let scheduler = self.scheduler.submitted(
                id,
                self.service.scope,
                seat.token,
                Lane::Foreground,
                seat.job,
            );
            if self.service.closed || !self.service.cache.snapshots.contains_key(id) {
                Desk {
                    service: self.service,
                    scheduler: scheduler.without_task(ticket.serial),
                    gone: match scheduler.withdrawn(ticket.serial) {
                        Some(task) => self.gone.push(task),
                        None => self.gone,
                    },
                }
            } else {
                Desk {
                    service: ServiceView {
                        tickets: self.service.tickets.insert(id, ticket),
                        ..self.service
                    },
                    scheduler,
                    ..self
                }
            }
        }
    }

    /// The desk after a listing was cancelled. From then on nothing more enters it.
    pub open spec fn cancelled(self, id: Seq<char>, told: bool) -> Desk<J> {
        if self.stops(id) {
            self.asked(id).synchronized(id, told)
        } else {
            self
        }
    }

    /// Whether a listing can be cancelled: it has a task, and it has not come to its end.
    pub open spec fn stops(self, id: Seq<char>) -> bool {
        self.service.tickets.contains_key(id) && !self.ended(id)
    }

    /// The desk after the task of a listing was asked to stop.
    pub open spec fn asked(self, id: Seq<char>) -> Desk<J> {
        let ticket = self.service.tickets[id];
        Desk {
            service: ServiceView {
                cancelled: self.service.cancelled.insert(id),
                ..self.service
            },
            scheduler: self.scheduler.without_task(ticket.serial),
            gone: match self.scheduler.withdrawn(ticket.serial) {
                Some(task) => self.gone.push(task),
                None => self.gone,
            },
        }
    }

    /// Whether a cancellation of a listing reaches its task, also one whose turn is running.
    pub open spec fn tells(self, id: Seq<char>) -> bool {
        &&& self.stops(id)
        &&& self.scheduler.unfinished(self.service.tickets[id].serial)
    }

    /// Whether a listing is there and came to its end.
    pub open spec fn ended(self, id: Seq<char>) -> bool {
        self.service.cache.snapshots.contains_key(id)
            && self.service.cache.snapshots[id].work.phase.is_terminal()
    }

    /// The desk after the service was closed: no listing is left, and every task of the scope is
    /// cancelled.
    pub open spec fn shut(self) -> Desk<J> {
        Desk {
            service: ServiceView {
                closed: true,
                cache: CacheView {
                    snapshots: Map::empty(),
                    eviction_epoch: cache::advanced(self.service.cache.eviction_epoch, 1),
                    ..self.service.cache
                },
                tickets: Map::empty(),
                cancelled: Set::empty(),
                ..self.service
            },
            scheduler: self.scheduler.without_scope(self.service.scope),
            gone: self.gone + self.scheduler.members(self.service.scope),
        }
    }
}

impl ListingService {
    fn new_work(&self, id: &String, target_id: &str, category: Category, observed_at: &str) -> (
    work: WorkRecord)
        ensures
            work@ == self@.work_for(id@, target_id@, category, observed_at@),
    {
        let work = WorkRecord {
            session_id: self.scope.session_id.clone(),
            generation: self.scope.generation,
            task_id: id.clone(),
            operation: if category == Category::Directories {
                Operation::ListDirectories
            } else {
                Operation::ListFiles
            },
            target_id: target_id.to_owned(),
            phase: Phase::Queued,
            wait_reason: Some(WaitReason::Slot),
            sequence: 0,
            processed_entries: Bytes::of(0),
            processed_directories: Bytes::of(0),
            observed_at: observed_at.to_owned(),
            issues: Issues::default(),
        };
        assert(work@ =~= self@.work_for(id@, target_id@, category, observed_at@));
        work
    }

    /// Whether a listing can be asked for. The index is bound to the scope.
    fn accept(
        &self,
        index: &mut DirectoryIndex,
        pools: &mut IndexPools,
        target_id: &str,
        limit: usize,
        observed_at: &str,
        number: Option<u64>,
    ) -> (result: Result<u64, CacheError>)
        requires
            old(index).wf(),
            old(index).backed(old(pools)),
        ensures
            final(index).wf(),
            final(index).backed(final(pools)),
            final(index).same_holds(old(index)),
            final(index)@ == self@.bound(
                old(index)@,
                old(pools).foreground@,
                target_id@,
                limit,
                observed_at@,
            ),
            final(pools).background@ == old(pools).background@,
            match self@.refusal(
                old(index)@,
                old(pools).foreground@,
                target_id@,
                limit,
                observed_at@,
                number,
            ) {
                Some(error) => result == Err::<u64, CacheError>(error),
                None => number is Some && result == Ok::<u64, CacheError>(number->0),
            },
    {
        if limit < 1 || limit > 1000 || byte_len(observed_at) > 64 {
            return Err(CacheError::InvalidArgument);
        }
        if index.key(target_id).is_err() {
            return Err(CacheError::InvalidArgument);
        }
        match index.bind_scope(pools, &self.scope) {
            Ok(_) => {},
            Err(IndexError::ResourceLimit) => {
                return Err(CacheError::ResourceLimit);
            },
            Err(_) => {
                return Err(CacheError::InvalidArgument);
            },
        }
        match number {
            None => Err(CacheError::ResourceLimit),
            Some(number) => {
                if self.closed {
                    Err(CacheError::TaskExpired)
                } else {
                    Ok(number)
                }
            },
        }
    }

    /// Asks the cache for a listing under a task number of its own.
    fn prepare<J>(
        &mut self,
        pool: &mut ByteBudget,
        scheduler: &mut Scheduler<J>,
        gone: &mut Vec<Pending<J>>,
        number: u64,
        target_id: &str,
        category: Category,
        limit: usize,
        observed_at: &str,
        now: u64,
    ) -> (result: Result<ListingHandle, CacheError>)
        requires
            old(self).wf(),
            old(self).backed(old(pool)),
            old(scheduler).wf(),
            1 <= limit <= 1000,
        ensures
            final(self).wf(),
            final(self).backed(final(pool)),
            final(self).hold() == old(self).hold(),
            final(pool)@ == old(pool)@.resized(old(self).hold(), final(self)@.cache.used()),
            final(scheduler).wf(),
            final(scheduler).budget() == old(scheduler).budget(),
            final(scheduler)@.next == old(scheduler)@.next,
            exists|capacity: nat|
                {
                    let asked = #[trigger] old(self).desk(old(scheduler), old(gone)).prepared(
                        old(pool)@.limit,
                        old(self).others(old(pool)@),
                        number,
                        Wish { target: target_id@, category, limit, at: observed_at@, now },
                        capacity,
                    );
                    &&& final(self).desk(final(scheduler), final(gone)) == asked.0
                    &&& old(self)@.revision_takes(capacity)
                    &&& match asked.1 {
                        Ok(handle) => result is Ok && result->Ok_0@ == handle,
                        Err(error) => result == Err::<ListingHandle, CacheError>(error),
                    }
                },
    {
        let ghost start = self.desk(scheduler, gone);
        let ghost others = self.others(pool@);
        let ghost wish = Wish { target: target_id@, category, limit, at: observed_at@, now };
        let id = task_name(number);
        let work = self.new_work(&id, target_id, category, observed_at);
        let ghost shown = work@;
        let ghost before = self.cache@;
        let result = self.cache.start(pool, work, category, now);
        let ghost capacity = choose|capacity: nat|
            {
                &&& start.service.revision_takes(capacity)
                &&& self.cache@ == (#[trigger] before.started(
                    old(pool)@.limit,
                    others,
                    shown,
                    category,
                    now,
                    capacity,
                )).0
                &&& match before.started(
                    old(pool)@.limit,
                    others,
                    shown,
                    category,
                    now,
                    capacity,
                ).1 {
                    Ok(handle) => result is Ok && result->Ok_0@ == handle,
                    Err(error) => result == Err::<ListingHandle, CacheError>(error),
                }
            };
        if let Ok(handle) = &result {
            if same_text(handle.task_id.as_str(), id.as_str()) {
                proof {
                    lemma_started_contains(
                        before,
                        old(pool)@.limit,
                        others,
                        shown,
                        category,
                        now,
                        capacity,
                    );
                }
                let _set = self.cache.set_initial_demand(id.as_str(), limit);
            }
        }
        self.sweep(scheduler, gone);
        proof {
            lemma_without_all_next(start.scheduler, ServiceView {
                cache: self.cache@,
                ..start.service
            }.dropped());
            assert(self.desk(scheduler, gone) == start.prepared(
                old(pool)@.limit,
                others,
                number,
                wish,
                capacity,
            ).0);
        }
        result
    }

    /// Submits the task of a new listing.
    fn commit<J>(
        &mut self,
        scheduler: &mut Scheduler<J>,
        gone: &mut Vec<Pending<J>>,
        id: &str,
        job: J,
    ) -> (result: Result<(), CacheError>)
        requires
            old(self).wf(),
            old(scheduler).wf(),
            old(scheduler)@.next < u64::MAX,
        ensures
            final(self).wf(),
            final(self).hold() == old(self).hold(),
            forall|pool: &ByteBudget| old(self).backed(pool) ==> final(self).backed(pool),
            final(self)@.cache.used() == old(self)@.cache.used(),
            final(scheduler).wf(),
            final(scheduler).budget() == old(scheduler).budget(),
            exists|seat: Seat<J>|
                {
                    &&& seat.job == job
                    &&& result is Ok ==> seat.token.is_new()
                    &&& final(self).desk(final(scheduler), final(gone)) == #[trigger] old(self).desk(
                        old(scheduler),
                        old(gone),
                    ).committed(id@, seat)
                },
            match old(self).desk(old(scheduler), old(gone)).commit_refusal(id@) {
                Some(error) => result == Err::<(), CacheError>(error),
                None => result is Ok,
            },
    {
        let ghost start = self.desk(scheduler, gone);
        let ghost given = job;
        match scheduler.submit(id.to_owned(), self.scope.copy(), Lane::Foreground, job) {
            Ok(ticket) => {
                let ghost seat = Seat { token: ticket@.token, job: given };
                if self.closed || !self.cache.contains(id) {
                    let (_live, task) = scheduler.cancel_task(&ticket);
                    if let Some(task) = task {
                        let ghost held = scheduler::waiting(gone@);
                        let ghost shown = task@;
                        gone.push(task);
                        assert(scheduler::waiting(gone@) =~= held.push(shown));
                    }
                    assert(self.desk(scheduler, gone) =~= start.committed(id@, seat));
                    return Err(CacheError::TaskExpired);
                }
                let ghost before = self.tickets@;
                self.tickets.insert(id.to_owned(), ticket);
                assert(text_map::shown(before.insert(id@, ticket)) =~= text_map::shown(
                    before,
                ).insert(id@, ticket@));
                assert(self.desk(scheduler, gone) =~= start.committed(id@, seat));
                Ok(())
            },
            Err(error) => {
                let _done = self.cache.finish(
                    id,
                    Phase::Failed,
                    Some(issue("RESOURCE_LIMIT")),
                );
                let ghost seat = Seat { token: arbitrary(), job: given };
                assert(self.desk(scheduler, gone) =~= start.committed(id@, seat));
                Err(
                    if error == SubmitError::ResourceLimit {
                        CacheError::ResourceLimit
                    } else {
                        CacheError::TaskExpired
                    },
                )
            },
        }
    }

    /// Cancels a listing. Nothing more enters it, even between a reply of its source and the end of
    /// its task.
    pub fn cancel<J>(
        &mut self,
        scheduler: &mut Scheduler<J>,
        gone: &mut Vec<Pending<J>>,
        id: &str,
    ) -> (result: Result<(), CacheError>)
        requires
            old(self).wf(),
            old(scheduler).wf(),
        ensures
            final(self).wf(),
            final(self).hold() == old(self).hold(),
            forall|pool: &ByteBudget| old(self).backed(pool) ==> final(self).backed(pool),
            final(self)@.cache.used() == old(self)@.cache.used(),
            final(scheduler).wf(),
            final(scheduler).budget() == old(scheduler).budget(),
            result == (if old(self)@.tickets.contains_key(id@) {
                Ok(())
            } else {
                Err::<(), CacheError>(CacheError::TaskExpired)
            }),
            exists|told: bool|
                {
                    &&& old(self).desk(old(scheduler), old(gone)).stops(id@) ==> old(self).desk(
                        old(scheduler),
                        old(gone),
                    ).asked(id@).told_by(id@, told)
                    &&& final(self).desk(final(scheduler), final(gone)) == #[trigger] old(
                        self,
                    ).desk(old(scheduler), old(gone)).cancelled(id@, told)
                },
            old(self).desk(old(scheduler), old(gone)).tells(id@)
                ==> old(self)@.tickets[id@].token.asked(),
    {
        let ghost start = self.desk(scheduler, gone);
        let ticket = match self.tickets.get(id) {
            Some(ticket) => ticket.clone(),
            None => {
                assert(start.cancelled(id@, false) == start);
                return Err(CacheError::TaskExpired);
            },
        };
        if let Some(work) = self.cache.peek_work(id) {
            if work.phase.terminal() {
                assert(start.cancelled(id@, false) == start);
                return Ok(());
            }
        }
        let ghost flagged = self.cancelled@;
        self.cancelled.insert(id.to_owned(), ());
        assert(self.cancelled@.dom() =~= flagged.dom().insert(id@));
        let (_told, task) = scheduler.cancel_task(&ticket);
        if let Some(task) = task {
            let ghost held = scheduler::waiting(gone@);
            let ghost shown = task@;
            gone.push(task);
            assert(scheduler::waiting(gone@) =~= held.push(shown));
        }
        assert(self.desk(scheduler, gone) =~= start.asked(id@));
        let ghost now = self.desk(scheduler, gone);
        self.synchronize(scheduler, id);
        proof {
            let told = choose|told: bool|
                now.told_by(id@, told) && self@ == #[trigger] now.service.synchronized(
                    now.scheduler,
                    id@,
                    told,
                );
            assert(self.desk(scheduler, gone) == start.cancelled(id@, told));
        }
        Ok(())
    }

    /// Ends the service: no listing is left, and every task of the scope is cancelled.
    pub fn close<J>(
        &mut self,
        pool: &mut ByteBudget,
        scheduler: &mut Scheduler<J>,
        gone: &mut Vec<Pending<J>>,
    )
        requires
            old(self).wf(),
            old(self).backed(old(pool)),
            old(scheduler).wf(),
        ensures
            final(self).wf(),
            final(self).backed(final(pool)),
            final(self).hold() == old(self).hold(),
            final(pool)@ == old(pool)@.resized(old(self).hold(), 0),
            final(scheduler).wf(),
            final(scheduler).budget() == old(scheduler).budget(),
            final(self).desk(final(scheduler), final(gone)) == old(self).desk(
                old(scheduler),
                old(gone),
            ).shut(),
            scheduler::all_asked(old(scheduler)@.members(old(self)@.scope)),
            forall|lane: Lane|
                (#[trigger] old(scheduler)@.active(lane)) is Some && old(scheduler)@.active(
                    lane,
                )->0.scope == old(self)@.scope ==> old(scheduler)@.active(lane)->0.token.asked(),
    {
        let ghost start = self.desk(scheduler, gone);
        self.closed = true;
        self.cache.clear(pool);
        self.tickets.clear();
        self.cancelled.clear();
        let mut retired = scheduler.cancel_scope(&self.scope);
        let ghost shown = retired@;
        let ghost held = gone@;
        gone.append(&mut retired);
        assert(scheduler::waiting(gone@) =~= scheduler::waiting(held) + scheduler::waiting(shown));
        assert(self@.tickets =~= Map::<Seq<char>, TicketView>::empty());
        assert(self@.cancelled =~= Set::<Seq<char>>::empty());
        assert(self.desk(scheduler, gone) =~= start.shut());
    }
}

/// A listing that was started is in the cache.
proof fn lemma_started_contains(
    cache: CacheView,
    pool_limit: nat,
    others: nat,
    work: WorkView,
    category: Category,
    now: u64,
    capacity: nat,
)
    ensures
        ({
            let (after, answer) = cache.started(
                pool_limit,
                others,
                work,
                category,
                now,
                capacity,
            );
            answer is Ok ==> after.snapshots.contains_key(answer->Ok_0.task_id)
        }),
{
}

/// Cancelling tasks gives out no serials.
proof fn lemma_without_all_next<J>(scheduler: SchedulerView<J>, tickets: Seq<TicketView>)
    ensures
        without_all(scheduler, tickets).next == scheduler.next,
    decreases tickets.len(),
{
    if tickets.len() > 0 {
        lemma_without_all_next(scheduler, tickets.drop_last());
    }
}

impl<J> Desk<J> {
    /// The desk and the answer after a listing was asked for. Only a listing that is new has a
    /// task submitted for it.
    pub open spec fn started(
        asked: (Desk<J>, Result<HandleView, CacheError>),
        number: u64,
        seat: Seat<J>,
    ) -> (Desk<J>, Result<HandleView, CacheError>) {
        match asked.1 {
            Err(error) => (asked.0, Err(error)),
            Ok(handle) => if handle.task_id != task_text(number) {
                (asked.0, Ok(handle))
            } else {
                (
                    asked.0.committed(handle.task_id, seat),
                    match asked.0.commit_refusal(handle.task_id) {
                        Some(error) => Err(error),
                        None => Ok(handle),
                    },
                )
            },
        }
    }

    /// Whether a desk and an answer are those of a listing that was started.
    pub open spec fn is_start(
        self,
        pool_limit: nat,
        others: nat,
        number: u64,
        wish: Wish,
        capacity: nat,
        seat: Seat<J>,
        end: Desk<J>,
        result: Result<ListingHandle, CacheError>,
    ) -> bool {
        let outcome = Self::started(
            self.prepared(pool_limit, others, number, wish, capacity),
            number,
            seat,
        );
        &&& end == outcome.0
        &&& match outcome.1 {
            Ok(handle) => result is Ok && result->Ok_0@ == handle,
            Err(error) => result == Err::<ListingHandle, CacheError>(error),
        }
    }
}

/// Whether `make` can have made this job for a task.
pub open spec fn made_for<J, F: FnOnce(String) -> J>(make: F, id: Seq<char>, job: J) -> bool {
    exists|name: String| name@ == id && #[trigger] make.ensures((name,), job)
}

/// Whether a task that was submitted has a token of its own, and a job that was made for its name.
pub open spec fn seated<J, F: FnOnce(String) -> J>(make: F, name: Seq<char>, seat: Seat<J>) -> bool {
    seat.token.is_new() && made_for(make, name, seat.job)
}

impl ListingService {
    /// Asks for a listing of a directory under a task number that nobody else has. A listing that
    /// is already there is handed out again; a new one has its task submitted, which `make` makes
    /// for its id.
    pub fn start<J, F: FnOnce(String) -> J>(
        &mut self,
        index: &mut DirectoryIndex,
        pools: &mut IndexPools,
        pool: &mut ByteBudget,
        scheduler: &mut Scheduler<J>,
        gone: &mut Vec<Pending<J>>,
        number: Option<u64>,
        target_id: &str,
        category: Category,
        limit: usize,
        observed_at: &str,
        now: u64,
        make: F,
    ) -> (result: Result<ListingHandle, CacheError>)
        requires
            old(self).wf(),
            old(self).backed(old(pool)),
            old(index).wf(),
            old(index).backed(old(pools)),
            old(scheduler).wf(),
            old(scheduler)@.next < u64::MAX,
            forall|name: String| make.requires((name,)),
        ensures
            final(self).wf(),
            final(self).backed(final(pool)),
            final(self).hold() == old(self).hold(),
            final(index).wf(),
            final(index).backed(final(pools)),
            final(index).same_holds(old(index)),
            final(index)@ == old(self)@.bound(
                old(index)@,
                old(pools).foreground@,
                target_id@,
                limit,
                observed_at@,
            ),
            final(scheduler).wf(),
            final(scheduler).budget() == old(scheduler).budget(),
            match old(self)@.refusal(
                old(index)@,
                old(pools).foreground@,
                target_id@,
                limit,
                observed_at@,
                number,
            ) {
                Some(error) => {
                    &&& result == Err::<ListingHandle, CacheError>(error)
                    &&& final(self).desk(final(scheduler), final(gone)) == old(self).desk(
                        old(scheduler),
                        old(gone),
                    )
                    &&& final(pool)@ == old(pool)@
                },
                None => {
                    &&& final(pool)@ == old(pool)@.resized(
                        old(self).hold(),
                        final(self)@.cache.used(),
                    )
                    &&& exists|capacity: nat, seat: Seat<J>|
                        {
                            &&& #[trigger] old(self).desk(old(scheduler), old(gone)).is_start(
                                old(pool)@.limit,
                                old(self).others(old(pool)@),
                                number->0,
                                Wish { target: target_id@, category, limit, at: observed_at@, now },
                                capacity,
                                seat,
                                final(self).desk(final(scheduler), final(gone)),
                                result,
                            )
                            &&& old(self)@.revision_takes(capacity)
                            &&& result is Ok && result->Ok_0@.task_id == task_text(number->0)
                                ==> seated(make, task_text(number->0), seat)
                        }
                },
            },
    {
        let ghost start = self.desk(scheduler, gone);
        let ghost others = self.others(pool@);
        let ghost wish = Wish { target: target_id@, category, limit, at: observed_at@, now };
        let number = match self.accept(index, pools, target_id, limit, observed_at, number) {
            Ok(number) => number,
            Err(error) => {
                return Err(error);
            },
        };
        let prepared = self.prepare(
            pool,
            scheduler,
            gone,
            number,
            target_id,
            category,
            limit,
            observed_at,
            now,
        );
        let ghost middle = self.desk(scheduler, gone);
        let ghost capacity = choose|capacity: nat|
            {
                &&& start.service.revision_takes(capacity)
                &&& middle == (#[trigger] start.prepared(
                    old(pool)@.limit,
                    others,
                    number,
                    wish,
                    capacity,
                )).0
                &&& match start.prepared(old(pool)@.limit, others, number, wish, capacity).1 {
                    Ok(handle) => prepared is Ok && prepared->Ok_0@ == handle,
                    Err(error) => prepared == Err::<ListingHandle, CacheError>(error),
                }
            };
        let ghost asked = start.prepared(old(pool)@.limit, others, number, wish, capacity);
        let handle = match prepared {
            Ok(handle) => handle,
            Err(error) => {
                let result: Result<ListingHandle, CacheError> = Err(error);
                assert(start.is_start(
                    old(pool)@.limit,
                    others,
                    number,
                    wish,
                    capacity,
                    arbitrary::<Seat<J>>(),
                    self.desk(scheduler, gone),
                    result,
                ));
                return result;
            },
        };
        if !same_text(handle.task_id.as_str(), task_name(number).as_str()) {
            let result: Result<ListingHandle, CacheError> = Ok(handle);
            assert(start.is_start(
                old(pool)@.limit,
                others,
                number,
                wish,
                capacity,
                arbitrary::<Seat<J>>(),
                self.desk(scheduler, gone),
                result,
            ));
            return result;
        }
        let name = handle.task_id.clone();
        let ghost given = name;
        let job = make(name);
        let ghost made = job;
        assert(made_for(make, handle@.task_id, made)) by {
            assert(make.ensures((given,), made));
        }
        let ghost held = self.desk(scheduler, gone);
        let committed = self.commit(scheduler, gone, handle.task_id.as_str(), job);
        let ghost seat = choose|seat: Seat<J>|
            {
                &&& seat.job == made
                &&& committed is Ok ==> seat.token.is_new()
                &&& self.desk(scheduler, gone) == #[trigger] held.committed(handle@.task_id, seat)
            };
        let result: Result<ListingHandle, CacheError> = match committed {
            Ok(_) => Ok(handle),
            Err(error) => Err(error),
        };
        assert(start.is_start(
            old(pool)@.limit,
            others,
            number,
            wish,
            capacity,
            seat,
            self.desk(scheduler, gone),
            result,
        ));
        result
    }
}

/// What a source found.
pub struct ListedEntry {
    pub raw_name: Vec<u8>,
    /// The ids are overwritten by the service. The source never chooses ids.
    pub entry: Entry,
    /// A failure of one entry's metadata keeps the entry and allows later siblings.
    pub issue: Option<FsIssue>,
}

/// What a found entry shows.
#[verifier::ext_equal]
pub struct RowView {
    pub raw_name: Seq<u8>,
    pub entry: EntryView,
    pub issue: Option<IssueView>,
}

impl View for ListedEntry {
    type V = RowView;

    open spec fn view(&self) -> RowView {
        RowView {
            raw_name: self.raw_name@,
            entry: self.entry@,
            issue: cache::optional_issue(self.issue),
        }
    }
}

/// What a source gave: an entry, the end of the directory, or a failure.
pub enum Find {
    Row(RowView),
    End,
    Failed(IssueView),
}

/// What a source gave, by what it shows.
pub open spec fn find_of(found: Result<Option<ListedEntry>, FsIssue>) -> Find {
    match found {
        Ok(Some(row)) => Find::Row(row@),
        Ok(None) => Find::End,
        Err(issue) => Find::Failed(issue@),
    }
}

/// What became of something that a source gave: the listing is over already, it ended now, the
/// entry is of the other category, or it was kept.
#[derive(Debug, Clone, Copy, PartialEq, Eq, Structural)]
pub enum Taken {
    Over,
    Ended(Phase),
    Skipped,
    Kept,
}

/// A name that an entry can have.
pub open spec fn name_allowed(name: Seq<u8>) -> bool {
    name.len() > 0 && index::component_allowed(name, index::MAX_COMPONENT_BYTES as nat)
}

/// The id of an entry that is not a directory.
pub open spec fn entry_text(task: Seq<char>, observed: u64) -> Seq<char> {
    task + "-entry-"@ + text::decimal(observed as nat)
}

fn entry_name(task: &str, observed: u64) -> (id: String)
    ensures
        id@ == entry_text(task@, observed),
{
    let mut id = task.to_owned();
    id.append("-entry-");
    id.append(numeral(observed as u128).as_str());
    id
}

/// The index, the pool that listed directories are charged to, and which reservation is the
/// index's.
#[verifier::ext_equal]
pub struct Shelf {
    pub index: IndexView,
    pub foreground: PoolView,
    pub hold: int,
}

impl Shelf {
    /// The shelf after a directory was registered at a cost.
    pub open spec fn registered(self, key: KeyView, cost: nat) -> Shelf {
        Shelf {
            index: self.index.registered(self.foreground, key, Origin::Foreground, cost),
            foreground: if self.index.registers(self.foreground, key, Origin::Foreground, cost) {
                self.foreground.resized(self.hold, self.index.foreground + cost)
            } else {
                self.foreground
            },
            ..self
        }
    }

    /// The shelf after an entry of a directory was exposed.
    pub open spec fn exposed(self, id: Seq<char>, entry: EntryView) -> Shelf {
        let index = self.index.exposed(self.foreground, id, entry);
        Shelf {
            index,
            foreground: if self.index.expose_answer(self.foreground, id, entry) is Ok
                && self.index.records[id].entry != Some(entry) {
                self.foreground.resized(self.hold, index.foreground)
            } else {
                self.foreground
            },
            ..self
        }
    }

    /// The shelf after a listed directory was registered and exposed, and its id.
    pub open spec fn placed(self, key: KeyView, entry: EntryView, cost: nat) -> (
        Shelf,
        Result<Seq<char>, IndexError>,
    ) {
        let known = self.registered(key, cost);
        match self.index.register_answer(self.foreground, key, Origin::Foreground, cost) {
            Err(error) => (known, Err(error)),
            Ok(id) => {
                let named = EntryView { entry_id: id, ..entry };
                match known.index.expose_answer(known.foreground, id, named) {
                    Err(error) => (known.exposed(id, named), Err(error)),
                    Ok(_) => (known.exposed(id, named), Ok(id)),
                }
            },
        }
    }
}

/// The shelf that an index and its pools are.
pub open spec fn shelf(index: &DirectoryIndex, pools: &IndexPools) -> Shelf {
    Shelf { index: index@, foreground: pools.foreground@, hold: index.foreground_id() }
}

/// Whether a shelf and an answer are those of a listed directory that was placed at some cost.
pub open spec fn is_placed(
    start: Shelf,
    key: KeyView,
    entry: EntryView,
    cost: nat,
    end: Shelf,
    result: Result<String, IndexError>,
) -> bool {
    &&& end == start.placed(key, entry, cost).0
    &&& match start.placed(key, entry, cost).1 {
        Ok(id) => result is Ok && result->Ok_0@ == id,
        Err(error) => result == Err::<String, IndexError>(error),
    }
}

/// Registers and exposes a listed directory.
fn place(
    index: &mut DirectoryIndex,
    pools: &mut IndexPools,
    target: &str,
    raw_name: Vec<u8>,
    entry: &Entry,
) -> (result: Result<String, IndexError>)
    requires
        old(index).wf(),
        old(index).backed(old(pools)),
    ensures
        final(index).wf(),
        final(index).backed(final(pools)),
        final(index).same_holds(old(index)),
        final(pools).background@ == old(pools).background@,
        exists|cost: nat|
            {
                &&& #[trigger] is_placed(
                    shelf(old(index), old(pools)),
                    KeyView { parent_id: Some(target@), raw_name: raw_name@ },
                    entry@,
                    cost,
                    shelf(final(index), final(pools)),
                    result,
                )
                &&& old(index)@.may_cost(
                    KeyView { parent_id: Some(target@), raw_name: raw_name@ },
                    cost,
                )
            },
{
    let ghost start = shelf(index, pools);
    let ghost before = *index;
    let ghost pools_before = *pools;
    let key = DirectoryKey { parent_id: Some(target.to_owned()), raw_name };
    let ghost shown_key = key@;
    assert(shown_key =~= (KeyView { parent_id: Some(target@), raw_name: raw_name@ }));
    let registered = index.register(pools, key, Origin::Foreground);
    let ghost answer = registered;
    let ghost cost = choose|cost: nat|
        {
            &&& #[trigger] DirectoryIndex::registration(
                &before,
                &pools_before,
                index,
                pools,
                shown_key,
                Origin::Foreground,
                cost,
                answer,
            )
            &&& before@.may_cost(shown_key, cost)
        };
    let ghost known = shelf(index, pools);
    assert(known =~= start.registered(shown_key, cost));
    let id = match registered {
        Ok(id) => id,
        Err(error) => {
            assert(is_placed(start, shown_key, entry@, cost, known, Err(error)));
            return Err(error);
        },
    };
    let mut named = entry.copy();
    named.entry_id = id.clone();
    let ghost shown = named@;
    assert(shown =~= (EntryView { entry_id: id@, ..entry@ }));
    let result: Result<String, IndexError> = match index.expose(pools, id.as_str(), named) {
        Ok(_) => Ok(id),
        Err(error) => Err(error),
    };
    proof {
        assert(shelf(index, pools) =~= known.exposed(shown.entry_id, shown));
        assert(is_placed(start, shown_key, entry@, cost, shelf(index, pools), result));
    }
    result
}

impl ServiceView {
    /// Whether nothing more enters a listing.
    pub open spec fn is_over(self, task: Seq<char>) -> bool {
        self.closed || self.cancelled.contains(task) || !self.cache.snapshots.contains_key(task)
    }

    /// What a task's next round is told: whether its listing needs more.
    pub open spec fn demand(self, task: Seq<char>) -> Result<bool, CacheError> {
        if self.is_over(task) {
            Err(CacheError::TaskExpired)
        } else {
            Ok(needs_more(self.cache, task))
        }
    }

    /// The phase in which a task ends: a cancelled one ends as cancelled.
    pub open spec fn end_phase(self, task: Seq<char>, phase: Phase) -> Phase {
        if self.cancelled.contains(task) {
            Phase::Cancelled
        } else {
            phase
        }
    }

    /// The service after a task ended.
    pub open spec fn finished(
        self,
        task: Seq<char>,
        phase: Phase,
        issue: Option<IssueView>,
    ) -> ServiceView {
        let error = if self.cancelled.contains(task) {
            None
        } else {
            issue
        };
        ServiceView {
            cache: self.cache.finished(task, self.end_phase(task, phase), error),
            ..self
        }
    }

    /// The service after an entry was observed.
    pub open spec fn observed(self, tally: TallyView, issue: Option<IssueView>) -> ServiceView {
        let work = self.cache.snapshots[tally.task].work;
        let counted = self.cache.reworked(
            tally.task,
            WorkView {
                processed_entries: tally.observed as nat,
                processed_directories: tally.directories as nat,
                sequence: controller::next_serial(work.sequence),
                ..work
            },
        );
        let seen = counted.snapshots[tally.task].work;
        ServiceView {
            cache: match issue {
                Some(issue) => counted.reworked(
                    tally.task,
                    WorkView {
                        issues: seen.issues.with(issue),
                        sequence: controller::next_serial(seen.sequence),
                        ..seen
                    },
                ),
                None => counted,
            },
            ..self
        }
    }
}

/// Which task observed, for which directory and category, and how much so far.
#[verifier::ext_equal]
pub struct TallyView {
    pub task: Seq<char>,
    pub target: Seq<char>,
    pub category: Category,
    pub observed: u64,
    pub directories: u64,
}

/// Which task observes, for which directory and category, and how much so far.
pub struct Tally {
    pub task: String,
    pub target: String,
    pub category: Category,
    pub observed: u64,
    pub directories: u64,
}

impl View for Tally {
    type V = TallyView;

    open spec fn view(&self) -> TallyView {
        TallyView {
            task: self.task@,
            target: self.target@,
            category: self.category,
            observed: self.observed,
            directories: self.directories,
        }
    }
}

impl TallyView {
    /// The tally after an entry.
    pub open spec fn after(self, kind: Kind) -> TallyView {
        TallyView {
            observed: controller::next_serial(self.observed),
            directories: if kind is Directory {
                controller::next_serial(self.directories)
            } else {
                self.directories
            },
            ..self
        }
    }
}

impl ListingService {
    /// Whether the listing of a task needs more.
    pub fn demand(&self, task: &str) -> (result: Result<bool, CacheError>)
        requires
            self.wf(),
        ensures
            result == self@.demand(task@),
    {
        if self.closed || self.cancelled.contains(task) {
            Err(CacheError::TaskExpired)
        } else {
            self.cache.needs_collection(task)
        }
    }

    /// Ends the listing of a task, and says in which phase.
    pub fn finish(&mut self, task: &str, phase: Phase, error: Option<FsIssue>) -> (actual: Phase)
        requires
            old(self).wf(),
        ensures
            final(self).wf(),
            final(self).hold() == old(self).hold(),
            forall|pool: &ByteBudget| old(self).backed(pool) ==> final(self).backed(pool),
            final(self)@.cache.used() == old(self)@.cache.used(),
            final(self)@ == old(self)@.finished(task@, phase, cache::optional_issue(error)),
            actual == old(self)@.end_phase(task@, phase),
    {
        if self.cancelled.contains(task) {
            let _done = self.cache.finish(task, Phase::Cancelled, None);
            Phase::Cancelled
        } else {
            let _done = self.cache.finish(task, phase, error);
            phase
        }
    }

    /// The work of a task's listing, to be published.
    pub fn peek(&self, task: &str) -> (work: Option<WorkRecord>)
        requires
            self.wf(),
        ensures
            work is Some <==> self@.cache.snapshots.contains_key(task@),
            work is Some ==> work->0@ == self@.cache.snapshots[task@].work,
    {
        self.cache.peek_work(task)
    }

    /// Counts an entry that was observed, and records what was wrong with it.
    fn observe(&mut self, tally: &Tally, issue: Option<FsIssue>)
        requires
            old(self).wf(),
        ensures
            final(self).wf(),
            final(self).hold() == old(self).hold(),
            forall|pool: &ByteBudget| old(self).backed(pool) ==> final(self).backed(pool),
            final(self)@.cache.used() == old(self)@.cache.used(),
            final(self)@ == old(self)@.observed(tally@, cache::optional_issue(issue)),
    {
        self.cache.observations(tally.task.as_str(), tally.observed, tally.directories);
        if let Some(issue) = issue {
            let _noted = self.cache.record_issue(tally.task.as_str(), issue);
        }
    }
}

impl<J> Desk<J> {
    /// The desk after a task ended its listing.
    pub open spec fn finished(
        self,
        task: Seq<char>,
        phase: Phase,
        issue: Option<IssueView>,
    ) -> Desk<J> {
        Desk { service: self.service.finished(task, phase, issue), ..self }
    }

    /// The desk after an entry was appended to a listing, and whether it was kept.
    pub open spec fn appended(
        self,
        pool_limit: nat,
        others: nat,
        task: Seq<char>,
        entry: EntryView,
    ) -> (Desk<J>, Taken) {
        let (cache, answer) = self.service.cache.appended(pool_limit, others, task, entry);
        (
            self.with_cache(cache).swept(),
            if answer == Ok::<bool, CacheError>(true) {
                Taken::Kept
            } else {
                Taken::Over
            },
        )
    }

    /// The desk and the shelf after something that a source gave was taken, and what became of
    /// it.
    pub open spec fn taken(
        self,
        shelf: Shelf,
        pool_limit: nat,
        others: nat,
        tally: TallyView,
        find: Find,
        cost: nat,
    ) -> (Desk<J>, Shelf, Taken) {
        let task = tally.task;
        if self.service.is_over(task) {
            (self, shelf, Taken::Over)
        } else {
            match find {
                Find::End => (
                    self.finished(task, Phase::Completed, None),
                    shelf,
                    Taken::Ended(self.service.end_phase(task, Phase::Completed)),
                ),
                Find::Failed(issue) => (
                    self.finished(task, Phase::Failed, Some(issue)),
                    shelf,
                    Taken::Ended(self.service.end_phase(task, Phase::Failed)),
                ),
                Find::Row(row) => {
                    let seen = Desk { service: self.service.observed(tally, row.issue), ..self };
                    if (row.entry.kind is Directory) != (tally.category is Directories) {
                        (seen, shelf, Taken::Skipped)
                    } else if !name_allowed(row.raw_name) {
                        (
                            seen.finished(
                                task,
                                Phase::Failed,
                                Some(listing_issue("INVALID_ARGUMENT"@)),
                            ),
                            shelf,
                            Taken::Ended(seen.service.end_phase(task, Phase::Failed)),
                        )
                    } else {
                        seen.kept(shelf, pool_limit, others, tally, row, cost)
                    }
                },
            }
        }
    }

    /// Whether placing what was found can cost this much: only a directory with an allowed name
    /// that enters a listing of directories is placed.
    pub open spec fn charges(
        self,
        index: IndexView,
        tally: TallyView,
        find: Find,
        cost: nat,
    ) -> bool {
        !self.service.is_over(tally.task) && find is Row && find->Row_0.entry.kind is Directory
            && tally.category is Directories && name_allowed(find->Row_0.raw_name)
            ==> index.may_cost(
            KeyView { parent_id: Some(tally.target), raw_name: find->Row_0.raw_name },
            cost,
        )
    }

    /// The desk and the shelf after an entry of the listing's category was kept. A directory gets
    /// its id from the index, any other entry from its task.
    pub open spec fn kept(
        self,
        shelf: Shelf,
        pool_limit: nat,
        others: nat,
        tally: TallyView,
        row: RowView,
        cost: nat,
    ) -> (Desk<J>, Shelf, Taken) {
        let task = tally.task;
        let owned = EntryView { parent_id: Some(tally.target), ..row.entry };
        if row.entry.kind is Directory {
            let key = KeyView { parent_id: Some(tally.target), raw_name: row.raw_name };
            let (placed, answer) = shelf.placed(key, owned, cost);
            match answer {
                Err(error) => (
                    self.finished(
                        task,
                        Phase::Completed,
                        Some(
                            listing_issue(
                                if error is ResourceLimit {
                                    "RESOURCE_LIMIT"@
                                } else {
                                    "ENTRY_CHANGED"@
                                },
                            ),
                        ),
                    ),
                    placed,
                    Taken::Ended(self.service.end_phase(task, Phase::Completed)),
                ),
                Ok(id) => {
                    let (desk, taken) = self.appended(
                        pool_limit,
                        others,
                        task,
                        EntryView { entry_id: id, ..owned },
                    );
                    (desk, placed, taken)
                },
            }
        } else {
            let (desk, taken) = self.appended(
                pool_limit,
                others,
                task,
                EntryView { entry_id: entry_text(task, tally.observed), ..owned },
            );
            (desk, shelf, taken)
        }
    }

    /// Whether a desk, a shelf and an answer are those of something that was taken.
    pub open spec fn is_taken(
        self,
        from: Shelf,
        pool_limit: nat,
        others: nat,
        tally: TallyView,
        find: Find,
        cost: nat,
        end: Desk<J>,
        to: Shelf,
        result: Taken,
    ) -> bool {
        self.taken(from, pool_limit, others, tally, find, cost) == (end, to, result)
    }
}

impl ListingService {
    /// Appends an entry to a listing, and cancels tasks whose listings had to go for it.
    fn append<J>(
        &mut self,
        pool: &mut ByteBudget,
        scheduler: &mut Scheduler<J>,
        gone: &mut Vec<Pending<J>>,
        task: &str,
        entry: Entry,
    ) -> (taken: Taken)
        requires
            old(self).wf(),
            old(self).backed(old(pool)),
            old(scheduler).wf(),
        ensures
            final(self).wf(),
            final(self).backed(final(pool)),
            final(self).hold() == old(self).hold(),
            final(pool)@ == old(pool)@.resized(old(self).hold(), final(self)@.cache.used()),
            final(scheduler).wf(),
            final(scheduler).budget() == old(scheduler).budget(),
            (final(self).desk(final(scheduler), final(gone)), taken) == old(self).desk(
                old(scheduler),
                old(gone),
            ).appended(old(pool)@.limit, old(self).others(old(pool)@), task@, entry@),
    {
        let appended = self.cache.append(pool, task, entry);
        self.sweep(scheduler, gone);
        match appended {
            Ok(true) => Taken::Kept,
            _ => Taken::Over,
        }
    }

    /// Takes what the source of a listing gave.
    #[verifier::spinoff_prover]
    pub fn take<J>(
        &mut self,
        index: &mut DirectoryIndex,
        pools: &mut IndexPools,
        pool: &mut ByteBudget,
        scheduler: &mut Scheduler<J>,
        gone: &mut Vec<Pending<J>>,
        tally: &Tally,
        found: Result<Option<ListedEntry>, FsIssue>,
    ) -> (taken: Taken)
        requires
            old(self).wf(),
            old(self).backed(old(pool)),
            old(index).wf(),
            old(index).backed(old(pools)),
            old(scheduler).wf(),
        ensures
            final(self).wf(),
            final(self).backed(final(pool)),
            final(self).hold() == old(self).hold(),
            final(pool)@ == old(pool)@.resized(old(self).hold(), final(self)@.cache.used()),
            final(index).wf(),
            final(index).backed(final(pools)),
            final(index).same_holds(old(index)),
            final(pools).background@ == old(pools).background@,
            final(scheduler).wf(),
            final(scheduler).budget() == old(scheduler).budget(),
            exists|cost: nat|
                {
                    &&& #[trigger] old(self).desk(old(scheduler), old(gone)).is_taken(
                        shelf(old(index), old(pools)),
                        old(pool)@.limit,
                        old(self).others(old(pool)@),
                        tally@,
                        find_of(found),
                        cost,
                        final(self).desk(final(scheduler), final(gone)),
                        shelf(final(index), final(pools)),
                        taken,
                    )
                    &&& old(self).desk(old(scheduler), old(gone)).charges(
                        old(index)@,
                        tally@,
                        find_of(found),
                        cost,
                    )
                },
    {
        let ghost start = self.desk(scheduler, gone);
        let ghost from = shelf(index, pools);
        let ghost others = self.others(pool@);
        let ghost limit = pool@.limit;
        let ghost find = find_of(found);
        proof {
            self.cache.lemma_wf(pool);
        }
        let task = tally.task.as_str();
        if self.closed || self.cancelled.contains(task) || !self.cache.contains(task) {
            assert(start.is_taken(from, limit, others, tally@, find, 0, start, from, Taken::Over));
            return Taken::Over;
        }
        let row = match found {
            Ok(Some(row)) => row,
            Ok(None) => {
                let phase = self.finish(task, Phase::Completed, None);
                let ghost end = self.desk(scheduler, gone);
                assert(start.is_taken(
                    from,
                    limit,
                    others,
                    tally@,
                    find,
                    0,
                    end,
                    from,
                    Taken::Ended(phase),
                ));
                return Taken::Ended(phase);
            },
            Err(error) => {
                let phase = self.finish(task, Phase::Failed, Some(error));
                let ghost end = self.desk(scheduler, gone);
                assert(start.is_taken(
                    from,
                    limit,
                    others,
                    tally@,
                    find,
                    0,
                    end,
                    from,
                    Taken::Ended(phase),
                ));
                return Taken::Ended(phase);
            },
        };
        let ghost shown = row@;
        let ListedEntry { raw_name, mut entry, issue: wrong } = row;
        self.observe(tally, wrong);
        let ghost seen = self.desk(scheduler, gone);
        assert(seen =~= (Desk {
            service: start.service.observed(tally@, shown.issue),
            ..start
        }));
        let directory = entry.kind == Kind::Directory;
        if directory != (tally.category == Category::Directories) {
            assert(start.is_taken(
                from,
                limit,
                others,
                tally@,
                find,
                0,
                seen,
                from,
                Taken::Skipped,
            ));
            return Taken::Skipped;
        }
        if raw_name.len() == 0 || !is_component(raw_name.as_slice(), MAX_COMPONENT_BYTES) {
            let phase = self.finish(task, Phase::Failed, Some(issue("INVALID_ARGUMENT")));
            let ghost end = self.desk(scheduler, gone);
            assert(start.is_taken(
                from,
                limit,
                others,
                tally@,
                find,
                0,
                end,
                from,
                Taken::Ended(phase),
            ));
            return Taken::Ended(phase);
        }
        entry.parent_id = Some(tally.target.clone());
        let ghost owned = entry@;
        assert(owned =~= (EntryView { parent_id: Some(tally@.target), ..shown.entry }));
        if directory {
            let placed = place(index, pools, tally.target.as_str(), raw_name, &entry);
            let ghost answer = placed;
            let ghost to = shelf(index, pools);
            let ghost key = KeyView { parent_id: Some(tally@.target), raw_name: shown.raw_name };
            let ghost cost = choose|cost: nat|
                {
                    &&& #[trigger] is_placed(from, key, owned, cost, to, answer)
                    &&& from.index.may_cost(key, cost)
                };
            match placed {
                Ok(id) => {
                    entry.entry_id = id;
                    assert(entry@ =~= (EntryView { entry_id: answer->Ok_0@, ..owned }));
                    let taken = self.append(pool, scheduler, gone, task, entry);
                    let ghost end = self.desk(scheduler, gone);
                    assert(start.is_taken(
                        from,
                        limit,
                        others,
                        tally@,
                        find,
                        cost,
                        end,
                        to,
                        taken,
                    ));
                    taken
                },
                Err(error) => {
                    let code = if error == IndexError::ResourceLimit {
                        "RESOURCE_LIMIT"
                    } else {
                        "ENTRY_CHANGED"
                    };
                    let phase = self.finish(task, Phase::Completed, Some(issue(code)));
                    let ghost end = self.desk(scheduler, gone);
                    assert(start.is_taken(
                        from,
                        limit,
                        others,
                        tally@,
                        find,
                        cost,
                        end,
                        to,
                        Taken::Ended(phase),
                    ));
                    Taken::Ended(phase)
                },
            }
        } else {
            entry.entry_id = entry_name(task, tally.observed);
            assert(entry@ =~= (EntryView {
                entry_id: entry_text(tally@.task, tally@.observed),
                ..owned
            }));
            let taken = self.append(pool, scheduler, gone, task, entry);
            let ghost end = self.desk(scheduler, gone);
            assert(start.is_taken(from, limit, others, tally@, find, 0, end, from, taken));
            taken
        }
    }
}

/// Once a cancellation was accepted nothing more enters the listing, even when its source had
/// already given something.
pub proof fn a_cancelled_listing_takes_nothing<J>(
    desk: Desk<J>,
    told: bool,
    shelf: Shelf,
    pool_limit: nat,
    others: nat,
    tally: TallyView,
    find: Find,
    cost: nat,
)
    requires
        desk.stops(tally.task),
    ensures
        ({
            let after = desk.cancelled(tally.task, told);
            &&& after.service.is_over(tally.task)
            &&& after.taken(shelf, pool_limit, others, tally, find, cost) == (
                after,
                shelf,
                Taken::Over,
            )
        }),
{
}

/// A cancelled task ends its listing as cancelled and without an issue, whatever it came to.
pub proof fn cancelled_tasks_end_as_cancelled(
    service: ServiceView,
    task: Seq<char>,
    phase: Phase,
    issue: Option<IssueView>,
)
    requires
        service.cancelled.contains(task),
    ensures
        service.end_phase(task, phase) is Cancelled,
        service.finished(task, phase, issue) == service.finished(task, Phase::Cancelled, None),
{
}

/// A closed service has no listing, takes nothing and starts nothing.
pub proof fn a_closed_service_is_done<J>(
    desk: Desk<J>,
    shelf: Shelf,
    pool_limit: nat,
    others: nat,
    tally: TallyView,
    find: Find,
    cost: nat,
    index: IndexView,
    target: Seq<char>,
    limit: usize,
    at: Seq<char>,
    number: Option<u64>,
)
    ensures
        ({
            let after = desk.shut();
            &&& after.service.cache.snapshots.len() == 0
            &&& after.taken(shelf, pool_limit, others, tally, find, cost) == (
                after,
                shelf,
                Taken::Over,
            )
            &&& after.service.refusal(index, shelf.foreground, target, limit, at, number) is Some
        }),
{
}

/// After a sweep that had something to look at, every ticket belongs to a listing that is there,
/// and no ticket of such a listing was dropped.
pub proof fn tickets_follow_their_listings(service: ServiceView)
    requires
        service.cache.eviction_epoch != service.seen_eviction_epoch,
    ensures
        service.swept().tickets.dom() == service.tickets.dom().intersect(
            service.cache.snapshots.dom(),
        ),
        service.swept().cache == service.cache,
        forall|id: Seq<char>| #[trigger]
            service.swept().tickets.contains_key(id) ==> service.swept().tickets[id]
                == service.tickets[id],
{
    assert(service.swept().tickets.dom() =~= service.tickets.dom().intersect(
        service.cache.snapshots.dom(),
    ));
}

/// A listing that is already there is handed out again without a second task.
pub proof fn a_known_listing_gets_no_second_task<J>(
    desk: Desk<J>,
    pool_limit: nat,
    others: nat,
    number: u64,
    wish: Wish,
    capacity: nat,
    seat: Seat<J>,
)
    requires
        ({
            let asked = desk.prepared(pool_limit, others, number, wish, capacity);
            asked.1 is Ok && asked.1->Ok_0.task_id != task_text(number)
        }),
    ensures
        ({
            let asked = desk.prepared(pool_limit, others, number, wish, capacity);
            &&& Desk::started(asked, number, seat) == asked
            &&& asked.0.scheduler.next == desk.scheduler.next
        }),
{
    let asked = desk.prepared(pool_limit, others, number, wish, capacity);
    let id = task_text(number);
    let work = desk.service.work_for(id, wish.target, wish.category, wish.at);
    let cache = desk.service.cache.started(
        pool_limit,
        others,
        work,
        wish.category,
        wish.now,
        capacity,
    ).0;
    lemma_without_all_next(desk.scheduler, ServiceView { cache, ..desk.service }.dropped());
}

/// An entry whose name is not allowed fails the listing, and what was listed before stays.
pub proof fn a_bad_name_keeps_what_was_listed<J>(
    desk: Desk<J>,
    shelf: Shelf,
    pool_limit: nat,
    others: nat,
    tally: TallyView,
    row: RowView,
    cost: nat,
)
    requires
        !desk.service.is_over(tally.task),
        (row.entry.kind is Directory) == (tally.category is Directories),
        !name_allowed(row.raw_name),
    ensures
        ({
            let (after, to, taken) = desk.taken(
                shelf,
                pool_limit,
                others,
                tally,
                Find::Row(row),
                cost,
            );
            &&& taken == Taken::Ended(Phase::Failed)
            &&& to == shelf
            &&& after.service.cache.snapshots.contains_key(tally.task)
            &&& after.service.cache.snapshots[tally.task].entries
                == desk.service.cache.snapshots[tally.task].entries
        }),
{
}

} // verus!
