//! What holds of listings through any history of calls.
use vstd::prelude::*;

use crate::domain::controller;
use crate::domain::model::{Category, EntryView, IssueView, Phase, WaitReason, WorkView};
use crate::listing::cache;
use crate::listing::cache::{CacheView, Draft, ListingCache, SnapshotView};
use crate::runtime::memory;
use crate::runtime::memory::ByteBudget;
use crate::text;
use crate::text_map;

verus! {

/// A call of a cache, with what its pool allows and what the text of a revision has allocated.
pub enum CacheCall {
    Start {
        pool_limit: nat,
        others: nat,
        work: WorkView,
        category: Category,
        now: u64,
        capacity: nat,
    },
    Demand { id: Seq<char>, limit: usize },
    Append { pool_limit: nat, others: nat, id: Seq<char>, entry: EntryView },
    Observe { id: Seq<char>, entries: u64, directories: u64 },
    Record { id: Seq<char>, met: IssueView },
    Status { id: Seq<char>, phase: Phase, wait: Option<WaitReason> },
    Finish { id: Seq<char>, phase: Phase, issue: Option<IssueView> },
    Page { id: Seq<char>, cursor: Option<Seq<char>>, limit: usize, now: u64 },
    Work { id: Seq<char>, now: u64 },
    Expire { now: u64 },
    Clear,
}

impl CacheView {
    /// The cache after a call.
    pub open spec fn after(self, call: CacheCall) -> CacheView {
        match call {
            CacheCall::Start { pool_limit, others, work, category, now, capacity } => self.started(
                pool_limit,
                others,
                work,
                category,
                now,
                capacity,
            ).0,
            CacheCall::Demand { id, limit } => if 1 <= limit <= 1000
                && self.snapshots.contains_key(id) {
                self.with(
                    id,
                    SnapshotView { demand_end: (limit * 2) as nat, ..self.snapshots[id] },
                )
            } else {
                self
            },
            CacheCall::Append { pool_limit, others, id, entry } => self.appended(
                pool_limit,
                others,
                id,
                entry,
            ).0,
            CacheCall::Observe { id, entries, directories } => self.reworked(
                id,
                WorkView {
                    processed_entries: entries as nat,
                    processed_directories: directories as nat,
                    sequence: controller::next_serial(self.snapshots[id].work.sequence),
                    ..self.snapshots[id].work
                },
            ),
            CacheCall::Record { id, met } => self.reworked(
                id,
                WorkView {
                    issues: self.snapshots[id].work.issues.with(met),
                    sequence: controller::next_serial(self.snapshots[id].work.sequence),
                    ..self.snapshots[id].work
                },
            ),
            CacheCall::Status { id, phase, wait } => if self.snapshots[id].work.phase == phase
                && self.snapshots[id].work.wait_reason == wait {
                self
            } else {
                self.reworked(
                    id,
                    WorkView {
                        phase,
                        wait_reason: wait,
                        sequence: controller::next_serial(self.snapshots[id].work.sequence),
                        ..self.snapshots[id].work
                    },
                )
            },
            CacheCall::Finish { id, phase, issue } => self.finished(id, phase, issue),
            CacheCall::Page { id, cursor, limit, now } => self.paged(id, cursor, limit, now).0,
            CacheCall::Work { id, now } => self.told(id, now),
            CacheCall::Expire { now } => self.expired(now),
            CacheCall::Clear => CacheView {
                snapshots: Map::empty(),
                eviction_epoch: cache::advanced(self.eviction_epoch, 1),
                ..self
            },
        }
    }

    /// The cache after some calls, one after the other.
    pub open spec fn after_all(self, calls: Seq<CacheCall>) -> CacheView
        decreases calls.len(),
    {
        if calls.len() == 0 {
            self
        } else {
            self.after_all(calls.drop_last()).after(calls.last())
        }
    }

    /// Whether the listing with this revision is there.
    pub open spec fn has(self, id: Seq<char>, revision: Seq<char>) -> bool {
        self.snapshots.contains_key(id) && self.snapshots[id].revision == revision
    }

    /// Whether the revision is one that was handed out.
    pub open spec fn handed_out(self, revision: Seq<char>) -> bool {
        exists|n: nat| n <= self.serial && revision == #[trigger] cache::revision_text(n)
    }

    /// As long as the listing is there, it is a later state of what it was.
    spec fn tracks(self, id: Seq<char>, first: SnapshotView, demand: bool) -> bool {
        &&& self.handed_out(first.revision)
        &&& self.has(id, first.revision) ==> {
            &&& self.snapshots[id].wf()
            &&& self.snapshots[id].follows(first)
            &&& demand ==> self.snapshots[id].demand_end >= first.demand_end
        }
    }
}

impl SnapshotView {
    /// Whether this is a later state of a listing: nothing was taken away from it, its sequence has
    /// not gone back, the limit of its pages stays, and once it has ended it stays as it was. As
    /// long as there is another number for it, every change gives its work another sequence.
    pub open spec fn follows(self, earlier: SnapshotView) -> bool {
        &&& self.extends(earlier)
        &&& self.work.sequence >= earlier.work.sequence
        &&& self.work.sequence == earlier.work.sequence && earlier.work.sequence < u64::MAX
            ==> self.work == earlier.work
        &&& earlier.page_limit is Some ==> self.page_limit == earlier.page_limit
        &&& earlier.exhausted ==> {
            &&& self.exhausted
            &&& self.entries == earlier.entries
            &&& self.work == earlier.work
            &&& self.coverage == earlier.coverage
        }
    }
}

proof fn lemma_extends(last: SnapshotView, middle: SnapshotView, first: SnapshotView)
    requires
        last.extends(middle),
        middle.extends(first),
    ensures
        last.extends(first),
{
    assert(last.entries.take(first.entries.len() as int) =~= middle.entries.take(
        first.entries.len() as int,
    )) by {
        assert forall|i: int| 0 <= i < first.entries.len() implies last.entries[i]
            == middle.entries[i] by {
            assert(last.entries.take(middle.entries.len() as int)[i] == middle.entries[i]);
        }
    }
    assert(last.pages.take(first.pages.len() as int) =~= middle.pages.take(
        first.pages.len() as int,
    )) by {
        assert forall|i: int| 0 <= i < first.pages.len() implies last.pages[i]
            == middle.pages[i] by {
            assert(last.pages.take(middle.pages.len() as int)[i] == middle.pages[i]);
        }
    }
    assert forall|cursor: Seq<char>| #[trigger] first.cursors.contains_key(
        cursor,
    ) implies last.cursors.contains_key(cursor) && last.cursors[cursor]
        == first.cursors[cursor] by {
        assert(middle.cursors.contains_key(cursor));
    }
}

proof fn lemma_extends_itself(snapshot: SnapshotView)
    ensures
        snapshot.extends(snapshot),
{
    assert(snapshot.entries.take(snapshot.entries.len() as int) =~= snapshot.entries);
    assert(snapshot.pages.take(snapshot.pages.len() as int) =~= snapshot.pages);
}

proof fn lemma_revision_text(a: nat, b: nat)
    requires
        cache::revision_text(a) == cache::revision_text(b),
    ensures
        a == b,
{
    let head = Seq::<char>::empty() + "listing-"@;
    assert(cache::revision_text(a).skip(head.len() as int) =~= text::decimal(a));
    assert(cache::revision_text(b).skip(head.len() as int) =~= text::decimal(b));
    text::lemma_decimal(a);
    text::lemma_decimal(b);
}

/// A revision that was handed out is not the next one.
proof fn lemma_next_revision(cache: CacheView, revision: Seq<char>)
    requires
        cache.handed_out(revision),
    ensures
        revision != cache::revision_text((cache.serial + 1) as nat),
{
    let n = choose|n: nat| n <= cache.serial && revision == #[trigger] cache::revision_text(n);
    if revision == cache::revision_text((cache.serial + 1) as nat) {
        lemma_revision_text(n, (cache.serial + 1) as nat);
    }
}

/// Every revision in this cache was handed out.
spec fn all_handed_out(cache: CacheView) -> bool {
    forall|id: Seq<char>| #[trigger]
        cache.snapshots.contains_key(id) ==> cache.handed_out(cache.snapshots[id].revision)
}

/// Listings that were there before have revisions that were handed out.
proof fn lemma_known_handed_out(cache: CacheView, after: CacheView)
    requires
        all_handed_out(cache),
        cache.serial <= after.serial,
        forall|id: Seq<char>| #[trigger]
            after.snapshots.contains_key(id) ==> cache.has(id, after.snapshots[id].revision)
                || after.handed_out(after.snapshots[id].revision),
    ensures
        all_handed_out(after),
{
    assert forall|id: Seq<char>| #[trigger] after.snapshots.contains_key(
        id,
    ) implies after.handed_out(after.snapshots[id].revision) by {
        if cache.has(id, after.snapshots[id].revision) {
            lemma_handed_out(cache, after, after.snapshots[id].revision);
        }
    }
}

#[verifier::spinoff_prover]
#[verifier::rlimit(40)]
proof fn lemma_start_handed_out(cache: CacheView, call: CacheCall)
    requires
        all_handed_out(cache),
        call is Start,
    ensures
        all_handed_out(cache.after(call)),
{
    if let CacheCall::Start { pool_limit, others, work, now, capacity, .. } = call {
        let fresh = cache.expired(now);
        let numbered = CacheView { serial: (fresh.serial + 1) as u64, ..fresh };
        let bytes = cache::start_cost(cache::queued(work), capacity);
        lemma_evicted(numbered, pool_limit, others, bytes, None);
        let next = cache::revision_text((cache.serial + 1) as nat);
        assert(cache.serial < u64::MAX ==> numbered.handed_out(next));
        assert(cache.serial < u64::MAX ==> numbered.evicted(
            pool_limit,
            others,
            bytes,
            None,
        ).handed_out(next)) by {
            if cache.serial < u64::MAX {
                lemma_handed_out(
                    numbered,
                    numbered.evicted(pool_limit, others, bytes, None),
                    next,
                );
            }
        }
        lemma_known_handed_out(cache, cache.after(call));
    }
}

#[verifier::spinoff_prover]
#[verifier::rlimit(40)]
proof fn lemma_append_handed_out(cache: CacheView, call: CacheCall)
    requires
        all_handed_out(cache),
        call is Append,
    ensures
        all_handed_out(cache.after(call)),
{
    if let CacheCall::Append { pool_limit, others, id, entry } = call {
        lemma_evicted(cache, pool_limit, others, cache::append_cost(entry), Some(id));
        lemma_known_handed_out(cache, cache.after(call));
    }
}

#[verifier::spinoff_prover]
#[verifier::rlimit(40)]
proof fn lemma_page_handed_out(cache: CacheView, call: CacheCall)
    requires
        all_handed_out(cache),
        call is Page,
    ensures
        all_handed_out(cache.after(call)),
{
    lemma_known_handed_out(cache, cache.after(call));
}

#[verifier::spinoff_prover]
#[verifier::rlimit(40)]
proof fn lemma_all_handed_out(cache: CacheView, call: CacheCall)
    requires
        all_handed_out(cache),
    ensures
        all_handed_out(cache.after(call)),
{
    match call {
        CacheCall::Start { .. } => {
            lemma_start_handed_out(cache, call);
        },
        CacheCall::Append { .. } => {
            lemma_append_handed_out(cache, call);
        },
        CacheCall::Page { .. } => {
            lemma_page_handed_out(cache, call);
        },
        _ => {
            lemma_known_handed_out(cache, cache.after(call));
        },
    }
}

/// Every listing of a cache has a revision that was handed out, whatever was called since it was
/// made.
pub proof fn every_revision_was_handed_out(
    limit: usize,
    ttl_ms: u64,
    message_limit: usize,
    calls: Seq<CacheCall>,
    id: Seq<char>,
)
    requires
        CacheView::fresh(limit, ttl_ms, message_limit).after_all(calls).snapshots.contains_key(id),
    ensures
        ({
            let cache = CacheView::fresh(limit, ttl_ms, message_limit).after_all(calls);
            cache.handed_out(cache.snapshots[id].revision)
        }),
{
    lemma_calls_handed_out(CacheView::fresh(limit, ttl_ms, message_limit), calls);
}

proof fn lemma_calls_handed_out(cache: CacheView, calls: Seq<CacheCall>)
    requires
        all_handed_out(cache),
    ensures
        all_handed_out(cache.after_all(calls)),
    decreases calls.len(),
{
    if calls.len() > 0 {
        lemma_calls_handed_out(cache, calls.drop_last());
        lemma_all_handed_out(cache.after_all(calls.drop_last()), calls.last());
    }
}

/// A revision that was handed out stays handed out.
pub proof fn lemma_calls_keep_revisions(
    cache: CacheView,
    revision: Seq<char>,
    calls: Seq<CacheCall>,
)
    requires
        cache.handed_out(revision),
    ensures
        cache.after_all(calls).handed_out(revision),
    decreases calls.len(),
{
    if calls.len() > 0 {
        lemma_calls_keep_revisions(cache, revision, calls.drop_last());
        lemma_serial(cache.after_all(calls.drop_last()), calls.last());
        lemma_handed_out(cache.after_all(calls.drop_last()), cache.after_all(calls), revision);
    }
}

#[verifier::spinoff_prover]
#[verifier::rlimit(40)]
proof fn lemma_serial(cache: CacheView, call: CacheCall)
    ensures
        cache.serial <= cache.after(call).serial,
{
    match call {
        CacheCall::Start { pool_limit, others, work, now, capacity, .. } => {
            let fresh = cache.expired(now);
            let numbered = CacheView { serial: (fresh.serial + 1) as u64, ..fresh };
            let bytes = cache::start_cost(cache::queued(work), capacity);
            lemma_evicted(numbered, pool_limit, others, bytes, None);
        },
        CacheCall::Append { pool_limit, others, id, entry } => {
            lemma_evicted(cache, pool_limit, others, cache::append_cost(entry), Some(id));
        },
        _ => {},
    }
}

proof fn lemma_handed_out(before: CacheView, after: CacheView, revision: Seq<char>)
    requires
        before.handed_out(revision),
        before.serial <= after.serial,
    ensures
        after.handed_out(revision),
{
    let n = choose|n: nat| n <= before.serial && revision == #[trigger] cache::revision_text(n);
    assert(n <= after.serial);
}

pub proof fn lemma_evicted(
    cache: CacheView,
    pool_limit: nat,
    others: nat,
    bytes: nat,
    protected: Option<Seq<char>>,
)
    ensures
        ({
            let after = cache.evicted(pool_limit, others, bytes, protected);
            &&& after.serial == cache.serial
            &&& forall|id: Seq<char>| #[trigger]
                after.snapshots.contains_key(id) ==> cache.snapshots.contains_key(id)
                    && after.snapshots[id] == cache.snapshots[id]
            &&& protected is Some && cache.snapshots.contains_key(protected->0)
                ==> after.snapshots.contains_key(protected->0)
        }),
    decreases cache.snapshots.len(),
{
    if !(bytes > cache.limit || cache.admits(pool_limit, others, bytes)
        || !cache.snapshots.dom().finite() || !exists|id: Seq<char>|
        cache::is_oldest(cache.snapshots, protected, id)) {
        let id = choose|id: Seq<char>| cache::is_oldest(cache.snapshots, protected, id);
        lemma_evicted(cache.without(id), pool_limit, others, bytes, protected);
    }
}

proof fn lemma_finish(cache: CacheView, id: Seq<char>, first: SnapshotView, demand: bool, call: CacheCall)
    requires
        cache.tracks(id, first, demand),
        call is Finish,
    ensures
        cache.after(call).tracks(id, first, demand),
{
    lemma_handed_out(cache, cache.after(call), first.revision);
}

#[verifier::spinoff_prover]
#[verifier::rlimit(40)]
proof fn lemma_append(cache: CacheView, id: Seq<char>, first: SnapshotView, demand: bool, call: CacheCall)
    requires
        cache.tracks(id, first, demand),
        call is Append,
    ensures
        cache.after(call).tracks(id, first, demand),
{
    if let CacheCall::Append { pool_limit, others, id: other, entry } = call {
        let bytes = cache::append_cost(entry);
        let roomy = cache.evicted(pool_limit, others, bytes, Some(other));
        lemma_evicted(cache, pool_limit, others, bytes, Some(other));
        lemma_handed_out(cache, roomy, first.revision);
        lemma_handed_out(cache, cache.after(call), first.revision);
        assert(roomy.tracks(id, first, demand));
        if other == id && roomy.has(id, first.revision) && !roomy.snapshots[id].exhausted {
            let snapshot = roomy.snapshots[id];
            cache::lemma_collected_wf(snapshot, entry, bytes);
            let collected = snapshot.collected(entry, bytes);
            lemma_extends_itself(snapshot);
            assert(collected.extends(snapshot)) by {
                assert(collected.entries.take(snapshot.entries.len() as int)
                    =~= snapshot.entries);
            }
            lemma_extends(collected, snapshot, first);
        }
    }
}

#[verifier::spinoff_prover]
#[verifier::rlimit(40)]
proof fn lemma_start(cache: CacheView, id: Seq<char>, first: SnapshotView, demand: bool, call: CacheCall)
    requires
        cache.tracks(id, first, demand),
        call is Start,
    ensures
        cache.after(call).tracks(id, first, demand),
{
    if let CacheCall::Start { pool_limit, others, work, category, now, capacity } = call {
        let fresh = cache.expired(now);
        let bytes = cache::start_cost(cache::queued(work), capacity);
        let numbered = CacheView { serial: (fresh.serial + 1) as u64, ..fresh };
        lemma_evicted(numbered, pool_limit, others, bytes, None);
        lemma_next_revision(cache, first.revision);
        lemma_handed_out(cache, cache.after(call), first.revision);
    }
}

#[verifier::spinoff_prover]
#[verifier::rlimit(40)]
proof fn lemma_page(cache: CacheView, id: Seq<char>, first: SnapshotView, demand: bool, call: CacheCall)
    requires
        cache.tracks(id, first, demand),
        call is Page,
    ensures
        cache.after(call).tracks(id, first, demand),
{
    if let CacheCall::Page { id: other, cursor, limit, now } = call {
        let fresh = cache.expired(now);
        lemma_handed_out(cache, cache.after(call), first.revision);
        if 0 < limit <= 1000 && other == id && fresh.has(id, first.revision) {
            let snapshot = fresh.snapshots[id];
            let drafted = snapshot.drafted(
                cache.serial,
                cursor,
                limit as nat,
                cache.message_limit as nat,
            );
            if drafted is Ok {
                let draft = drafted->Ok_0;
                cache::pages_fit_and_continue(
                    snapshot,
                    cache.serial,
                    cursor,
                    limit as nat,
                    cache.message_limit as nat,
                );
                let touched = snapshot.touched(now, limit, draft.offset);
                cache::lemma_touched_wf(snapshot, now, limit, draft.offset);
                if draft.first_time {
                    cache::lemma_recorded_wf(touched, draft, limit as nat);
                    cache::listings_only_grow(
                        touched,
                        arbitrary(),
                        0,
                        Phase::Failed,
                        None,
                        now,
                        limit,
                        draft.offset,
                        draft,
                    );
                    lemma_extends(touched.recorded(draft, limit as nat), touched, first);
                }
            }
        }
    }
}

#[verifier::spinoff_prover]
#[verifier::rlimit(40)]
proof fn lemma_call(cache: CacheView, id: Seq<char>, first: SnapshotView, demand: bool, call: CacheCall)
    requires
        cache.tracks(id, first, demand),
        demand ==> !(call is Demand && call->Demand_id == id),
    ensures
        cache.after(call).tracks(id, first, demand),
{
    match call {
        CacheCall::Start { .. } => {
            lemma_start(cache, id, first, demand, call);
        },
        CacheCall::Append { .. } => {
            lemma_append(cache, id, first, demand, call);
        },
        CacheCall::Finish { .. } => {
            lemma_finish(cache, id, first, demand, call);
        },
        CacheCall::Page { .. } => {
            lemma_page(cache, id, first, demand, call);
        },
        _ => {
            lemma_handed_out(cache, cache.after(call), first.revision);
        },
    }
}

/// Whether no call of some sets the first demand of a listing.
pub open spec fn leave_demand(calls: Seq<CacheCall>, id: Seq<char>) -> bool {
    forall|i: int|
        0 <= i < calls.len() ==> !((#[trigger] calls[i]) is Demand && calls[i]->Demand_id == id)
}

proof fn lemma_calls(
    cache: CacheView,
    id: Seq<char>,
    first: SnapshotView,
    demand: bool,
    calls: Seq<CacheCall>,
)
    requires
        cache.tracks(id, first, demand),
        demand ==> leave_demand(calls, id),
    ensures
        cache.after_all(calls).tracks(id, first, demand),
    decreases calls.len(),
{
    if calls.len() > 0 {
        let head = calls.drop_last();
        assert forall|i: int| 0 <= i < head.len() && demand implies !((#[trigger] head[i]) is Demand
            && head[i]->Demand_id == id) by {
            assert(head[i] == calls[i]);
        }
        lemma_calls(cache, id, first, demand, head);
        assert(calls[calls.len() - 1] == calls.last());
        lemma_call(cache.after_all(head), id, first, demand, calls.last());
    }
}

proof fn lemma_tracked(cache: CacheView, id: Seq<char>, demand: bool)
    requires
        cache.snapshots.contains_key(id),
        cache.snapshots[id].wf(),
        cache.handed_out(cache.snapshots[id].revision),
    ensures
        cache.tracks(id, cache.snapshots[id], demand),
{
    lemma_extends_itself(cache.snapshots[id]);
}

/// A listing that is there after some calls is in order and a later state of what it was.
pub proof fn lemma_grows(cache: CacheView, id: Seq<char>, calls: Seq<CacheCall>)
    requires
        cache.snapshots.contains_key(id),
        cache.snapshots[id].wf(),
        cache.handed_out(cache.snapshots[id].revision),
    ensures
        cache.after_all(calls).handed_out(cache.snapshots[id].revision),
        cache.after_all(calls).has(id, cache.snapshots[id].revision) ==> {
            let after = cache.after_all(calls).snapshots[id];
            after.wf() && after.follows(cache.snapshots[id])
        },
{
    lemma_tracked(cache, id, false);
    lemma_calls(cache, id, cache.snapshots[id], false, calls);
}

/// A listing only grows: whatever is called, as long as it is there nothing was taken away from
/// it, its sequence has not gone back and shows every change of its work, and once it has ended
/// nothing of it changes.
pub proof fn a_listing_grows_through_any_calls(cache: CacheView, id: Seq<char>, calls: Seq<CacheCall>)
    requires
        cache.wf(),
        cache.snapshots.contains_key(id),
        cache.handed_out(cache.snapshots[id].revision),
        cache.after_all(calls).has(id, cache.snapshots[id].revision),
    ensures
        cache.after_all(calls).snapshots[id].follows(cache.snapshots[id]),
{
    lemma_tracked(cache, id, false);
    lemma_calls(cache, id, cache.snapshots[id], false, calls);
}

/// The demand for a listing never shrinks once its first demand is set, whatever is called.
pub proof fn demand_never_shrinks(cache: CacheView, id: Seq<char>, calls: Seq<CacheCall>)
    requires
        cache.wf(),
        cache.snapshots.contains_key(id),
        cache.handed_out(cache.snapshots[id].revision),
        cache.after_all(calls).has(id, cache.snapshots[id].revision),
        leave_demand(calls, id),
    ensures
        cache.after_all(calls).snapshots[id].demand_end >= cache.snapshots[id].demand_end,
{
    lemma_tracked(cache, id, true);
    lemma_calls(cache, id, cache.snapshots[id], true, calls);
}

/// The sequences that the work of a listing shows grow from one request to the next, whatever is
/// called in between. Where both show the same, and there is another number, they show the same
/// work.
pub proof fn work_shows_growing_sequences(
    cache: CacheView,
    id: Seq<char>,
    now: u64,
    calls: Seq<CacheCall>,
    later: u64,
)
    requires
        cache.wf(),
        cache.told(id, now).snapshots.contains_key(id),
        cache.handed_out(cache.snapshots[id].revision),
        cache.told(id, now).after_all(calls).told(id, later).has(
            id,
            cache.snapshots[id].revision,
        ),
    ensures
        ({
            let shown = cache.told(id, now).snapshots[id].work;
            let again = cache.told(id, now).after_all(calls).told(id, later).snapshots[id].work;
            &&& again.sequence >= shown.sequence
            &&& again.sequence == shown.sequence && shown.sequence < u64::MAX ==> again == shown
        }),
{
    let first = cache.snapshots[id];
    lemma_tracked(cache, id, false);
    lemma_call(cache, id, first, false, CacheCall::Work { id, now });
    lemma_calls(cache.told(id, now), id, first, false, calls);
    lemma_call(
        cache.told(id, now).after_all(calls),
        id,
        first,
        false,
        CacheCall::Work { id, now: later },
    );
}

/// A page that was handed out with entries, or of a listing that had ended, stays the same: read
/// again with the same cursor and the same limit it brings the same entries and the same
/// continuation, whatever is called in between.
#[verifier::spinoff_prover]
#[verifier::rlimit(40)]
pub proof fn a_page_is_the_same_whenever_it_is_read(
    cache: CacheView,
    id: Seq<char>,
    cursor: Option<Seq<char>>,
    limit: usize,
    now: u64,
    calls: Seq<CacheCall>,
    later: u64,
)
    requires
        cache.snapshots[id].wf(),
        cache.handed_out(cache.snapshots[id].revision),
        ({
            let (first, page) = cache.paged(id, cursor, limit, now);
            let again = first.after_all(calls).paged(id, cursor, limit, later).1;
            &&& page is Ok
            &&& page->Ok_0.entries.len() > 0 || cache.snapshots[id].exhausted
            &&& again is Ok
            &&& again->Ok_0.listing_revision == page->Ok_0.listing_revision
        }),
    ensures
        ({
            let (first, page) = cache.paged(id, cursor, limit, now);
            let again = first.after_all(calls).paged(id, cursor, limit, later).1;
            &&& again->Ok_0.entries == page->Ok_0.entries
            &&& again->Ok_0.next_cursor == page->Ok_0.next_cursor
        }),
{
    let (first, page) = cache.paged(id, cursor, limit, now);
    let snapshot = cache.snapshots[id];
    let size = cache.message_limit as nat;
    let draft = snapshot.drafted(cache.serial, cursor, limit as nat, size)->Ok_0;
    cache::pages_fit_and_continue(snapshot, cache.serial, cursor, limit as nat, size);
    let kept = first.snapshots[id];
    lemma_tracked(cache, id, false);
    lemma_call(cache, id, snapshot, false, CacheCall::Page { id, cursor, limit, now });
    lemma_extends_itself(kept);
    assert(first.tracks(id, kept, false));
    lemma_calls(first, id, kept, false, calls);
    let then = first.after_all(calls);
    lemma_limits(first, calls);
    let fresh = then.expired(later);
    let seen = fresh.snapshots[id];
    assert(then.snapshots[id] == seen);
    let offset = draft.offset;
    assert(kept.offset_at(cursor, limit as nat) == Some(offset)) by {
        if cursor is Some {
            assert(snapshot.cursors.contains_key(cursor->0));
            assert(kept.extends(snapshot));
        }
    }
    let frozen = cache::PublishedView {
        offset,
        limit: limit as nat,
        end: draft.end,
        next_cursor: draft.next_cursor,
    };
    if draft.first_time {
        let last = kept.pages.len() - 1;
        assert(kept.pages[last] == frozen);
        assert(cache::is_page(kept.pages, last, offset, limit as nat));
    } else {
        let at = choose|at: int| cache::is_page(snapshot.pages, at, offset, limit as nat);
        assert(kept.pages[at] == snapshot.pages[at]);
        assert(cache::is_page(kept.pages, at, offset, limit as nat));
    }
    let at = choose|at: int| cache::is_page(kept.pages, at, offset, limit as nat);
    assert(kept.pages[at] == frozen) by {
        if draft.first_time {
            let last = kept.pages.len() - 1;
            assert(kept.pages[last].offset == kept.pages[at].offset);
            assert(last == at);
        } else {
            let old = choose|old: int| cache::is_page(snapshot.pages, old, offset, limit as nat);
            assert(kept.pages[old] == snapshot.pages[old]);
            assert(kept.pages[old].offset == kept.pages[at].offset);
            assert(old == at);
        }
    }
    cache::pages_are_immutable(kept, seen, cursor, limit as nat, then.serial, size);
    assert(kept.entries == snapshot.entries);
}

pub proof fn lemma_limits(cache: CacheView, calls: Seq<CacheCall>)
    ensures
        cache.after_all(calls).message_limit == cache.message_limit,
    decreases calls.len(),
{
    if calls.len() > 0 {
        lemma_limits(cache, calls.drop_last());
        lemma_limit(cache.after_all(calls.drop_last()), calls.last());
    }
}

proof fn lemma_evicted_limit(
    cache: CacheView,
    pool_limit: nat,
    others: nat,
    bytes: nat,
    protected: Option<Seq<char>>,
)
    ensures
        cache.evicted(pool_limit, others, bytes, protected).message_limit == cache.message_limit,
    decreases cache.snapshots.len(),
{
    if !(bytes > cache.limit || cache.admits(pool_limit, others, bytes)
        || !cache.snapshots.dom().finite() || !exists|id: Seq<char>|
        cache::is_oldest(cache.snapshots, protected, id)) {
        let id = choose|id: Seq<char>| cache::is_oldest(cache.snapshots, protected, id);
        lemma_evicted_limit(cache.without(id), pool_limit, others, bytes, protected);
    }
}

#[verifier::spinoff_prover]
#[verifier::rlimit(40)]
proof fn lemma_limit(cache: CacheView, call: CacheCall)
    ensures
        cache.after(call).message_limit == cache.message_limit,
{
    match call {
        CacheCall::Start { pool_limit, others, work, now, capacity, .. } => {
            let fresh = cache.expired(now);
            lemma_evicted_limit(
                CacheView { serial: (fresh.serial + 1) as u64, ..fresh },
                pool_limit,
                others,
                cache::start_cost(cache::queued(work), capacity),
                None,
            );
        },
        CacheCall::Append { pool_limit, others, id, entry } => {
            lemma_evicted_limit(
                cache,
                pool_limit,
                others,
                cache::append_cost(entry),
                Some(id),
            );
        },
        _ => {},
    }
}

/// One page that was read of a listing: what the listing was then, and what was handed out.
pub struct PageRead {
    pub snapshot: SnapshotView,
    pub serial: u64,
    pub draft: Draft,
}

impl PageRead {
    /// The entries of the page.
    pub open spec fn entries(self) -> Seq<EntryView> {
        self.snapshot.entries.subrange(self.draft.offset as int, self.draft.end as int)
    }

    /// What the listing was after the page was read.
    pub open spec fn left(self, limit: nat) -> SnapshotView {
        if self.draft.first_time {
            self.snapshot.recorded(self.draft, limit)
        } else {
            self.snapshot
        }
    }

    /// Whether the page was read with this cursor.
    pub open spec fn read_at(
        self,
        cursor: Option<Seq<char>>,
        limit: nat,
        message_limit: nat,
    ) -> bool {
        &&& self.snapshot.wf()
        &&& self.snapshot.drafted(self.serial, cursor, limit, message_limit) == Ok::<
            Draft,
            cache::CacheError,
        >(self.draft)
    }
}

/// Whether pages were read one after the other from the start, each with the cursor that the one
/// before announced, of one listing that may have grown in between.
pub open spec fn read_on(reads: Seq<PageRead>, limit: usize, message_limit: nat) -> bool
    decreases reads.len(),
{
    if reads.len() == 0 {
        true
    } else if reads.len() == 1 {
        reads[0].read_at(None, limit as nat, message_limit)
    } else {
        let before = reads[reads.len() - 2];
        &&& read_on(reads.drop_last(), limit, message_limit)
        &&& before.draft.next_cursor is Some
        &&& reads.last().snapshot.extends(before.left(limit as nat))
        &&& reads.last().read_at(before.draft.next_cursor, limit as nat, message_limit)
    }
}

/// The entries of some pages, one after the other.
pub open spec fn joined(reads: Seq<PageRead>) -> Seq<EntryView>
    decreases reads.len(),
{
    if reads.len() == 0 {
        Seq::empty()
    } else {
        joined(reads.drop_last()) + reads.last().entries()
    }
}

proof fn lemma_entries_join(
    earlier: Seq<EntryView>,
    later: Seq<EntryView>,
    middle: int,
    end: int,
)
    requires
        0 <= middle <= earlier.len() <= later.len(),
        middle <= end <= later.len(),
        later.take(earlier.len() as int) == earlier,
    ensures
        earlier.take(middle) + later.subrange(middle, end) == later.take(end),
{
    assert forall|i: int| 0 <= i < middle implies later[i] == earlier[i] by {
        assert(later.take(earlier.len() as int)[i] == earlier[i]);
    }
    assert(earlier.take(middle) + later.subrange(middle, end) =~= later.take(end));
}

/// Pages that are read one after the other bring every entry once and in order: together they are
/// the listing up to where the last page ends, and all of it where that page announces no other.
#[verifier::spinoff_prover]
#[verifier::rlimit(40)]
pub proof fn pages_join_up(reads: Seq<PageRead>, limit: usize, message_limit: nat)
    requires
        reads.len() > 0,
        read_on(reads, limit, message_limit),
    ensures
        ({
            let last = reads.last();
            &&& last.draft.end <= last.snapshot.entries.len()
            &&& joined(reads) == last.snapshot.entries.take(last.draft.end as int)
            &&& last.draft.next_cursor is None ==> joined(reads) == last.snapshot.entries
                && last.snapshot.exhausted
        }),
    decreases reads.len(),
{
    let last = reads.last();
    let cursor = if reads.len() == 1 {
        None
    } else {
        reads[reads.len() - 2].draft.next_cursor
    };
    cache::pages_fit_and_continue(
        last.snapshot,
        last.serial,
        cursor,
        limit as nat,
        message_limit,
    );
    if reads.len() == 1 {
        assert(joined(reads.drop_last()) =~= Seq::<EntryView>::empty());
        assert(joined(reads) =~= last.snapshot.entries.take(last.draft.end as int));
    } else {
        let head = reads.drop_last();
        let before = reads[reads.len() - 2];
        assert(head.last() == before);
        pages_join_up(head, limit, message_limit);
        lemma_read_before(head, limit, message_limit);
        let earlier = if head.len() == 1 {
            None
        } else {
            head[head.len() - 2].draft.next_cursor
        };
        cache::continuations_leave_no_gap(
            before.snapshot,
            before.serial,
            earlier,
            limit,
            message_limit,
        );
        let left = before.left(limit as nat);
        assert(left.cursors.contains_key(cursor->0));
        assert(last.draft.offset == before.draft.end);
        lemma_entries_join(
            left.entries,
            last.snapshot.entries,
            before.draft.end as int,
            last.draft.end as int,
        );
    }
    if last.draft.next_cursor is None {
        assert(last.snapshot.entries.take(last.draft.end as int) =~= last.snapshot.entries);
    }
}

/// The last of some pages was read with the cursor that the one before announced.
proof fn lemma_read_before(reads: Seq<PageRead>, limit: usize, message_limit: nat)
    requires
        reads.len() > 0,
        read_on(reads, limit, message_limit),
    ensures
        reads.last().read_at(
            if reads.len() == 1 {
                None
            } else {
                reads[reads.len() - 2].draft.next_cursor
            },
            limit as nat,
            message_limit,
        ),
{
}

/// What a listing is charged for.
spec fn charge() -> spec_fn(SnapshotView) -> nat {
    |snapshot: SnapshotView| snapshot.bytes
}

/// The listings use no more than the cache may.
spec fn within(cache: CacheView) -> bool {
    cache.snapshots.dom().finite() && text_map::sum_over(cache.snapshots, charge()) <= cache.limit
}

proof fn lemma_used(cache: CacheView)
    ensures
        cache.used() == text_map::sum_over(cache.snapshots, charge()),
{
    assert(charge() =~= (|snapshot: SnapshotView| snapshot.bytes));
}

/// A cache with some of its listings alone uses no more.
proof fn lemma_part_within(cache: CacheView, part: CacheView)
    requires
        within(cache),
        part.limit == cache.limit,
        forall|id: Seq<char>| #[trigger]
            part.snapshots.contains_key(id) ==> cache.snapshots.contains_key(id)
                && part.snapshots[id] == cache.snapshots[id],
    ensures
        within(part),
{
    text_map::lemma_sum_part(part.snapshots, cache.snapshots, charge());
}

/// A listing that changes without being charged for more leaves the cache within its limit.
proof fn lemma_same_within(cache: CacheView, id: Seq<char>, snapshot: SnapshotView)
    requires
        within(cache),
        cache.snapshots.contains_key(id),
        snapshot.bytes == cache.snapshots[id].bytes,
    ensures
        within(cache.with(id, snapshot)),
{
    text_map::lemma_sum_put(cache.snapshots, id, snapshot, charge());
}

proof fn lemma_evicted_cap(
    cache: CacheView,
    pool_limit: nat,
    others: nat,
    bytes: nat,
    protected: Option<Seq<char>>,
)
    ensures
        cache.evicted(pool_limit, others, bytes, protected).limit == cache.limit,
    decreases cache.snapshots.len(),
{
    if !(bytes > cache.limit || cache.admits(pool_limit, others, bytes)
        || !cache.snapshots.dom().finite() || !exists|id: Seq<char>|
        cache::is_oldest(cache.snapshots, protected, id)) {
        let id = choose|id: Seq<char>| cache::is_oldest(cache.snapshots, protected, id);
        lemma_evicted_cap(cache.without(id), pool_limit, others, bytes, protected);
    }
}

#[verifier::spinoff_prover]
#[verifier::rlimit(40)]
proof fn lemma_within_room(cache: CacheView, call: CacheCall)
    requires
        within(cache),
        call is Start || call is Append,
    ensures
        within(cache.after(call)),
        cache.after(call).limit == cache.limit,
{
    match call {
        CacheCall::Start { pool_limit, others, work, category, now, capacity } => {
            let fresh = cache.expired(now);
            lemma_part_within(cache, fresh);
            let numbered = CacheView { serial: (fresh.serial + 1) as u64, ..fresh };
            let bytes = cache::start_cost(cache::queued(work), capacity);
            lemma_evicted(numbered, pool_limit, others, bytes, None);
            lemma_evicted_cap(numbered, pool_limit, others, bytes, None);
            let roomy = numbered.evicted(pool_limit, others, bytes, None);
            lemma_part_within(numbered, roomy);
            lemma_used(roomy);
            let revision = cache::revision_text((fresh.serial + 1) as nat);
            let made = cache::empty_snapshot(cache::queued(work), revision, category, now, bytes);
            text_map::lemma_sum_put(roomy.snapshots, work.task_id, made, charge());
            if exists|id: Seq<char>| fresh.is_listing(work, category, id) {
                let id = choose|id: Seq<char>| fresh.is_listing(work, category, id);
                lemma_same_within(
                    fresh,
                    id,
                    SnapshotView { last_used: now, ..fresh.snapshots[id] },
                );
            }
        },
        CacheCall::Append { pool_limit, others, id, entry } => {
            let bytes = cache::append_cost(entry);
            lemma_evicted(cache, pool_limit, others, bytes, Some(id));
            lemma_evicted_cap(cache, pool_limit, others, bytes, Some(id));
            let roomy = cache.evicted(pool_limit, others, bytes, Some(id));
            lemma_part_within(cache, roomy);
            lemma_used(roomy);
            if cache.snapshots.contains_key(id) {
                let snapshot = roomy.snapshots[id];
                text_map::lemma_sum_put(
                    roomy.snapshots,
                    id,
                    snapshot.collected(entry, bytes),
                    charge(),
                );
                lemma_same_within(
                    roomy,
                    id,
                    snapshot.finished(Phase::Completed, Some(cache::limit_issue())),
                );
            }
        },
        _ => {},
    }
}

#[verifier::spinoff_prover]
#[verifier::rlimit(40)]
proof fn lemma_within(cache: CacheView, call: CacheCall)
    requires
        within(cache),
    ensures
        within(cache.after(call)),
        cache.after(call).limit == cache.limit,
{
    let after = cache.after(call);
    match call {
        CacheCall::Start { .. } => {
            lemma_within_room(cache, call);
        },
        CacheCall::Append { .. } => {
            lemma_within_room(cache, call);
        },
        CacheCall::Page { id, now, .. } => {
            lemma_part_within(cache, cache.expired(now));
            if cache.expired(now).snapshots.contains_key(id) {
                lemma_same_within(cache.expired(now), id, after.snapshots[id]);
            }
        },
        CacheCall::Work { id, now } => {
            lemma_part_within(cache, cache.expired(now));
            if cache.expired(now).snapshots.contains_key(id) {
                lemma_same_within(cache.expired(now), id, after.snapshots[id]);
            }
        },
        CacheCall::Expire { now } => {
            lemma_part_within(cache, after);
        },
        CacheCall::Clear => {
            lemma_part_within(cache, after);
        },
        CacheCall::Demand { id, .. } => {
            if cache.snapshots.contains_key(id) {
                lemma_same_within(cache, id, after.snapshots[id]);
            }
        },
        CacheCall::Observe { id, .. } => {
            if cache.snapshots.contains_key(id) {
                lemma_same_within(cache, id, after.snapshots[id]);
            }
        },
        CacheCall::Record { id, .. } => {
            if cache.snapshots.contains_key(id) {
                lemma_same_within(cache, id, after.snapshots[id]);
            }
        },
        CacheCall::Status { id, .. } => {
            if cache.snapshots.contains_key(id) {
                lemma_same_within(cache, id, after.snapshots[id]);
            }
        },
        CacheCall::Finish { id, .. } => {
            if cache.snapshots.contains_key(id) {
                lemma_same_within(cache, id, after.snapshots[id]);
            }
        },
    }
}

proof fn lemma_within_all(cache: CacheView, calls: Seq<CacheCall>)
    requires
        within(cache),
    ensures
        within(cache.after_all(calls)),
        cache.after_all(calls).limit == cache.limit,
    decreases calls.len(),
{
    if calls.len() > 0 {
        lemma_within_all(cache, calls.drop_last());
        lemma_within(cache.after_all(calls.drop_last()), calls.last());
    }
}

/// The listings of a cache never use more than its limit: whatever is called, a cache that is
/// within its limit stays so, and its limit stays.
pub proof fn listings_stay_within_the_limit(cache: CacheView, calls: Seq<CacheCall>)
    requires
        cache.wf(),
        cache.used() <= cache.limit,
    ensures
        cache.after_all(calls).used() <= cache.after_all(calls).limit,
        cache.after_all(calls).limit == cache.limit,
{
    lemma_used(cache);
    lemma_within_all(cache, calls);
    lemma_used(cache.after_all(calls));
}

/// What the listings of a cache use is within what their pool has lent, and that within its limit.
/// Every call leaves a cache backed by its pool, so this holds at any time.
pub proof fn a_cache_stays_within_its_pool(cache: &ListingCache, pool: &ByteBudget)
    requires
        cache.wf(),
        cache.backed(pool),
    ensures
        cache@.used() <= pool@.used <= pool@.limit,
{
    cache.lemma_backed(pool);
    memory::lemma_total_update(pool@.sizes, cache.hold(), 0);
}

/// Whatever another owner of a pool does with a hold of its own, a cache stays backed: two caches
/// can share one pool.
pub proof fn other_holds_leave_a_cache_backed(
    cache: &ListingCache,
    before: &ByteBudget,
    after: &ByteBudget,
    other: int,
    bytes: nat,
)
    requires
        cache.wf(),
        cache.backed(before),
        after.wf(),
        0 <= other < before@.sizes.len() && other != cache.hold() && after@
            == before@.resized(other, bytes) || after@ == before@.reserved(bytes),
    ensures
        cache.backed(after),
{
    cache.lemma_backed(before);
    cache.lemma_backed(after);
}

} // verus!
