//! What the cache of listings is for: which listings it keeps, for how long, and which make room
//! for others.
use vstd::prelude::*;

use crate::domain::laws::as_far_as_it_goes;
use crate::domain::model::{Category, EntryView, IssueView, PageView, Phase, WorkView};
use crate::domain::wire;
use crate::listing::cache;
use crate::listing::cache::{CacheError, CacheView, SnapshotView};
use crate::listing::history;
use crate::text;
use crate::text_map;

verus! {

/// Whether a listing was used within the time to live.
pub open spec fn is_fresh(snapshot: SnapshotView, now: u64, ttl_ms: u64) -> bool {
    ttl_ms > 0 && now < snapshot.last_used + ttl_ms
}

/// A finite, non-empty choice of listings has one that was used least recently.
proof fn lemma_some_oldest(
    snapshots: Map<Seq<char>, SnapshotView>,
    protected: Option<Seq<char>>,
    known: Seq<char>,
)
    requires
        snapshots.dom().finite(),
        snapshots.contains_key(known),
        Some(known) != protected,
    ensures
        exists|id: Seq<char>| cache::is_oldest(snapshots, protected, id),
    decreases snapshots.len(),
{
    let rest = snapshots.remove(known);
    assert(rest.dom() =~= snapshots.dom().remove(known));
    if exists|other: Seq<char>| #[trigger] rest.contains_key(other) && Some(other) != protected {
        let other = choose|other: Seq<char>| #[trigger] rest.contains_key(other) && Some(other)
            != protected;
        lemma_some_oldest(rest, protected, other);
        let best = choose|id: Seq<char>| cache::is_oldest(rest, protected, id);
        if snapshots[known].last_used < snapshots[best].last_used || (snapshots[known].last_used
            == snapshots[best].last_used && text::text_before(known, best)) {
            assert forall|o: Seq<char>| #[trigger]
                snapshots.contains_key(o) && Some(o) != protected && o != known implies (
            snapshots[known].last_used < snapshots[o].last_used || (snapshots[known].last_used
                == snapshots[o].last_used && text::text_before(known, o))) by {
                assert(rest.contains_key(o));
                if o != best && snapshots[known].last_used == snapshots[o].last_used {
                    text::lemma_text_before_transitive(known, best, o);
                }
            }
            assert(cache::is_oldest(snapshots, protected, known));
        } else {
            text::lemma_text_before_total(known, best);
            assert forall|o: Seq<char>| #[trigger]
                snapshots.contains_key(o) && Some(o) != protected && o != best implies (
            snapshots[best].last_used < snapshots[o].last_used || (snapshots[best].last_used
                == snapshots[o].last_used && text::text_before(best, o))) by {
                if o != known {
                    assert(rest.contains_key(o));
                }
            }
            assert(cache::is_oldest(snapshots, protected, best));
        }
    } else {
        assert forall|o: Seq<char>| #[trigger]
            snapshots.contains_key(o) && Some(o) != protected && o != known implies false by {
            assert(rest.contains_key(o));
        }
        assert(cache::is_oldest(snapshots, protected, known));
    }
}

/// Room is made by the listings that were used least recently: one that had to leave was used no
/// later than any that stays, apart from a protected one, which never leaves.
pub proof fn the_least_recently_used_leave(
    cache: CacheView,
    pool_limit: nat,
    others: nat,
    bytes: nat,
    protected: Option<Seq<char>>,
    gone: Seq<char>,
    stays: Seq<char>,
)
    requires
        cache.snapshots.contains_key(gone),
        !cache.evicted(pool_limit, others, bytes, protected).snapshots.contains_key(gone),
        cache.evicted(pool_limit, others, bytes, protected).snapshots.contains_key(stays),
    ensures
        Some(gone) != protected,
        Some(stays) != protected ==> cache.snapshots[gone].last_used
            <= cache.snapshots[stays].last_used,
        cache.evicted(pool_limit, others, bytes, protected).snapshots[stays]
            == cache.snapshots[stays],
    decreases cache.snapshots.len(),
{
    history::lemma_evicted(cache, pool_limit, others, bytes, protected);
    let id = choose|id: Seq<char>| cache::is_oldest(cache.snapshots, protected, id);
    assert(cache::is_oldest(cache.snapshots, protected, id));
    let next = cache.without(id);
    history::lemma_evicted(next, pool_limit, others, bytes, protected);
    assert(stays != id);
    if gone != id {
        assert(next.snapshots.contains_key(gone));
        the_least_recently_used_leave(next, pool_limit, others, bytes, protected, gone, stays);
    }
}

/// What is charged for all listings, one by one.
pub open spec fn charged(snapshots: Map<Seq<char>, SnapshotView>) -> nat {
    text_map::sum_over(snapshots, |snapshot: SnapshotView| snapshot.bytes)
}

proof fn lemma_without(cache: CacheView, id: Seq<char>)
    requires
        cache.snapshots.dom().finite(),
        cache.snapshots.contains_key(id),
    ensures
        cache.without(id).used() + cache.snapshots[id].bytes == cache.used(),
        cache.without(id).snapshots.dom().finite(),
        cache.used() == charged(cache.snapshots),
{
    let measure = |snapshot: SnapshotView| snapshot.bytes;
    let rest = cache.snapshots.remove(id);
    text_map::lemma_sum_put(rest, id, cache.snapshots[id], measure);
    assert(rest.insert(id, cache.snapshots[id]) =~= cache.snapshots);
}

/// No listing leaves where there is room already, and none more than it takes: with the last one
/// that left there would have been no room. Afterwards there is room, unless what is asked for
/// exceeds the whole limit, or what others and a protected listing hold leaves none.
pub proof fn no_more_leave_than_must(
    cache: CacheView,
    pool_limit: nat,
    others: nat,
    bytes: nat,
    protected: Option<Seq<char>>,
)
    requires
        cache.snapshots.dom().finite(),
    ensures
        ({
            let after = cache.evicted(pool_limit, others, bytes, protected);
            let kept = match protected {
                Some(id) => if cache.snapshots.contains_key(id) {
                    cache.snapshots[id].bytes
                } else {
                    0
                },
                None => 0,
            };
            &&& cache.used() + bytes <= cache.limit && others + cache.used() + bytes <= pool_limit
                || bytes > cache.limit ==> after == cache
            &&& after.snapshots != cache.snapshots ==> exists|last: Seq<char>|
                {
                    &&& #[trigger] cache.snapshots.contains_key(last)
                    &&& !after.snapshots.contains_key(last)
                    &&& after.used() + cache.snapshots[last].bytes + bytes > cache.limit || others
                        + after.used() + cache.snapshots[last].bytes + bytes > pool_limit
                }
            &&& kept + bytes <= cache.limit && others + kept + bytes <= pool_limit ==> {
                &&& after.used() + bytes <= cache.limit
                &&& others + after.used() + bytes <= pool_limit
            }
            &&& after.snapshots.dom().finite()
        }),
    decreases cache.snapshots.len(),
{
    let after = cache.evicted(pool_limit, others, bytes, protected);
    let room = cache.used() + bytes <= cache.limit && others + cache.used() + bytes <= pool_limit;
    assert(cache.admits(pool_limit, others, bytes) == room);
    if !room && bytes <= cache.limit {
        if exists|id: Seq<char>| cache::is_oldest(cache.snapshots, protected, id) {
            let id = choose|id: Seq<char>| cache::is_oldest(cache.snapshots, protected, id);
            let next = cache.without(id);
            lemma_without(cache, id);
            no_more_leave_than_must(next, pool_limit, others, bytes, protected);
            history::lemma_evicted(next, pool_limit, others, bytes, protected);
            if after.snapshots == next.snapshots {
                assert(cache.snapshots.contains_key(id));
                assert(!after.snapshots.contains_key(id));
            } else {
                let last = choose|last: Seq<char>|
                    {
                        &&& #[trigger] next.snapshots.contains_key(last)
                        &&& !after.snapshots.contains_key(last)
                        &&& after.used() + next.snapshots[last].bytes + bytes > cache.limit
                            || others + after.used() + next.snapshots[last].bytes + bytes
                            > pool_limit
                    };
                assert(cache.snapshots.contains_key(last));
            }
        } else {
            assert forall|id: Seq<char>| #[trigger]
                cache.snapshots.contains_key(id) implies Some(id) == protected by {
                if Some(id) != protected {
                    lemma_some_oldest(cache.snapshots, protected, id);
                }
            }
            lemma_alone(cache, protected);
        }
    }
}

/// A cache that holds at most one listing uses what that one is charged.
proof fn lemma_alone(cache: CacheView, protected: Option<Seq<char>>)
    requires
        cache.snapshots.dom().finite(),
        forall|id: Seq<char>| #[trigger]
            cache.snapshots.contains_key(id) ==> Some(id) == protected,
    ensures
        cache.used() == (match protected {
            Some(id) => if cache.snapshots.contains_key(id) {
                cache.snapshots[id].bytes
            } else {
                0
            },
            None => 0,
        }),
{
    let measure = |snapshot: SnapshotView| snapshot.bytes;
    let none = Map::<Seq<char>, SnapshotView>::empty();
    text_map::lemma_rows_of(none);
    assert(text_map::sum_over(none, measure) == 0) by {
        let rows = text_map::rows_of(none);
        text_map::lemma_map_of(rows);
        if rows.len() > 0 {
            assert(text_map::map_of(rows).contains_key(rows[0].0));
        }
    }
    if protected is Some && cache.snapshots.contains_key(protected->0) {
        let id = protected->0;
        lemma_without(cache, id);
        assert(cache.without(id).snapshots =~= none);
    } else {
        assert(cache.snapshots =~= none);
    }
}

/// A listing expires exactly when it was not used for the time to live; the others stay as they
/// are.
pub proof fn listings_expire_on_time(cache: CacheView, now: u64, id: Seq<char>)
    ensures
        cache.expired(now).snapshots.contains_key(id) <==> cache.snapshots.contains_key(id)
            && is_fresh(cache.snapshots[id], now, cache.ttl_ms),
        cache.expired(now).snapshots.contains_key(id) ==> cache.expired(now).snapshots[id]
            == cache.snapshots[id],
{
}

/// A listing counts as used at the time at which its page or its work was read, or at which it was
/// asked for again.
pub proof fn reading_is_using(
    cache: CacheView,
    id: Seq<char>,
    cursor: Option<Seq<char>>,
    limit: usize,
    now: u64,
)
    requires
        cache.snapshots.contains_key(id),
        is_fresh(cache.snapshots[id], now, cache.ttl_ms),
    ensures
        cache.told(id, now).snapshots.contains_key(id),
        cache.told(id, now).snapshots[id].last_used == now,
        cache.told(id, now).snapshots[id].entries == cache.snapshots[id].entries,
        cache.paged(id, cursor, limit, now).1 is Ok ==> cache.paged(
            id,
            cursor,
            limit,
            now,
        ).0.snapshots[id].last_used == now,
{
}

/// Whether a listing is that of a directory and a category, in one generation of a session.
pub open spec fn is_of(snapshot: SnapshotView, work: WorkView, category: Category) -> bool {
    &&& snapshot.work.session_id == work.session_id
    &&& snapshot.work.generation == work.generation
    &&& snapshot.work.target_id == work.target_id
    &&& snapshot.category == category
}

/// A listing that is asked for and not there is started whenever it fits the cache and the pool by
/// itself: it is empty, queued and used now, and has a revision that no listing had. Those that
/// make room for it are the least recently used; those that stay are as they were.
pub proof fn a_listing_that_fits_is_started(
    cache: CacheView,
    pool_limit: nat,
    others: nat,
    work: WorkView,
    category: Category,
    now: u64,
    capacity: nat,
    other: Seq<char>,
    gone: Seq<char>,
)
    requires
        cache.snapshots.dom().finite(),
        cache.serial < u64::MAX,
        !cache.snapshots.contains_key(work.task_id),
        forall|id: Seq<char>| #[trigger]
            cache.snapshots.contains_key(id) && is_fresh(cache.snapshots[id], now, cache.ttl_ms)
                ==> !is_of(cache.snapshots[id], work, category),
        cache::start_cost(cache::queued(work), capacity) <= cache.limit,
        others + cache::start_cost(cache::queued(work), capacity) <= pool_limit,
        other != work.task_id,
    ensures
        ({
            let (after, answer) = cache.started(
                pool_limit,
                others,
                work,
                category,
                now,
                capacity,
            );
            let new = after.snapshots[work.task_id];
            let revision = "listing-"@ + text::decimal((cache.serial + 1) as nat);
            &&& answer is Ok
            &&& answer->Ok_0.task_id == work.task_id
            &&& answer->Ok_0.revision == revision
            &&& after.serial == cache.serial + 1
            &&& after.snapshots.contains_key(work.task_id)
            &&& new.revision == revision
            &&& new.entries.len() == 0
            &&& !new.exhausted
            &&& new.last_used == now
            &&& new.category == category
            &&& new.page_limit is None
            &&& new.work == (WorkView { phase: Phase::Queued, ..work })
            &&& after.snapshots.contains_key(other) ==> cache.snapshots.contains_key(other)
                && after.snapshots[other] == cache.snapshots[other] && is_fresh(
                cache.snapshots[other],
                now,
                cache.ttl_ms,
            )
            &&& cache.snapshots.contains_key(gone) && is_fresh(
                cache.snapshots[gone],
                now,
                cache.ttl_ms,
            ) && !after.snapshots.contains_key(gone) && after.snapshots.contains_key(other)
                ==> cache.snapshots[gone].last_used <= cache.snapshots[other].last_used
        }),
{
    let fresh = cache.expired(now);
    listings_expire_on_time(cache, now, gone);
    listings_expire_on_time(cache, now, other);
    listings_expire_on_time(cache, now, work.task_id);
    assert(!exists|id: Seq<char>| fresh.is_listing(work, category, id)) by {
        if exists|id: Seq<char>| fresh.is_listing(work, category, id) {
            let id = choose|id: Seq<char>| fresh.is_listing(work, category, id);
            listings_expire_on_time(cache, now, id);
            assert(cache.snapshots.contains_key(id));
        }
    }
    let bytes = cache::start_cost(cache::queued(work), capacity);
    let numbered = CacheView { serial: (fresh.serial + 1) as u64, ..fresh };
    assert(fresh.snapshots.dom().subset_of(cache.snapshots.dom()));
    no_more_leave_than_must(numbered, pool_limit, others, bytes, None);
    history::lemma_evicted(numbered, pool_limit, others, bytes, None);
    lemma_limit(numbered, pool_limit, others, bytes, None);
    let roomy = numbered.evicted(pool_limit, others, bytes, None);
    if fresh.snapshots.contains_key(gone) && !roomy.snapshots.contains_key(gone)
        && roomy.snapshots.contains_key(other) {
        the_least_recently_used_leave(numbered, pool_limit, others, bytes, None, gone, other);
    }
    assert(cache::revision_text((cache.serial + 1) as nat) =~= "listing-"@ + text::decimal(
        (cache.serial + 1) as nat,
    ));
}

proof fn lemma_limit(
    cache: CacheView,
    pool_limit: nat,
    others: nat,
    bytes: nat,
    protected: Option<Seq<char>>,
)
    ensures
        cache.evicted(pool_limit, others, bytes, protected).limit == cache.limit,
    decreases cache.snapshots.len(),
{
    if !(bytes > cache.limit || cache.admits(pool_limit, others, bytes)
        || !cache.snapshots.dom().finite() || !exists|id: Seq<char>|
        cache::is_oldest(cache.snapshots, protected, id)) {
        let id = choose|id: Seq<char>| cache::is_oldest(cache.snapshots, protected, id);
        lemma_limit(cache.without(id), pool_limit, others, bytes, protected);
    }
}

/// A listing that is there is handed out again: the same task and the same revision, and nothing of
/// it changes but when it was used.
pub proof fn a_listing_is_handed_out_again(
    cache: CacheView,
    pool_limit: nat,
    others: nat,
    work: WorkView,
    category: Category,
    now: u64,
    capacity: nat,
    id: Seq<char>,
)
    requires
        cache.wf(),
        cache.snapshots.contains_key(id),
        is_fresh(cache.snapshots[id], now, cache.ttl_ms),
        is_of(cache.snapshots[id], work, category),
    ensures
        ({
            let (after, answer) = cache.started(
                pool_limit,
                others,
                work,
                category,
                now,
                capacity,
            );
            &&& answer is Ok
            &&& answer->Ok_0.task_id == id
            &&& answer->Ok_0.revision == cache.snapshots[id].revision
            &&& after.snapshots[id] == (SnapshotView { last_used: now, ..cache.snapshots[id] })
            &&& after.serial == cache.serial
        }),
{
    let fresh = cache.expired(now);
    assert(fresh.is_listing(work, category, id));
    let found = choose|found: Seq<char>| fresh.is_listing(work, category, found);
    assert(cache.snapshots.contains_key(found) && cache.snapshots.contains_key(id));
}

/// An entry of the listing's own directory and category is appended at the end whenever it fits
/// beside the listing itself and what others hold in the pool. The other listings make room for
/// it, the least recently used first, and never this one. Without room the listing ends with what
/// it has; once it has ended nothing is appended.
pub proof fn an_entry_that_fits_is_appended(
    cache: CacheView,
    pool_limit: nat,
    others: nat,
    id: Seq<char>,
    entry: EntryView,
    gone: Seq<char>,
    stays: Seq<char>,
)
    requires
        cache.snapshots.dom().finite(),
        cache.snapshots.contains_key(id),
        entry.parent_id == Some(cache.snapshots[id].work.target_id),
        (entry.kind is Directory) == (cache.snapshots[id].category is Directories),
        stays != id,
    ensures
        ({
            let (after, answer) = cache.appended(pool_limit, others, id, entry);
            let before = cache.snapshots[id];
            let bytes = cache::append_cost(entry);
            let fits = before.bytes + bytes <= cache.limit && others + before.bytes + bytes
                <= pool_limit;
            &&& after.snapshots.contains_key(id)
            &&& before.exhausted ==> answer == Ok::<bool, CacheError>(false) && after == cache
            &&& !before.exhausted && fits ==> {
                &&& answer == Ok::<bool, CacheError>(true)
                &&& after.snapshots[id].entries == before.entries.push(entry)
                &&& after.snapshots[id].bytes == before.bytes + bytes
                &&& after.snapshots[id].work.phase is Running
                &&& after.snapshots[id].work.observed_at == entry.observed_at
                &&& after.snapshots[id].work.issues == before.work.issues
                &&& after.snapshots[id].work.processed_entries == before.work.processed_entries
                &&& after.snapshots[id].work.processed_directories
                    == before.work.processed_directories
                &&& !after.snapshots[id].exhausted
            }
            &&& !before.exhausted && !fits ==> {
                &&& answer != Ok::<bool, CacheError>(true)
                &&& after.snapshots[id].entries == before.entries
                &&& after.snapshots[id].bytes == before.bytes
            }
            &&& after.snapshots[id].pages == before.pages
            &&& after.snapshots[id].cursors == before.cursors
            &&& after.snapshots.contains_key(stays) ==> cache.snapshots.contains_key(stays)
                && after.snapshots[stays] == cache.snapshots[stays]
            &&& cache.snapshots.contains_key(gone) && !after.snapshots.contains_key(gone)
                && after.snapshots.contains_key(stays) ==> gone != id
                && cache.snapshots[gone].last_used <= cache.snapshots[stays].last_used
        }),
{
    let bytes = cache::append_cost(entry);
    no_more_leave_than_must(cache, pool_limit, others, bytes, Some(id));
    history::lemma_evicted(cache, pool_limit, others, bytes, Some(id));
    lemma_limit(cache, pool_limit, others, bytes, Some(id));
    let roomy = cache.evicted(pool_limit, others, bytes, Some(id));
    if cache.snapshots.contains_key(gone) && !roomy.snapshots.contains_key(gone)
        && roomy.snapshots.contains_key(stays) {
        the_least_recently_used_leave(cache, pool_limit, others, bytes, Some(id), gone, stays);
    }
    lemma_without(roomy, id);
}

/// What a listing is charged: for an entry what the entry is estimated to take and 1024 bytes, and
/// for itself what its work and the text of its revision take, twice its own size and 68 KiB, each as
/// far as a `usize` goes.
pub proof fn listings_are_charged_for(entry: EntryView, work: WorkView, capacity: nat)
    ensures
        cache::append_cost(entry) == as_far_as_it_goes(wire::entry_estimate(entry) + 1024),
        cache::start_cost(work, capacity) == as_far_as_it_goes(
            wire::work_estimate(work) + 2 * capacity + 2 * cache::snapshot_size() + 69632,
        ),
{
}

/// Where a page begins that is asked for with a cursor, or without one.
pub open spec fn begin_of(snapshot: SnapshotView, cursor: Option<Seq<char>>) -> nat {
    match cursor {
        Some(cursor) => snapshot.cursors[cursor].offset,
        None => 0,
    }
}

/// The smaller of two numbers.
pub open spec fn smaller(a: nat, b: nat) -> nat {
    if a <= b {
        a
    } else {
        b
    }
}

/// The size of the message that holds a page, with room for what an unfinished listing may still
/// add to it.
pub open spec fn message_size(
    snapshot: SnapshotView,
    begin: nat,
    end: nat,
    cursor: Option<Seq<char>>,
    next: Option<Seq<char>>,
) -> nat {
    wire::json_len(
        wire::page_json(
            PageView {
                work: snapshot.work,
                listing_revision: snapshot.revision,
                directory_id: snapshot.work.target_id,
                category: snapshot.category,
                entries: snapshot.entries.subrange(begin as int, end as int),
                cursor,
                next_cursor: next,
                coverage: snapshot.coverage,
                issues: snapshot.work.issues,
            },
        ),
    ) + if snapshot.exhausted {
        0nat
    } else {
        65664nat
    }
}

/// A page that was not handed out before brings as many entries as were asked for, or all that are
/// left, where they fit a message: those behind the cursor, in order, with everything that is known
/// of the listing. It announces a cursor unless the listing is finished and this is its last entry.
/// Reading it demands this page and another one.
pub proof fn a_page_brings_what_was_asked_for(
    cache: CacheView,
    id: Seq<char>,
    cursor: Option<Seq<char>>,
    limit: usize,
    now: u64,
)
    requires
        1 <= limit <= 1000,
        cache.snapshots.contains_key(id),
        cache.snapshots[id].wf(),
        is_fresh(cache.snapshots[id], now, cache.ttl_ms),
        cache.snapshots[id].page_limit is None || cache.snapshots[id].page_limit == Some(limit),
        cursor is Some ==> cache.snapshots[id].cursors.contains_key(cursor->0)
            && cache.snapshots[id].cursors[cursor->0].limit == limit,
        forall|i: int|
            0 <= i < cache.snapshots[id].pages.len() ==> !((
            #[trigger] cache.snapshots[id].pages[i]).offset == begin_of(
                cache.snapshots[id],
                cursor,
            ) && cache.snapshots[id].pages[i].limit == limit),
        cache.serial < u64::MAX,
        ({
            let listing = cache.snapshots[id];
            let begin = begin_of(listing, cursor);
            let end = smaller(begin + limit as nat, listing.entries.len());
            let next = listing.continuation(cache.serial, end, limit as nat);
            &&& message_size(listing, begin, end, cursor, next) <= cache.message_limit
            &&& cache.message_limit < usize::MAX
        }),
    ensures
        ({
            let listing = cache.snapshots[id];
            let begin = begin_of(listing, cursor);
            let end = smaller(begin + limit as nat, listing.entries.len());
            let (after, answer) = cache.paged(id, cursor, limit, now);
            &&& answer is Ok
            &&& answer->Ok_0.entries.len() == end - begin
            &&& forall|i: int|
                0 <= i < end - begin ==> #[trigger] answer->Ok_0.entries[i]
                    == listing.entries[begin + i]
            &&& answer->Ok_0.next_cursor is None <==> listing.exhausted && end
                == listing.entries.len()
            &&& answer->Ok_0.next_cursor is Some ==> {
                &&& after.snapshots[id].cursors.contains_key(answer->Ok_0.next_cursor->0)
                &&& after.snapshots[id].cursors[answer->Ok_0.next_cursor->0].offset == end
                &&& after.snapshots[id].cursors[answer->Ok_0.next_cursor->0].limit == limit
            }
            &&& answer->Ok_0.cursor == cursor
            &&& answer->Ok_0.work == listing.work
            &&& answer->Ok_0.listing_revision == listing.revision
            &&& answer->Ok_0.directory_id == listing.work.target_id
            &&& answer->Ok_0.category == listing.category
            &&& answer->Ok_0.coverage == listing.coverage
            &&& answer->Ok_0.issues == listing.work.issues
            &&& after.snapshots[id].entries == listing.entries
            &&& after.snapshots[id].last_used == now
            &&& after.snapshots[id].page_limit == Some(limit)
            &&& begin + 2 * limit <= usize::MAX ==> after.snapshots[id].demand_end == (
            if begin + 2 * limit > listing.demand_end {
                begin + 2 * limit as nat
            } else {
                listing.demand_end
            })
        }),
{
    let listing = cache.snapshots[id];
    let begin = begin_of(listing, cursor);
    let end = smaller(begin + limit as nat, listing.entries.len());
    listings_expire_on_time(cache, now, id);
    if cursor is Some {
        assert(listing.cursors.contains_key(cursor->0));
    }
    assert(cache::published(listing.pages, begin, limit as nat) is None) by {
        if exists|at: int| cache::is_page(listing.pages, at, begin, limit as nat) {
            let at = choose|at: int| cache::is_page(listing.pages, at, begin, limit as nat);
            assert(listing.pages[at].offset == begin);
        }
    }
    let next = listing.continuation(cache.serial, end, limit as nat);
    let page = listing.page_of(begin, end, cursor, next);
    assert(page == (PageView {
        work: listing.work,
        listing_revision: listing.revision,
        directory_id: listing.work.target_id,
        category: listing.category,
        entries: listing.entries.subrange(begin as int, end as int),
        cursor,
        next_cursor: next,
        coverage: listing.coverage,
        issues: listing.work.issues,
    }));
    let growth: nat = if listing.exhausted {
        0
    } else {
        cache::GROWTH_BYTES as nat
    };
    assert(listing.page_fits(begin, end, cursor, next, growth, cache.message_limit as nat));
    let draft = listing.drafted(
        cache.serial,
        cursor,
        limit as nat,
        cache.message_limit as nat,
    )->Ok_0;
    assert(draft.end == end);
    cache::pages_fit_and_continue(
        listing,
        cache.serial,
        cursor,
        limit as nat,
        cache.message_limit as nat,
    );
    let after = cache.paged(id, cursor, limit, now).0;
    assert(after.snapshots[id].cursors == listing.touched(now, limit, begin).recorded(
        draft,
        limit as nat,
    ).cursors);
}

/// A request for a page is refused for these causes, and then no page is handed out: a limit of
/// none or of more than a thousand, a listing that is gone, another limit than that of the pages
/// before, and a cursor that was not handed out for this limit.
pub proof fn pages_are_refused_for_a_cause(
    cache: CacheView,
    id: Seq<char>,
    cursor: Option<Seq<char>>,
    limit: usize,
    now: u64,
)
    ensures
        ({
            let listing = cache.snapshots[id];
            let answer = cache.paged(id, cursor, limit, now).1;
            let there = cache.snapshots.contains_key(id) && is_fresh(listing, now, cache.ttl_ms);
            let counted = 1 <= limit <= 1000;
            let alike = listing.page_limit is None || listing.page_limit == Some(limit);
            let known = cursor is None || listing.cursors.contains_key(cursor->0)
                && listing.cursors[cursor->0].limit == limit;
            &&& !counted ==> answer == Err::<PageView, CacheError>(CacheError::InvalidArgument)
            &&& counted && !there ==> answer == Err::<PageView, CacheError>(
                if cursor is Some {
                    CacheError::CursorExpired
                } else {
                    CacheError::TaskExpired
                },
            )
            &&& counted && there && !alike ==> answer == Err::<PageView, CacheError>(
                CacheError::InvalidArgument,
            )
            &&& counted && there && alike && !known ==> answer == Err::<PageView, CacheError>(
                CacheError::CursorExpired,
            )
            &&& answer is Err && answer->Err_0 is ResourceLimit ==> counted && there && alike
                && known
        }),
{
    listings_expire_on_time(cache, now, id);
}

/// A page that would not fit a message is as long as fits: no longer page that is shorter than what
/// was asked for fits.
pub proof fn pages_are_as_long_as_fits(
    listing: SnapshotView,
    serial: u64,
    cursor: Option<Seq<char>>,
    limit: nat,
    message_limit: nat,
    end: nat,
)
    requires
        listing.wf(),
        listing.drafted(serial, cursor, limit, message_limit) is Ok,
        listing.drafted(serial, cursor, limit, message_limit)->Ok_0.first_time,
        listing.drafted(serial, cursor, limit, message_limit)->Ok_0.end < end < smaller(
            listing.drafted(serial, cursor, limit, message_limit)->Ok_0.offset + limit,
            listing.entries.len(),
        ),
        message_limit < usize::MAX,
    ensures
        message_size(
            listing,
            listing.drafted(serial, cursor, limit, message_limit)->Ok_0.offset,
            end,
            cursor,
            Some(cache::new_cursor(serial, end, limit)),
        ) > message_limit,
{
    let draft = listing.drafted(serial, cursor, limit, message_limit)->Ok_0;
    cache::pages_fit_and_continue(listing, serial, cursor, limit, message_limit);
    let whole = smaller(draft.offset + limit, listing.entries.len());
    let growth: nat = if listing.exhausted {
        0
    } else {
        cache::GROWTH_BYTES as nat
    };
    lemma_trimmed(
        listing,
        serial,
        limit,
        draft.offset,
        whole,
        cursor,
        listing.continuation(serial, whole, limit),
        growth,
        message_limit,
        end,
    );
}

proof fn lemma_trimmed(
    listing: SnapshotView,
    serial: u64,
    limit: nat,
    begin: nat,
    from: nat,
    cursor: Option<Seq<char>>,
    next: Option<Seq<char>>,
    growth: nat,
    message_limit: nat,
    end: nat,
)
    requires
        listing.trimmed(serial, limit, begin, from, cursor, next, growth, message_limit) is Some,
        listing.trimmed(
            serial,
            limit,
            begin,
            from,
            cursor,
            next,
            growth,
            message_limit,
        )->0.end < end < from,
    ensures
        !listing.page_fits(
            begin,
            end,
            cursor,
            Some(cache::new_cursor(serial, end, limit)),
            growth,
            message_limit,
        ),
    decreases from,
{
    let less = (from - 1) as nat;
    let other = Some(cache::new_cursor(serial, less, limit));
    let inner = listing.trimmed(serial, limit, begin, less, cursor, other, growth, message_limit);
    if listing.page_fits(begin, less, cursor, other, growth, message_limit) {
        assert(inner->0.end == less);
    }
    if end < less {
        lemma_trimmed(
            listing,
            serial,
            limit,
            begin,
            less,
            cursor,
            other,
            growth,
            message_limit,
            end,
        );
    }
}

/// A listing that leaves is counted, so that it is noticed, and takes no other with it.
pub proof fn a_listing_that_leaves_is_counted(cache: CacheView, id: Seq<char>, other: Seq<char>)
    requires
        cache.eviction_epoch < u64::MAX,
        other != id,
    ensures
        cache.without(id).eviction_epoch == cache.eviction_epoch + 1,
        !cache.without(id).snapshots.contains_key(id),
        cache.without(id).snapshots.contains_key(other) == cache.snapshots.contains_key(other),
        cache.without(id).snapshots[other] == cache.snapshots[other],
        cache.without(id).limit == cache.limit,
        cache.without(id).serial == cache.serial,
{
    broadcast use vstd::map::group_map_axioms;

}

/// A listing that is there can end as completed, as cancelled or as failed, and in no other phase,
/// with an issue of up to 2048 bytes or with none. No other listing ends with it.
pub proof fn an_end_is_taken(
    cache: CacheView,
    id: Seq<char>,
    phase: Phase,
    issue: IssueView,
    other: Seq<char>,
)
    requires
        other != id,
    ensures
        ({
            let ends = phase == Phase::Completed || phase == Phase::Cancelled || phase
                == Phase::Failed;
            let there = cache.snapshots.contains_key(id);
            let small = wire::issue_estimate(issue) <= 2048;
            let quiet = cache.finished(id, phase, None);
            let told = cache.finished(id, phase, Some(issue));
            &&& cache.finish_answer(id, phase, None) is Ok <==> ends && there
            &&& cache.finish_answer(id, phase, Some(issue)) is Ok <==> ends && there && small
            &&& ends && there ==> quiet.snapshots[id].exhausted
            &&& ends && there && small ==> told.snapshots[id].exhausted
            &&& !(ends && there) ==> quiet == cache && told == cache
            &&& quiet.snapshots.contains_key(other) == cache.snapshots.contains_key(other)
            &&& quiet.snapshots[other] == cache.snapshots[other]
            &&& told.snapshots[other] == cache.snapshots[other]
        }),
{
    broadcast use vstd::map::group_map_axioms;

}

} // verus!
