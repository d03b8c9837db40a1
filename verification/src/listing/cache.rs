//! Demand-driven, bounded listing observations. Contains no filesystem I/O.
//! Snapshots and work records have one lifetime.
use vstd::prelude::*;

use crate::domain::controller;
use crate::domain::index;
use crate::domain::index::{allocated, reserve_nothing};
use crate::domain::model;
use crate::domain::model::{
    copy_optional, Bytes, Category, Coverage, Entry, EntryView, FsIssue, IssueScope,
    IssueView, Kind, ListingPage, PageView, Phase, Value, WaitReason, WorkRecord,
    WorkView,
};
use crate::domain::wire;
use crate::domain::wire::{encode_page, estimate_entry, estimate_issue, estimate_work};
use crate::runtime::memory;
use crate::runtime::memory::{ByteBudget, PoolView, Reservation};
use crate::text;
use crate::text::{byte_len, numeral, same_text};
use crate::text_map;
use crate::text_map::TextMap;

verus! {

broadcast use vstd::set::group_set_axioms;

/// Why the cache refused.
#[derive(Debug, Clone, Copy, PartialEq, Eq, Structural)]
pub enum CacheError {
    TaskExpired,
    CursorExpired,
    InvalidArgument,
    ResourceLimit,
}

/// Which listing a client reads.
#[derive(Debug, PartialEq, Eq)]
pub struct ListingHandle {
    pub task_id: String,
    pub revision: String,
}

/// What a handle says.
#[verifier::ext_equal]
pub struct HandleView {
    pub task_id: Seq<char>,
    pub revision: Seq<char>,
}

impl View for ListingHandle {
    type V = HandleView;

    open spec fn view(&self) -> HandleView {
        HandleView { task_id: self.task_id@, revision: self.revision@ }
    }
}

impl Clone for ListingHandle {
    fn clone(&self) -> (other: Self)
        ensures
            other@ == self@,
    {
        ListingHandle { task_id: self.task_id.clone(), revision: self.revision.clone() }
    }
}

struct PublishedPage {
    offset: usize,
    limit: usize,
    end: usize,
    next_cursor: Option<String>,
}

/// A page that was handed out: the entries from `offset` to `end`, and what comes next.
#[verifier::ext_equal]
pub struct PublishedView {
    pub offset: nat,
    pub limit: nat,
    pub end: nat,
    pub next_cursor: Option<Seq<char>>,
}

impl View for PublishedPage {
    type V = PublishedView;

    closed spec fn view(&self) -> PublishedView {
        PublishedView {
            offset: self.offset as nat,
            limit: self.limit as nat,
            end: self.end as nat,
            next_cursor: text::optional_text(self.next_cursor),
        }
    }
}

/// Where a cursor continues, and the page limit that it is for.
#[derive(Clone, Copy, PartialEq, Eq, Structural)]
struct Mark {
    offset: usize,
    limit: usize,
}

/// Where a cursor continues.
#[verifier::ext_equal]
pub struct MarkView {
    pub offset: nat,
    pub limit: nat,
}

impl View for Mark {
    type V = MarkView;

    closed spec fn view(&self) -> MarkView {
        MarkView { offset: self.offset as nat, limit: self.limit as nat }
    }
}

struct Snapshot {
    work: WorkRecord,
    revision: String,
    category: Category,
    entries: Vec<Entry>,
    pages: Vec<PublishedPage>,
    page_limit: Option<usize>,
    cursors: TextMap<Mark>,
    last_used: u64,
    coverage: Coverage,
    exhausted: bool,
    bytes: usize,
    demand_end: usize,
}

/// One listing: the entries collected so far, the pages and cursors handed out, and how many
/// entries the client has asked for.
#[verifier::ext_equal]
pub struct SnapshotView {
    pub work: WorkView,
    pub revision: Seq<char>,
    pub category: Category,
    pub entries: Seq<EntryView>,
    pub pages: Seq<PublishedView>,
    pub page_limit: Option<usize>,
    pub cursors: Map<Seq<char>, MarkView>,
    pub last_used: u64,
    pub coverage: Coverage,
    pub exhausted: bool,
    pub bytes: nat,
    pub demand_end: nat,
}

impl View for Snapshot {
    type V = SnapshotView;

    closed spec fn view(&self) -> SnapshotView {
        SnapshotView {
            work: self.work@,
            revision: self.revision@,
            category: self.category,
            entries: model::views(self.entries@),
            pages: model::views(self.pages@),
            page_limit: self.page_limit,
            cursors: text_map::shown(self.cursors@),
            last_used: self.last_used,
            coverage: self.coverage,
            exhausted: self.exhausted,
            bytes: self.bytes as nat,
            demand_end: self.demand_end as nat,
        }
    }
}

/// The text of a cursor.
pub open spec fn cursor_text(serial: nat, offset: nat, limit: nat) -> Seq<char> {
    Seq::<char>::empty() + "cursor-"@ + text::decimal(serial) + "-"@ + text::decimal(offset) + "-"@
        + text::decimal(limit)
}

fn cursor_name(serial: u64, offset: usize, limit: usize) -> (name: String)
    ensures
        name@ == cursor_text(serial as nat, offset as nat, limit as nat),
{
    let mut name = String::new();
    name.append("cursor-");
    name.append(numeral(serial as u128).as_str());
    name.append("-");
    name.append(numeral(offset as u128).as_str());
    name.append("-");
    name.append(numeral(limit as u128).as_str());
    name
}

/// A run of digits ends where the first other character stands.
proof fn lemma_split(a: Seq<char>, b: Seq<char>, x: Seq<char>, y: Seq<char>)
    requires
        forall|i: int| 0 <= i < a.len() ==> text::is_digit(#[trigger] a[i]),
        forall|i: int| 0 <= i < b.len() ==> text::is_digit(#[trigger] b[i]),
        a + "-"@ + x == b + "-"@ + y,
    ensures
        a == b,
        x == y,
{
    reveal_strlit("-");
    let l = a + "-"@ + x;
    let r = b + "-"@ + y;
    if a.len() < b.len() {
        assert(l[a.len() as int] == '-');
        assert(r[a.len() as int] == b[a.len() as int]);
        assert(text::is_digit(b[a.len() as int]));
    } else if b.len() < a.len() {
        assert(r[b.len() as int] == '-');
        assert(l[b.len() as int] == a[b.len() as int]);
        assert(text::is_digit(a[b.len() as int]));
    }
    assert forall|i: int| 0 <= i < a.len() implies a[i] == b[i] by {
        assert(l[i] == a[i]);
        assert(r[i] == b[i]);
    }
    assert(a =~= b);
    assert(l.skip(a.len() as int + 1) =~= x);
    assert(r.skip(b.len() as int + 1) =~= y);
}

/// The text of a cursor tells where it continues and for which limit.
pub proof fn lemma_cursor_text(a: nat, b: nat, c: nat, x: nat, y: nat, z: nat)
    requires
        cursor_text(a, b, c) == cursor_text(x, y, z),
    ensures
        a == x,
        b == y,
        c == z,
{
    let head = "cursor-"@;
    let l = text::decimal(b) + "-"@ + text::decimal(c);
    let r = text::decimal(y) + "-"@ + text::decimal(z);
    let left = text::decimal(a) + "-"@ + l;
    let right = text::decimal(x) + "-"@ + r;
    assert(left == right) by {
        assert(cursor_text(a, b, c) =~= head + left);
        assert(cursor_text(x, y, z) =~= head + right);
        assert((head + left).skip(head.len() as int) =~= left);
        assert((head + right).skip(head.len() as int) =~= right);
    }
    lemma_digits(a);
    lemma_digits(x);
    lemma_split(text::decimal(a), text::decimal(x), l, r);
    lemma_digits(b);
    lemma_digits(y);
    lemma_split(text::decimal(b), text::decimal(y), text::decimal(c), text::decimal(z));
    lemma_digits(c);
    lemma_digits(z);
}

/// A numeral is made of digits and tells its number.
proof fn lemma_digits(n: nat)
    ensures
        forall|i: int| 0 <= i < text::decimal(n).len() ==> text::is_digit(
            #[trigger] text::decimal(n)[i],
        ),
        text::number(text::decimal(n)) == n,
{
    text::lemma_decimal(n);
}

/// Where the page with this offset and limit stands among those handed out.
pub open spec fn is_page(pages: Seq<PublishedView>, at: int, offset: nat, limit: nat) -> bool {
    0 <= at < pages.len() && pages[at].offset == offset && pages[at].limit == limit
}

/// The page that was handed out for this offset and limit.
pub open spec fn published(pages: Seq<PublishedView>, offset: nat, limit: nat) -> Option<
    PublishedView,
> {
    if exists|at: int| is_page(pages, at, offset, limit) {
        Some(pages[choose|at: int| is_page(pages, at, offset, limit)])
    } else {
        None
    }
}

/// The first cursor, in the order of their texts, that continues at a mark.
pub open spec fn leads_to(
    cursors: Map<Seq<char>, MarkView>,
    mark: MarkView,
    cursor: Seq<char>,
) -> bool {
    &&& cursors.contains_key(cursor)
    &&& cursors[cursor] == mark
    &&& forall|other: Seq<char>| #[trigger]
        cursors.contains_key(other) && cursors[other] == mark && other != cursor
            ==> text::text_before(cursor, other)
}

/// The cursor that continues at a mark, if one was handed out.
pub open spec fn cursor_to(cursors: Map<Seq<char>, MarkView>, mark: MarkView) -> Option<Seq<char>> {
    if exists|cursor: Seq<char>| leads_to(cursors, mark, cursor) {
        Some(choose|cursor: Seq<char>| leads_to(cursors, mark, cursor))
    } else {
        None
    }
}

impl SnapshotView {
    /// Pages and cursors stay within the entries, no page holds more than its limit or was handed
    /// out twice, the text of a cursor tells where it continues, and what a page announces as next
    /// is a cursor that continues where the page ends. A page that announces none is the last of a
    /// finished listing.
    pub open spec fn wf(self) -> bool {
        &&& forall|i: int|
            0 <= i < self.pages.len() ==> (#[trigger] self.pages[i]).offset <= self.pages[i].end
                <= self.entries.len() && self.pages[i].end <= self.pages[i].offset
                + self.pages[i].limit
        &&& forall|i: int|
            0 <= i < self.pages.len() && (#[trigger] self.pages[i]).next_cursor is None
                ==> self.exhausted && self.pages[i].end == self.entries.len()
        &&& forall|i: int, j: int|
            #![trigger self.pages[i], self.pages[j]]
            0 <= i < self.pages.len() && 0 <= j < self.pages.len() && self.pages[i].offset
                == self.pages[j].offset && self.pages[i].limit == self.pages[j].limit ==> i == j
        &&& forall|cursor: Seq<char>| #[trigger]
            self.cursors.contains_key(cursor) ==> self.cursors[cursor].offset <= self.entries.len()
                && exists|serial: nat|
                cursor == #[trigger] cursor_text(
                    serial,
                    self.cursors[cursor].offset,
                    self.cursors[cursor].limit,
                )
        &&& forall|i: int|
            0 <= i < self.pages.len() && (#[trigger] self.pages[i]).next_cursor is Some
                ==> self.cursors.contains_key(self.pages[i].next_cursor->0)
                && self.cursors[self.pages[i].next_cursor->0] == (MarkView {
                offset: self.pages[i].end,
                limit: self.pages[i].limit,
            })
    }

    /// Whether the snapshot is the listing of this directory and category.
    pub open spec fn answers(
        self,
        session_id: Seq<char>,
        generation: u64,
        target_id: Seq<char>,
        category: Category,
    ) -> bool {
        &&& self.work.session_id == session_id
        &&& self.work.generation == generation
        &&& self.work.target_id == target_id
        &&& self.category == category
    }

    /// Whether the snapshot was used within the time to live.
    pub open spec fn alive(self, now: u64, ttl_ms: u64) -> bool {
        controller::elapsed(now, self.last_used) < ttl_ms
    }
}

/// Whether this is the snapshot that was used least recently, apart from a protected one; among
/// equals the first in the order of the ids.
pub open spec fn is_oldest(
    snapshots: Map<Seq<char>, SnapshotView>,
    protected: Option<Seq<char>>,
    id: Seq<char>,
) -> bool {
    &&& snapshots.contains_key(id)
    &&& Some(id) != protected
    &&& forall|other: Seq<char>| #[trigger]
        snapshots.contains_key(other) && Some(other) != protected && other != id ==> (
        snapshots[id].last_used < snapshots[other].last_used || (snapshots[id].last_used
            == snapshots[other].last_used && text::text_before(id, other)))
}

/// What all snapshots together are charged for.
pub open spec fn charged_bytes(snapshots: Map<Seq<char>, SnapshotView>) -> nat {
    text_map::sum_of(text_map::rows_of(snapshots), |snapshot: SnapshotView| snapshot.bytes)
}

/// The snapshots by task id, and the limits.
#[verifier::ext_equal]
pub struct CacheView {
    pub snapshots: Map<Seq<char>, SnapshotView>,
    pub serial: u64,
    pub eviction_epoch: u64,
    pub limit: usize,
    pub ttl_ms: u64,
    pub message_limit: usize,
}

/// `n` more, as far as 64 bits go.
pub open spec fn advanced(epoch: u64, n: nat) -> u64 {
    if epoch + n <= u64::MAX {
        (epoch + n) as u64
    } else {
        u64::MAX
    }
}

impl CacheView {
    /// Every snapshot is in order and stands under its task id, and no two are the listing of
    /// the same directory and category.
    pub open spec fn wf(self) -> bool {
        &&& self.snapshots.dom().finite()
        &&& forall|id: Seq<char>| #[trigger]
            self.snapshots.contains_key(id) ==> self.snapshots[id].wf()
                && self.snapshots[id].work.task_id == id
        &&& forall|a: Seq<char>, b: Seq<char>|
            #![trigger self.snapshots.contains_key(a), self.snapshots.contains_key(b)]
            self.snapshots.contains_key(a) && self.snapshots.contains_key(b)
                && self.snapshots[b].answers(
                self.snapshots[a].work.session_id,
                self.snapshots[a].work.generation,
                self.snapshots[a].work.target_id,
                self.snapshots[a].category,
            ) ==> a == b
    }

    /// What the cache is charged for.
    pub open spec fn used(self) -> nat {
        charged_bytes(self.snapshots)
    }

    /// The cache with one snapshot replaced.
    pub open spec fn with(self, id: Seq<char>, snapshot: SnapshotView) -> CacheView {
        CacheView { snapshots: self.snapshots.insert(id, snapshot), ..self }
    }

    /// The cache without one snapshot.
    pub open spec fn without(self, id: Seq<char>) -> CacheView {
        CacheView {
            snapshots: self.snapshots.remove(id),
            eviction_epoch: advanced(self.eviction_epoch, 1),
            ..self
        }
    }

    /// The cache without the snapshots that were not used for the time to live.
    pub open spec fn expired(self, now: u64) -> CacheView {
        let alive = self.snapshots.restrict(
            Set::new(
                |id: Seq<char>|
                    self.snapshots.contains_key(id) && self.snapshots[id].alive(now, self.ttl_ms),
            ),
        );
        CacheView {
            snapshots: alive,
            eviction_epoch: advanced(
                self.eviction_epoch,
                (self.snapshots.len() - alive.len()) as nat,
            ),
            ..self
        }
    }

    /// Whether `bytes` more fit the cache's own limit and its pool, of which others hold
    /// `others`.
    pub open spec fn admits(self, pool_limit: nat, others: nat, bytes: nat) -> bool {
        &&& self.used() + bytes <= self.limit
        &&& others + self.used() + bytes <= pool_limit
    }

    /// The cache after as many snapshots were evicted, the least recently used first, as it
    /// takes to fit `bytes` more; a protected snapshot stays.
    pub open spec fn evicted(
        self,
        pool_limit: nat,
        others: nat,
        bytes: nat,
        protected: Option<Seq<char>>,
    ) -> CacheView
        decreases self.snapshots.len(),
    {
        if bytes > self.limit || self.admits(pool_limit, others, bytes)
            || !self.snapshots.dom().finite() || !exists|id: Seq<char>|
            is_oldest(self.snapshots, protected, id) {
            self
        } else {
            self.without(
                choose|id: Seq<char>| is_oldest(self.snapshots, protected, id),
            ).evicted(pool_limit, others, bytes, protected)
        }
    }
}

/// What a new listing is charged beside its work record: room for the issues and the page
/// records to come.
pub const START_BYTES: usize = 69632;

/// What a collected entry is charged beside itself: its future page and cursor records.
pub const ENTRY_BYTES: usize = 1024;

/// How many entries are collected before the first page is asked for: a default page plus one
/// page of lookahead.
pub const FIRST_DEMAND: usize = 400;

/// The bounded store of listings.
pub struct ListingCache {
    snapshots: TextMap<Snapshot>,
    serial: u64,
    eviction_epoch: u64,
    used: usize,
    pub limit: usize,
    ttl_ms: u64,
    message_limit: usize,
    reservation: Reservation,
}

impl View for ListingCache {
    type V = CacheView;

    closed spec fn view(&self) -> CacheView {
        CacheView {
            snapshots: text_map::shown(self.snapshots@),
            serial: self.serial,
            eviction_epoch: self.eviction_epoch,
            limit: self.limit,
            ttl_ms: self.ttl_ms,
            message_limit: self.message_limit,
        }
    }
}

spec fn row_bytes(rows: Seq<(Seq<char>, Snapshot)>) -> nat {
    text_map::sum_of(rows, |snapshot: Snapshot| snapshot@.bytes)
}

impl ListingCache {
    /// The snapshots are in order and the cache holds what they are charged for.
    pub closed spec fn wf(&self) -> bool {
        &&& self.snapshots.wf()
        &&& self@.wf()
        &&& self.used == row_bytes(self.snapshots.rows())
        &&& self.used == self.reservation.size()
        &&& forall|id: Seq<char>| #[trigger]
            self.snapshots@.contains_key(id) ==> self.snapshots@[id].cursors.wf()
    }

    /// The pool has the cache's hold on its books.
    pub closed spec fn backed(&self, pool: &ByteBudget) -> bool {
        pool.wf() && pool.holds(&self.reservation)
    }

    /// A cache is backed by every pool whose books are in order and give its hold what it uses.
    pub proof fn lemma_backed(&self, pool: &ByteBudget)
        requires
            self.wf(),
        ensures
            self.backed(pool) <==> pool.wf() && 0 <= self.hold() < pool@.sizes.len()
                && pool@.sizes[self.hold()] == self@.used(),
    {
        self.lemma_used();
    }

    /// Which reservation of the pool is the cache's.
    pub closed spec fn hold(&self) -> int {
        self.reservation.id()
    }

    /// What others hold in the pool.
    pub open spec fn others(&self, pool: PoolView) -> nat {
        (pool.used - self@.used()) as nat
    }

    /// A well-formed cache holds what its snapshots are charged for.
    pub proof fn lemma_wf(&self, pool: &ByteBudget)
        requires
            self.wf(),
            self.backed(pool),
        ensures
            self@.wf(),
            self@.used() <= pool@.used,
            self@.used() <= usize::MAX,
            pool@.sizes[self.hold()] == self@.used(),
            0 <= self.hold() < pool@.sizes.len(),
            pool@ == pool@.resized(self.hold(), self@.used()),
    {
        self.lemma_used();
        memory::lemma_total_update(pool@.sizes, self.hold(), 0);
        assert(pool@ =~= pool@.resized(self.hold(), self@.used()));
    }

    proof fn lemma_used(&self)
        requires
            self.wf(),
        ensures
            self@.used() == self.used,
            self@.used() == row_bytes(self.snapshots.rows()),
    {
        let rows = self.snapshots.rows();
        text_map::lemma_shown_rows(rows);
        text_map::lemma_sum_shown(rows, |snapshot: SnapshotView| snapshot.bytes);
        assert(text_map::sum_of(
            rows,
            |snapshot: Snapshot| (|shown: SnapshotView| shown.bytes)(snapshot@),
        ) == row_bytes(rows)) by {
            lemma_same_measure(rows);
        }
    }
}

proof fn lemma_same_measure(rows: Seq<(Seq<char>, Snapshot)>)
    ensures
        text_map::sum_of(
            rows,
            |snapshot: Snapshot| (|shown: SnapshotView| shown.bytes)(snapshot@),
        ) == row_bytes(rows),
    decreases rows.len(),
{
    if rows.len() > 0 {
        lemma_same_measure(rows.drop_last());
    }
}

/// Replacing one snapshot by one of the same listing leaves the cache in order.
proof fn lemma_replaced(before: ListingCache, after: ListingCache, at: int, snapshot: Snapshot)
    requires
        before.wf(),
        0 <= at < before.snapshots.rows().len(),
        after.snapshots.wf(),
        after.snapshots.rows() == before.snapshots.rows().update(
            at,
            (before.snapshots.rows()[at].0, snapshot),
        ),
        after.snapshots@ == before.snapshots@.insert(before.snapshots.rows()[at].0, snapshot),
        after.used == before.used - before.snapshots.rows()[at].1@.bytes + snapshot@.bytes,
        after.reservation.size() == after.used,
        snapshot@.wf(),
        snapshot.cursors.wf(),
        snapshot@.work.task_id == before.snapshots.rows()[at].0,
        snapshot@.answers(
            before.snapshots.rows()[at].1@.work.session_id,
            before.snapshots.rows()[at].1@.work.generation,
            before.snapshots.rows()[at].1@.work.target_id,
            before.snapshots.rows()[at].1@.category,
        ),
    ensures
        after.wf(),
        after@.snapshots == before@.snapshots.insert(before.snapshots.rows()[at].0, snapshot@),
        after@.used() == before@.used() - before.snapshots.rows()[at].1@.bytes + snapshot@.bytes,
        before@.snapshots.contains_key(before.snapshots.rows()[at].0),
        before@.snapshots[before.snapshots.rows()[at].0] == before.snapshots.rows()[at].1@,
{
    let rows = before.snapshots.rows();
    let id = rows[at].0;
    text_map::lemma_map_of(rows);
    text_map::lemma_sum_update(
        rows,
        at,
        (id, snapshot),
        |snapshot: Snapshot| snapshot@.bytes,
    );
    assert(before@.snapshots.contains_key(id));
    let now = after@.snapshots;
    assert(now =~= before@.snapshots.insert(id, snapshot@));
    assert forall|key: Seq<char>| #[trigger] now.contains_key(key) implies now[key].wf()
        && now[key].work.task_id == key by {
        if key != id {
            assert(before@.snapshots.contains_key(key));
        }
    }
    assert forall|a: Seq<char>, b: Seq<char>|
        #![trigger now.contains_key(a), now.contains_key(b)]
        now.contains_key(a) && now.contains_key(b) && now[b].answers(
            now[a].work.session_id,
            now[a].work.generation,
            now[a].work.target_id,
            now[a].category,
        ) implies a == b by {
        assert(before@.snapshots.contains_key(a));
        assert(before@.snapshots.contains_key(b));
    }
    assert forall|key: Seq<char>| #[trigger] after.snapshots@.contains_key(
        key,
    ) implies after.snapshots@[key].cursors.wf() by {
        if key != id {
            assert(before.snapshots@.contains_key(key));
        }
    }
    before.lemma_used();
    after.lemma_used();
}

impl ListingCache {
    /// An empty cache with a pool of its own.
    pub fn new(limit: usize, ttl_ms: u64, message_limit: usize) -> (created: (Self, ByteBudget))
        ensures
            created.0.wf(),
            created.0.backed(&created.1),
            created.1.wf(),
            created.0@ == CacheView::fresh(limit, ttl_ms, message_limit),
            created.1@.limit == limit,
            created.1@.used == 0,
    {
        let mut pool = ByteBudget::new(limit);
        let cache = Self::with_budget(&mut pool, ttl_ms, message_limit);
        (cache, pool)
    }

    /// An empty cache in a shared pool, whose limit is also its own.
    pub fn with_budget(pool: &mut ByteBudget, ttl_ms: u64, message_limit: usize) -> (cache: Self)
        requires
            old(pool).wf(),
        ensures
            cache.wf(),
            cache.backed(final(pool)),
            final(pool).wf(),
            cache.hold() == old(pool)@.sizes.len(),
            cache@ == CacheView::fresh(old(pool)@.limit as usize, ttl_ms, message_limit),
            final(pool)@ == old(pool)@.reserved(0),
    {
        let limit: usize = pool.limit();
        let reservation = reserve_nothing(pool);
        let cache = ListingCache {
            snapshots: TextMap::new(),
            serial: 0,
            eviction_epoch: 0,
            used: 0,
            limit,
            ttl_ms,
            message_limit,
            reservation,
        };
        assert(cache@ =~= CacheView::fresh(limit, ttl_ms, message_limit));
        assert(cache@.snapshots.dom() =~= Set::<Seq<char>>::empty());
        cache
    }

    /// What the cache holds in its pool.
    pub fn managed_bytes(&self) -> (bytes: usize)
        requires
            self.wf(),
        ensures
            bytes == self@.used(),
    {
        proof {
            self.lemma_used();
        }
        self.used
    }

    /// The number of listings.
    pub fn len(&self) -> (len: usize)
        requires
            self.wf(),
        ensures
            len == self@.snapshots.len(),
    {
        let len: usize = self.snapshots.len();
        assert(self@.snapshots.dom() =~= self.snapshots@.dom());
        len
    }

    /// Whether there is no listing.
    pub fn is_empty(&self) -> (empty: bool)
        requires
            self.wf(),
        ensures
            empty == (self@.snapshots.len() == 0),
    {
        self.len() == 0
    }

    fn discard(&mut self, pool: &mut ByteBudget, at: usize)
        requires
            old(self).wf(),
            old(self).backed(old(pool)),
            at < old(self).snapshots.rows().len(),
        ensures
            final(self).wf(),
            final(self).backed(final(pool)),
            final(pool).wf(),
            final(self).hold() == old(self).hold(),
            final(self).snapshots.rows() == old(self).snapshots.rows().remove(at as int),
            final(self)@ == old(self)@.without(old(self).snapshots.rows()[at as int].0),
            final(self)@.used() <= old(self)@.used(),
            final(pool)@ == old(pool)@.resized(old(self).hold(), final(self)@.used()),
            old(self).others(old(pool)@) == final(self).others(final(pool)@),
    {
        let ghost before = *self;
        let ghost rows = self.snapshots.rows();
        proof {
            before.lemma_used();
            before.lemma_wf(pool);
            text_map::lemma_map_of(rows);
            text_map::lemma_sum_remove(rows, at as int, |snapshot: Snapshot| snapshot@.bytes);
        }
        let row = self.snapshots.remove_at(at);
        self.used = self.used - row.1.bytes;
        let shrunk = self.reservation.resize(pool, self.used);
        assert(shrunk is Ok);
        self.eviction_epoch = self.eviction_epoch.saturating_add(1);
        proof {
            let now = self@.snapshots;
            let id = rows[at as int].0;
            assert(now =~= before@.snapshots.remove(id));
            assert forall|key: Seq<char>| #[trigger] now.contains_key(key) implies now[key].wf()
                && now[key].work.task_id == key by {
                assert(before@.snapshots.contains_key(key));
            }
            assert forall|a: Seq<char>, b: Seq<char>|
                #![trigger now.contains_key(a), now.contains_key(b)]
                now.contains_key(a) && now.contains_key(b) && now[b].answers(
                    now[a].work.session_id,
                    now[a].work.generation,
                    now[a].work.target_id,
                    now[a].category,
                ) implies a == b by {
                assert(before@.snapshots.contains_key(a));
                assert(before@.snapshots.contains_key(b));
            }
            assert forall|key: Seq<char>| #[trigger] self.snapshots@.contains_key(
                key,
            ) implies self.snapshots@[key].cursors.wf() by {
                assert(before.snapshots@.contains_key(key));
            }
            self.lemma_used();
            assert(pool@ =~= old(pool)@.resized(before.hold(), self@.used()));
        }
    }

    /// Drops the listings that nobody read for the time to live.
    pub fn expire(&mut self, pool: &mut ByteBudget, now: u64)
        requires
            old(self).wf(),
            old(self).backed(old(pool)),
        ensures
            final(self).wf(),
            final(self).backed(final(pool)),
            final(pool).wf(),
            final(self).hold() == old(self).hold(),
            final(self)@ == old(self)@.expired(now),
            final(self)@.used() <= old(self)@.used(),
            final(pool)@ == old(pool)@.resized(old(self).hold(), final(self)@.used()),
            old(self).others(old(pool)@) == final(self).others(final(pool)@),
    {
        let ghost before = *self;
        let ttl_ms = self.ttl_ms;
        let mut i: usize = 0;
        proof {
            before.lemma_wf(pool);
            assert(pool@ =~= old(pool)@.resized(before.hold(), self@.used()));
            text_map::lemma_map_of(self.snapshots.rows());
            assert(self@.snapshots.dom() =~= self.snapshots@.dom());
        }
        while i < self.snapshots.len()
            invariant
                self.wf(),
                self.backed(pool),
                before.wf(),
                self.hold() == before.hold(),
                ttl_ms == before@.ttl_ms,
                self@ == (CacheView {
                    snapshots: self@.snapshots,
                    eviction_epoch: self@.eviction_epoch,
                    ..before@
                }),
                self@.used() <= before@.used(),
                pool@ == old(pool)@.resized(before.hold(), self@.used()),
                old(pool)@.wf(),
                0 <= before.hold() < old(pool)@.sizes.len(),
                old(pool)@.sizes[before.hold()] == before@.used(),
                before.others(old(pool)@) == self.others(pool@),
                i <= self.snapshots.rows().len(),
                self.snapshots.rows().len() == self@.snapshots.len(),
                self@.snapshots.len() <= before@.snapshots.len(),
                self@.eviction_epoch == advanced(
                    before@.eviction_epoch,
                    (before@.snapshots.len() - self@.snapshots.len()) as nat,
                ),
                forall|id: Seq<char>| #[trigger]
                    self@.snapshots.contains_key(id) ==> before@.snapshots.contains_key(id)
                        && self@.snapshots[id] == before@.snapshots[id],
                forall|id: Seq<char>| #[trigger]
                    before@.snapshots.contains_key(id) && before@.snapshots[id].alive(now, ttl_ms)
                        ==> self@.snapshots.contains_key(id),
                forall|j: int|
                    0 <= j < i ==> (#[trigger] self.snapshots.rows()[j]).1@.alive(now, ttl_ms),
            decreases self.snapshots.rows().len() - i,
        {
            let ghost rows = self.snapshots.rows();
            let ghost middle = *self;
            proof {
                text_map::lemma_map_of(rows);
                middle.lemma_wf(pool);
            }
            let last_used = self.snapshots.value_at(i).last_used;
            assert(self@.snapshots.contains_key(rows[i as int].0));
            assert(self@.snapshots[rows[i as int].0] == rows[i as int].1@);
            if now.saturating_sub(last_used) >= ttl_ms {
                self.discard(pool, i);
                proof {
                    text_map::lemma_map_of(self.snapshots.rows());
                    assert(self@.snapshots.dom() =~= self.snapshots@.dom());
                    memory::shrinking_first_makes_no_difference(
                        old(pool)@,
                        before.hold(),
                        middle@.used(),
                        self@.used(),
                    );
                    assert forall|j: int| 0 <= j < i implies (
                    #[trigger] self.snapshots.rows()[j]).1@.alive(now, ttl_ms) by {
                        assert(self.snapshots.rows()[j] == rows[j]);
                    }
                }
            } else {
                i = i + 1;
            }
        }
        proof {
            let rows = self.snapshots.rows();
            text_map::lemma_map_of(rows);
            let wanted = before@.expired(now);
            assert(self@.snapshots =~= wanted.snapshots) by {
                assert forall|id: Seq<char>| #[trigger]
                    self@.snapshots.contains_key(id) implies self@.snapshots[id].alive(
                    now,
                    ttl_ms,
                ) by {
                    assert(self.snapshots@.contains_key(id));
                    let j = choose|j: int| 0 <= j < rows.len() && (#[trigger] rows[j]).0 == id;
                    assert(rows[j].1@.alive(now, ttl_ms));
                }
            }
            assert(self@ =~= wanted);
        }
    }
}

impl CacheView {
    /// No listings yet.
    pub open spec fn fresh(limit: usize, ttl_ms: u64, message_limit: usize) -> CacheView {
        CacheView {
            snapshots: Map::empty(),
            serial: 0,
            eviction_epoch: 0,
            limit,
            ttl_ms,
            message_limit,
        }
    }
}

/// Only one snapshot is the oldest.
proof fn lemma_oldest_unique(
    snapshots: Map<Seq<char>, SnapshotView>,
    protected: Option<Seq<char>>,
    a: Seq<char>,
    b: Seq<char>,
)
    requires
        is_oldest(snapshots, protected, a),
        is_oldest(snapshots, protected, b),
    ensures
        a == b,
{
    if a != b && snapshots[a].last_used == snapshots[b].last_used {
        text::lemma_text_before_asymmetric(a, b);
    }
}

/// The content of an optional borrowed text.
pub open spec fn optional_str(text: Option<&str>) -> Option<Seq<char>> {
    match text {
        Some(text) => Some(text@),
        None => None,
    }
}

impl ListingCache {
    fn oldest(&self, protected: Option<&str>) -> (at: Option<usize>)
        requires
            self.wf(),
        ensures
            match at {
                Some(at) => at < self.snapshots.rows().len() && is_oldest(
                    self@.snapshots,
                    optional_str(protected),
                    self.snapshots.rows()[at as int].0,
                ),
                None => !exists|id: Seq<char>|
                    is_oldest(self@.snapshots, optional_str(protected), id),
            },
    {
        let ghost rows = self.snapshots.rows();
        let ghost kept = optional_str(protected);
        proof {
            text_map::lemma_map_of(rows);
            text_map::lemma_unique(rows);
        }
        let len: usize = self.snapshots.len();
        let mut best: Option<usize> = None;
        let mut i: usize = 0;
        while i < len
            invariant
                i <= len,
                len == rows.len(),
                rows == self.snapshots.rows(),
                kept == optional_str(protected),
                self.wf(),
                best matches Some(at) ==> at < i && Some(rows[at as int].0) != kept,
                best matches Some(at) ==> forall|j: int|
                    0 <= j < i && Some((#[trigger] rows[j]).0) != kept && j != at ==> (
                    rows[at as int].1@.last_used < rows[j].1@.last_used || (
                    rows[at as int].1@.last_used == rows[j].1@.last_used && at < j)),
                best is None ==> forall|j: int|
                    0 <= j < i ==> Some((#[trigger] rows[j]).0) == kept,
            decreases len - i,
        {
            let skipped = match protected {
                Some(protected) => same_text(self.snapshots.key_at(i).as_str(), protected),
                None => false,
            };
            assert(skipped == (Some(rows[i as int].0) == kept));
            if !skipped {
                let used = self.snapshots.value_at(i).last_used;
                let better = match best {
                    Some(at) => used < self.snapshots.value_at(at).last_used,
                    None => true,
                };
                if better {
                    best = Some(i);
                }
            }
            i = i + 1;
        }
        proof {
            match best {
                Some(at) => {
                    let id = rows[at as int].0;
                    assert(self@.snapshots.contains_key(id));
                    assert forall|other: Seq<char>| #[trigger]
                        self@.snapshots.contains_key(other) && Some(other) != kept && other
                            != id implies (self@.snapshots[id].last_used
                        < self@.snapshots[other].last_used || (self@.snapshots[id].last_used
                        == self@.snapshots[other].last_used && text::text_before(id, other))) by {
                        assert(self.snapshots@.contains_key(other));
                        let j = choose|j: int|
                            0 <= j < rows.len() && (#[trigger] rows[j]).0 == other;
                        assert(self@.snapshots[other] == rows[j].1@);
                        assert(self@.snapshots[id] == rows[at as int].1@);
                    }
                },
                None => {
                    assert forall|id: Seq<char>| !is_oldest(self@.snapshots, kept, id) by {
                        if self@.snapshots.contains_key(id) {
                            assert(self.snapshots@.contains_key(id));
                            let j = choose|j: int|
                                0 <= j < rows.len() && (#[trigger] rows[j]).0 == id;
                        }
                    }
                },
            }
        }
        best
    }

    /// Evicts until `bytes` more fit, if they can be made to fit.
    fn make_room(&mut self, pool: &mut ByteBudget, bytes: usize, protected: Option<&str>) -> (room:
        bool)
        requires
            old(self).wf(),
            old(self).backed(old(pool)),
        ensures
            final(self).wf(),
            final(self).backed(final(pool)),
            final(pool).wf(),
            final(self).hold() == old(self).hold(),
            final(self)@ == old(self)@.evicted(
                old(pool)@.limit,
                old(self).others(old(pool)@),
                bytes as nat,
                optional_str(protected),
            ),
            room == (bytes <= old(self)@.limit && final(self)@.admits(
                old(pool)@.limit,
                old(self).others(old(pool)@),
                bytes as nat,
            )),
            final(self)@.used() <= old(self)@.used(),
            final(pool)@ == old(pool)@.resized(old(self).hold(), final(self)@.used()),
            old(self).others(old(pool)@) == final(self).others(final(pool)@),
            final(pool)@.limit == old(pool)@.limit,
    {
        let ghost before = *self;
        let ghost others = self.others(pool@);
        let ghost kept = optional_str(protected);
        proof {
            before.lemma_wf(pool);
            before.lemma_used();
        }
        if bytes > self.limit {
            return false;
        }
        loop
            invariant
                self.wf(),
                self.backed(pool),
                before.wf(),
                self.hold() == before.hold(),
                bytes <= before@.limit,
                self@.limit == before@.limit,
                self@.used() <= before@.used(),
                old(pool)@.wf(),
                pool@.limit == old(pool)@.limit,
                0 <= before.hold() < old(pool)@.sizes.len(),
                old(pool)@.sizes[before.hold()] == before@.used(),
                pool@ == old(pool)@.resized(before.hold(), self@.used()),
                others == before.others(old(pool)@),
                others == self.others(pool@),
                kept == optional_str(protected),
                before@ == old(self)@,
                before.hold() == old(self).hold(),
                self@.evicted(old(pool)@.limit, others, bytes as nat, kept) == before@.evicted(
                    old(pool)@.limit,
                    others,
                    bytes as nat,
                    kept,
                ),
            decreases self@.snapshots.len(),
        {
            let ghost middle = *self;
            proof {
                middle.lemma_wf(pool);
                middle.lemma_used();
            }
            let total = self.used.checked_add(bytes);
            if let Some(total) = total {
                if total <= self.limit && bytes <= pool.limit() - pool.used() {
                    assert(self@.admits(old(pool)@.limit, others, bytes as nat));
                    return true;
                }
            }
            assert(!self@.admits(old(pool)@.limit, others, bytes as nat));
            match self.oldest(protected) {
                None => {
                    return false;
                },
                Some(at) => {
                    proof {
                        let id = self.snapshots.rows()[at as int].0;
                        let chosen = choose|id: Seq<char>| is_oldest(self@.snapshots, kept, id);
                        lemma_oldest_unique(self@.snapshots, kept, id, chosen);
                    }
                    self.discard(pool, at);
                    proof {
                        memory::shrinking_first_makes_no_difference(
                            old(pool)@,
                            before.hold(),
                            middle@.used(),
                            self@.used(),
                        );
                    }
                },
            }
        }
    }

    /// Takes `bytes` more from the pool, which has the room.
    fn grow(&mut self, pool: &mut ByteBudget, bytes: usize)
        requires
            old(self).wf(),
            old(self).backed(old(pool)),
            old(self)@.admits(old(pool)@.limit, old(self).others(old(pool)@), bytes as nat),
        ensures
            *final(self) == (ListingCache {
                used: (old(self).used + bytes) as usize,
                reservation: final(self).reservation,
                ..*old(self)
            }),
            old(self).used + bytes <= usize::MAX,
            old(self).used == old(self)@.used(),
            final(self).reservation.size() == old(self).used + bytes,
            final(self).backed(final(pool)),
            final(pool).wf(),
            final(self).hold() == old(self).hold(),
            final(pool)@ == old(pool)@.resized(old(self).hold(), old(self)@.used() + bytes as nat),
    {
        proof {
            self.lemma_wf(pool);
            self.lemma_used();
        }
        self.used = self.used + bytes;
        let grown = self.reservation.resize(pool, self.used);
        assert(grown is Ok);
    }
}

/// The fixed part of a snapshot's memory.
pub closed spec fn snapshot_size() -> nat {
    vstd::layout::size_of::<Snapshot>()
}

/// The text of a revision.
pub open spec fn revision_text(serial: nat) -> Seq<char> {
    Seq::<char>::empty() + "listing-"@ + text::decimal(serial)
}

fn revision_name(serial: u64) -> (name: String)
    ensures
        name@ == revision_text(serial as nat),
{
    let mut name = String::new();
    name.append("listing-");
    name.append(numeral(serial as u128).as_str());
    name
}

/// What a new listing is charged, when the text of its revision has allocated `capacity` bytes.
pub open spec fn start_cost(work: WorkView, capacity: nat) -> nat {
    wire::clip(
        wire::work_estimate(work) + 2 * capacity + 2 * snapshot_size() + START_BYTES as nat,
    )
}

/// The work record of a listing that has just been asked for.
pub open spec fn queued(work: WorkView) -> WorkView {
    WorkView { phase: Phase::Queued, ..work }
}

/// A listing without entries.
pub open spec fn empty_snapshot(
    work: WorkView,
    revision: Seq<char>,
    category: Category,
    now: u64,
    bytes: nat,
) -> SnapshotView {
    SnapshotView {
        work,
        revision,
        category,
        entries: Seq::empty(),
        pages: Seq::empty(),
        page_limit: None,
        cursors: Map::empty(),
        last_used: now,
        coverage: Coverage::Partial,
        exhausted: false,
        bytes,
        demand_end: FIRST_DEMAND as nat,
    }
}

impl CacheView {
    /// Whether this is the listing of the work's directory and of this category.
    pub open spec fn is_listing(self, work: WorkView, category: Category, id: Seq<char>) -> bool {
        self.snapshots.contains_key(id) && self.snapshots[id].answers(
            work.session_id,
            work.generation,
            work.target_id,
            category,
        )
    }

    /// The cache after a listing was asked for, and the answer. A listing that is there is
    /// handed out again; a new one needs a task id of its own and room in the cache.
    pub open spec fn started(
        self,
        pool_limit: nat,
        others: nat,
        work: WorkView,
        category: Category,
        now: u64,
        capacity: nat,
    ) -> (CacheView, Result<HandleView, CacheError>) {
        let cache = self.expired(now);
        if exists|id: Seq<char>| cache.is_listing(work, category, id) {
            let id = choose|id: Seq<char>| cache.is_listing(work, category, id);
            let snapshot = cache.snapshots[id];
            (
                cache.with(id, SnapshotView { last_used: now, ..snapshot }),
                Ok(HandleView { task_id: id, revision: snapshot.revision }),
            )
        } else if cache.snapshots.contains_key(work.task_id) {
            (cache, Err(CacheError::InvalidArgument))
        } else if cache.serial == u64::MAX {
            (cache, Err(CacheError::ResourceLimit))
        } else {
            let revision = revision_text((cache.serial + 1) as nat);
            let bytes = start_cost(queued(work), capacity);
            let numbered = CacheView { serial: (cache.serial + 1) as u64, ..cache };
            let roomy = numbered.evicted(pool_limit, others, bytes, None);
            if bytes <= cache.limit && roomy.admits(pool_limit, others, bytes) {
                (
                    roomy.with(
                        work.task_id,
                        empty_snapshot(queued(work), revision, category, now, bytes),
                    ),
                    Ok(HandleView { task_id: work.task_id, revision }),
                )
            } else {
                (roomy, Err(CacheError::ResourceLimit))
            }
        }
    }
}

/// Evictions only take snapshots away, and never the protected one.
pub proof fn evictions_only_remove(
    cache: CacheView,
    pool_limit: nat,
    others: nat,
    bytes: nat,
    protected: Option<Seq<char>>,
)
    requires
        cache.wf(),
    ensures
        ({
            let after = cache.evicted(pool_limit, others, bytes, protected);
            &&& after.wf()
            &&& after.limit == cache.limit
            &&& after.serial == cache.serial
            &&& after.ttl_ms == cache.ttl_ms
            &&& after.message_limit == cache.message_limit
            &&& forall|id: Seq<char>| #[trigger]
                after.snapshots.contains_key(id) ==> cache.snapshots.contains_key(id)
                    && after.snapshots[id] == cache.snapshots[id]
            &&& protected is Some && cache.snapshots.contains_key(protected->0)
                ==> after.snapshots.contains_key(protected->0)
        }),
    decreases cache.snapshots.len(),
{
    if bytes <= cache.limit && !cache.admits(pool_limit, others, bytes) && exists|id: Seq<char>|
        is_oldest(cache.snapshots, protected, id) {
        let id = choose|id: Seq<char>| is_oldest(cache.snapshots, protected, id);
        let next = cache.without(id);
        lemma_without_wf(cache, id);
        evictions_only_remove(next, pool_limit, others, bytes, protected);
    }
}

proof fn lemma_without_wf(cache: CacheView, id: Seq<char>)
    requires
        cache.wf(),
    ensures
        cache.without(id).wf(),
{
    let next = cache.without(id).snapshots;
    assert forall|key: Seq<char>| #[trigger] next.contains_key(key) implies next[key].wf()
        && next[key].work.task_id == key by {
        assert(cache.snapshots.contains_key(key));
    }
    assert forall|a: Seq<char>, b: Seq<char>|
        #![trigger next.contains_key(a), next.contains_key(b)]
        next.contains_key(a) && next.contains_key(b) && next[b].answers(
            next[a].work.session_id,
            next[a].work.generation,
            next[a].work.target_id,
            next[a].category,
        ) implies a == b by {
        assert(cache.snapshots.contains_key(a));
        assert(cache.snapshots.contains_key(b));
    }
}

/// A new snapshot under a free id leaves the cache in order.
proof fn lemma_inserted(before: ListingCache, after: ListingCache, id: Seq<char>, snapshot: Snapshot)
    requires
        before.wf(),
        !before.snapshots@.contains_key(id),
        after.snapshots.wf(),
        exists|at: int|
            0 <= at <= before.snapshots.rows().len() && after.snapshots.rows()
                == #[trigger] before.snapshots.rows().insert(at, (id, snapshot)),
        after.snapshots@ == before.snapshots@.insert(id, snapshot),
        after.used == before.used + snapshot@.bytes,
        after.reservation.size() == after.used,
        snapshot@.wf(),
        snapshot.cursors.wf(),
        snapshot@.work.task_id == id,
        forall|other: Seq<char>| !before@.is_listing(snapshot@.work, snapshot@.category, other),
    ensures
        after.wf(),
        after@.snapshots == before@.snapshots.insert(id, snapshot@),
        after@.used() == before@.used() + snapshot@.bytes,
{
    let rows = before.snapshots.rows();
    let at = choose|at: int|
        0 <= at <= rows.len() && after.snapshots.rows() == #[trigger] rows.insert(
            at,
            (id, snapshot),
        );
    text_map::lemma_sum_insert(rows, at, (id, snapshot), |snapshot: Snapshot| snapshot@.bytes);
    let now = after@.snapshots;
    assert(now =~= before@.snapshots.insert(id, snapshot@));
    assert forall|key: Seq<char>| #[trigger] now.contains_key(key) implies now[key].wf()
        && now[key].work.task_id == key by {
        if key != id {
            assert(before@.snapshots.contains_key(key));
        }
    }
    assert forall|a: Seq<char>, b: Seq<char>|
        #![trigger now.contains_key(a), now.contains_key(b)]
        now.contains_key(a) && now.contains_key(b) && now[b].answers(
            now[a].work.session_id,
            now[a].work.generation,
            now[a].work.target_id,
            now[a].category,
        ) implies a == b by {
        if a != b && a == id {
            assert(before@.is_listing(snapshot@.work, snapshot@.category, b));
        } else if a != b && b == id {
            assert(before@.is_listing(snapshot@.work, snapshot@.category, a));
        } else if a != b {
            assert(before@.snapshots.contains_key(a));
            assert(before@.snapshots.contains_key(b));
        }
    }
    assert forall|key: Seq<char>| #[trigger] after.snapshots@.contains_key(
        key,
    ) implies after.snapshots@[key].cursors.wf() by {
        if key != id {
            assert(before.snapshots@.contains_key(key));
        }
    }
    before.lemma_used();
    after.lemma_used();
}

impl ListingCache {
    fn find_listing(&self, work: &WorkRecord, category: Category) -> (at: Option<usize>)
        requires
            self.wf(),
        ensures
            match at {
                Some(at) => {
                    &&& at < self.snapshots.rows().len()
                    &&& self@.is_listing(work@, category, self.snapshots.rows()[at as int].0)
                    &&& forall|id: Seq<char>|
                        self@.is_listing(work@, category, id) ==> id
                            == self.snapshots.rows()[at as int].0
                },
                None => forall|id: Seq<char>| !self@.is_listing(work@, category, id),
            },
    {
        let ghost rows = self.snapshots.rows();
        proof {
            text_map::lemma_map_of(rows);
        }
        let len: usize = self.snapshots.len();
        let mut i: usize = 0;
        while i < len
            invariant
                i <= len,
                len == rows.len(),
                rows == self.snapshots.rows(),
                self.wf(),
                forall|j: int|
                    0 <= j < rows.len() ==> self.snapshots@.contains_key((#[trigger] rows[j]).0)
                        && self.snapshots@[rows[j].0] == rows[j].1,
                forall|j: int|
                    0 <= j < i ==> !(#[trigger] rows[j]).1@.answers(
                        work@.session_id,
                        work@.generation,
                        work@.target_id,
                        category,
                    ),
            decreases len - i,
        {
            let snapshot = self.snapshots.value_at(i);
            if same_text(snapshot.work.session_id.as_str(), work.session_id.as_str())
                && snapshot.work.generation == work.generation && same_text(
                snapshot.work.target_id.as_str(),
                work.target_id.as_str(),
            ) && snapshot.category == category {
                proof {
                    let id = rows[i as int].0;
                    assert(self@.is_listing(work@, category, id));
                    assert forall|other: Seq<char>|
                        self@.is_listing(work@, category, other) implies other == id by {
                        assert(self@.snapshots.contains_key(other));
                        assert(self@.snapshots.contains_key(id));
                    }
                }
                return Some(i);
            }
            i = i + 1;
        }
        proof {
            assert forall|id: Seq<char>| !self@.is_listing(work@, category, id) by {
                if self@.is_listing(work@, category, id) {
                    assert(self.snapshots@.contains_key(id));
                    let j = choose|j: int| 0 <= j < rows.len() && (#[trigger] rows[j]).0 == id;
                    assert(self@.snapshots[id] == rows[j].1@);
                }
            }
        }
        None
    }

    /// Asks for a listing, when the text of the next revision has allocated `capacity` bytes.
    pub fn start_costing(
        &mut self,
        pool: &mut ByteBudget,
        work: WorkRecord,
        category: Category,
        now: u64,
        capacity: usize,
    ) -> (result: Result<ListingHandle, CacheError>)
        requires
            old(self).wf(),
            old(self).backed(old(pool)),
        ensures
            final(self).wf(),
            final(self).backed(final(pool)),
            final(pool).wf(),
            final(self).hold() == old(self).hold(),
            final(pool)@ == old(pool)@.resized(old(self).hold(), final(self)@.used()),
            old(self)@.used() <= old(self)@.limit ==> final(self)@.used() <= final(self)@.limit,
            ({
                let (after, answer) = old(self)@.started(
                    old(pool)@.limit,
                    old(self).others(old(pool)@),
                    work@,
                    category,
                    now,
                    capacity as nat,
                );
                &&& final(self)@ == after
                &&& match answer {
                    Ok(handle) => result is Ok && result->Ok_0@ == handle,
                    Err(error) => result == Err::<ListingHandle, CacheError>(error),
                }
            }),
    {
        let ghost before = *self;
        let ghost others = self.others(pool@);
        proof {
            before.lemma_wf(pool);
        }
        self.expire(pool, now);
        let ghost expired = *self;
        proof {
            expired.lemma_wf(pool);
        }
        if let Some(at) = self.find_listing(&work, category) {
            let ghost rows = self.snapshots.rows();
            let ghost id = rows[at as int].0;
            proof {
                text_map::lemma_map_of(rows);
                let chosen = choose|id: Seq<char>| expired@.is_listing(work@, category, id);
                assert(expired@.is_listing(work@, category, id));
                assert(chosen == id);
            }
            let snapshot = self.snapshots.value_mut(at);
            snapshot.last_used = now;
            let handle = ListingHandle {
                task_id: snapshot.work.task_id.clone(),
                revision: snapshot.revision.clone(),
            };
            proof {
                let changed = self.snapshots.rows()[at as int].1;
                assert(expired@.snapshots.contains_key(id));
                assert(expired@.snapshots[id] == rows[at as int].1@);
                assert(expired.snapshots@.contains_key(id));
                lemma_replaced(expired, *self, at as int, changed);
                assert(self@ =~= expired@.with(
                    id,
                    SnapshotView { last_used: now, ..expired@.snapshots[id] },
                ));
            }
            return Ok(handle);
        }
        if self.snapshots.contains(work.task_id.as_str()) {
            return Err(CacheError::InvalidArgument);
        }
        if self.serial == u64::MAX {
            return Err(CacheError::ResourceLimit);
        }
        let mut work = work;
        let ghost asked = work@;
        self.serial = self.serial + 1;
        let revision = revision_name(self.serial);
        work.phase = Phase::Queued;
        let size: usize = std::mem::size_of::<Snapshot>();
        let bytes: usize = estimate_work(&work).saturating_add(capacity).saturating_add(
            capacity,
        ).saturating_add(size).saturating_add(size).saturating_add(START_BYTES);
        let ghost numbered = *self;
        proof {
            assert(numbered@ =~= (CacheView { serial: (expired@.serial + 1) as u64, ..expired@ }));
            assert(numbered.wf());
            evictions_only_remove(
                numbered@,
                pool@.limit,
                others,
                bytes as nat,
                None,
            );
        }
        let ghost expired_pool = pool@;
        let room = self.make_room(pool, bytes, None);
        proof {
            memory::shrinking_first_makes_no_difference(
                old(pool)@,
                before.hold(),
                expired@.used(),
                self@.used(),
            );
        }
        if !room {
            return Err(CacheError::ResourceLimit);
        }
        let handle = ListingHandle { task_id: work.task_id.clone(), revision: revision.clone() };
        let ghost roomy = *self;
        let ghost roomy_pool = pool@;
        self.grow(pool, bytes);
        let id = work.task_id.clone();
        let ghost name = id@;
        let ghost queued_work = work@;
        let snapshot = Snapshot {
            work,
            revision,
            category,
            entries: Vec::new(),
            pages: Vec::new(),
            page_limit: None,
            cursors: TextMap::new(),
            last_used: now,
            coverage: Coverage::Partial,
            exhausted: false,
            bytes,
            demand_end: FIRST_DEMAND,
        };
        proof {
            assert(queued_work == queued(asked));
            assert(snapshot@ =~= empty_snapshot(
                queued_work,
                revision@,
                category,
                now,
                bytes as nat,
            ));
            assert forall|other: Seq<char>|
                !roomy@.is_listing(snapshot@.work, snapshot@.category, other) by {
                if roomy@.is_listing(snapshot@.work, snapshot@.category, other) {
                    assert(numbered@.snapshots.contains_key(other));
                    assert(expired@.is_listing(asked, category, other));
                }
            }
            assert(!roomy.snapshots@.contains_key(name)) by {
                if roomy.snapshots@.contains_key(name) {
                    assert(roomy@.snapshots.contains_key(name));
                    assert(expired@.snapshots.contains_key(name));
                }
            }
        }
        self.snapshots.insert(id, snapshot);
        proof {
            lemma_inserted(roomy, *self, name, snapshot);
            memory::shrinking_first_makes_no_difference(
                old(pool)@,
                before.hold(),
                roomy@.used(),
                self@.used(),
            );
            assert(self@ =~= roomy@.with(name, snapshot@));
        }
        Ok(handle)
    }

    /// Asks for the listing of a directory. One that is already there is handed out again.
    /// What a new one is charged depends on the memory that the text of its revision has
    /// allocated.
    pub fn start(
        &mut self,
        pool: &mut ByteBudget,
        work: WorkRecord,
        category: Category,
        now: u64,
    ) -> (result: Result<ListingHandle, CacheError>)
        requires
            old(self).wf(),
            old(self).backed(old(pool)),
        ensures
            final(self).wf(),
            final(self).backed(final(pool)),
            final(pool).wf(),
            final(self).hold() == old(self).hold(),
            final(pool)@ == old(pool)@.resized(old(self).hold(), final(self)@.used()),
            old(self)@.used() <= old(self)@.limit ==> final(self)@.used() <= final(self)@.limit,
            exists|capacity: nat|
                {
                    &&& index::text_takes(
                        revision_text(controller::next_serial(old(self)@.serial) as nat),
                        capacity,
                    )
                    &&& capacity >= text::utf8(
                        revision_text(controller::next_serial(old(self)@.serial) as nat),
                    ).len()
                    &&& final(self)@ == (#[trigger] old(self)@.started(
                        old(pool)@.limit,
                        old(self).others(old(pool)@),
                        work@,
                        category,
                        now,
                        capacity,
                    )).0
                    &&& match old(self)@.started(
                        old(pool)@.limit,
                        old(self).others(old(pool)@),
                        work@,
                        category,
                        now,
                        capacity,
                    ).1 {
                        Ok(handle) => result is Ok && result->Ok_0@ == handle,
                        Err(error) => result == Err::<ListingHandle, CacheError>(error),
                    }
                },
    {
        let capacity: usize = allocated(&revision_name(self.serial.saturating_add(1)));
        let ghost before = *self;
        let ghost others = self.others(pool@);
        let ghost asked = work@;
        let result = self.start_costing(pool, work, category, now, capacity);
        assert(self@ == before@.started(
            old(pool)@.limit,
            others,
            asked,
            category,
            now,
            capacity as nat,
        ).0);
        result
    }
}

impl SnapshotView {
    /// The listing after it was finished, unless it already was.
    pub open spec fn finished(self, phase: Phase, issue: Option<IssueView>) -> SnapshotView {
        if self.exhausted {
            self
        } else {
            let issues = match issue {
                Some(issue) => self.work.issues.with(issue),
                None => self.work.issues,
            };
            SnapshotView {
                exhausted: true,
                work: WorkView {
                    phase,
                    wait_reason: None,
                    sequence: controller::next_serial(self.work.sequence),
                    issues,
                    ..self.work
                },
                coverage: if phase is Completed && issues.counts
                    == Map::<Seq<char>, nat>::empty() {
                    Coverage::Complete
                } else {
                    Coverage::Partial
                },
                ..self
            }
        }
    }

    /// The listing with one more entry.
    pub open spec fn collected(self, entry: EntryView, bytes: nat) -> SnapshotView {
        SnapshotView {
            work: WorkView {
                observed_at: entry.observed_at,
                wait_reason: None,
                phase: Phase::Running,
                sequence: controller::next_serial(self.work.sequence),
                ..self.work
            },
            entries: self.entries.push(entry),
            bytes: self.bytes + bytes,
            ..self
        }
    }

    /// Whether an entry belongs to this listing.
    pub open spec fn takes(self, entry: EntryView) -> bool {
        entry.parent_id == Some(self.work.target_id) && (entry.kind is Directory <==> self.category
            is Directories)
    }
}

/// The issue that ends a listing for want of room.
pub open spec fn limit_issue() -> IssueView {
    IssueView {
        code: "RESOURCE_LIMIT"@,
        operation: "list"@,
        scope: IssueScope::Subtree,
        entry_id: None,
        native_code: None,
    }
}

/// What a collected entry is charged.
pub open spec fn append_cost(entry: EntryView) -> nat {
    wire::clip(wire::entry_estimate(entry) + ENTRY_BYTES as nat)
}

/// The largest estimate of an issue that may end a listing.
pub const ISSUE_BYTES: usize = 2048;

impl CacheView {
    /// What finishing a listing answers.
    pub open spec fn finish_answer(
        self,
        id: Seq<char>,
        phase: Phase,
        issue: Option<IssueView>,
    ) -> Result<(), CacheError> {
        if !phase.is_terminal() {
            Err(CacheError::InvalidArgument)
        } else if issue is Some && wire::issue_estimate(issue->0) > ISSUE_BYTES {
            Err(CacheError::ResourceLimit)
        } else if !self.snapshots.contains_key(id) {
            Err(CacheError::TaskExpired)
        } else {
            Ok(())
        }
    }

    /// The cache after finishing a listing.
    pub open spec fn finished(
        self,
        id: Seq<char>,
        phase: Phase,
        issue: Option<IssueView>,
    ) -> CacheView {
        if self.finish_answer(id, phase, issue) is Ok {
            self.with(id, self.snapshots[id].finished(phase, issue))
        } else {
            self
        }
    }

    /// The cache after an entry was collected, and whether collection may go on. Without room
    /// for the entry the listing ends, and what was collected stays readable.
    pub open spec fn appended(
        self,
        pool_limit: nat,
        others: nat,
        id: Seq<char>,
        entry: EntryView,
    ) -> (CacheView, Result<bool, CacheError>) {
        if !self.snapshots.contains_key(id) {
            (self, Err(CacheError::TaskExpired))
        } else if self.snapshots[id].exhausted {
            (self, Ok(false))
        } else if !self.snapshots[id].takes(entry) {
            (self, Err(CacheError::InvalidArgument))
        } else {
            let bytes = append_cost(entry);
            let roomy = self.evicted(pool_limit, others, bytes, Some(id));
            if bytes <= self.limit && roomy.admits(pool_limit, others, bytes) {
                (roomy.with(id, roomy.snapshots[id].collected(entry, bytes)), Ok(true))
            } else {
                (
                    roomy.finished(id, Phase::Completed, Some(limit_issue())),
                    match roomy.finish_answer(id, Phase::Completed, Some(limit_issue())) {
                        Ok(_) => Ok(false),
                        Err(error) => Err(error),
                    },
                )
            }
        }
    }

    /// The cache after the work of a listing was asked for.
    pub open spec fn told(self, id: Seq<char>, now: u64) -> CacheView {
        let cache = self.expired(now);
        if cache.snapshots.contains_key(id) {
            cache.with(id, SnapshotView { last_used: now, ..cache.snapshots[id] })
        } else {
            cache
        }
    }

    /// The cache after the work of a listing changed, unless it is finished.
    pub open spec fn reworked(self, id: Seq<char>, work: WorkView) -> CacheView {
        if self.snapshots.contains_key(id) && !self.snapshots[id].exhausted {
            self.with(id, SnapshotView { work, ..self.snapshots[id] })
        } else {
            self
        }
    }
}

/// The content of an optional issue.
pub open spec fn optional_issue(issue: Option<FsIssue>) -> Option<IssueView> {
    match issue {
        Some(issue) => Some(issue@),
        None => None,
    }
}

impl ListingCache {
    /// Ends a listing. A listing that has ended stays as it is.
    pub fn finish(&mut self, task_id: &str, phase: Phase, issue: Option<FsIssue>) -> (result: Result<
        (),
        CacheError,
    >)
        requires
            old(self).wf(),
        ensures
            final(self).wf(),
            final(self).hold() == old(self).hold(),
            final(self)@.used() == old(self)@.used(),
            forall|pool: &ByteBudget| old(self).backed(pool) ==> final(self).backed(pool),
            result == old(self)@.finish_answer(task_id@, phase, optional_issue(issue)),
            final(self)@ == old(self)@.finished(task_id@, phase, optional_issue(issue)),
    {
        if !phase.terminal() {
            return Err(CacheError::InvalidArgument);
        }
        if let Some(issue) = &issue {
            if estimate_issue(issue) > ISSUE_BYTES {
                return Err(CacheError::ResourceLimit);
            }
        }
        let at = match self.snapshots.find(task_id) {
            Some(at) => at,
            None => {
                return Err(CacheError::TaskExpired);
            },
        };
        let ghost before = *self;
        let ghost shown_issue = optional_issue(issue);
        if self.snapshots.value_at(at).exhausted {
            assert(before@.with(task_id@, before@.snapshots[task_id@]) =~= before@);
            return Ok(());
        }
        let snapshot = self.snapshots.value_mut(at);
        snapshot.exhausted = true;
        snapshot.work.phase = phase;
        snapshot.work.wait_reason = None;
        snapshot.work.sequence = snapshot.work.sequence.saturating_add(1);
        if let Some(issue) = issue {
            snapshot.work.issues.record(issue);
        }
        snapshot.coverage = if phase == Phase::Completed && snapshot.work.issues.counts.is_empty() {
            Coverage::Complete
        } else {
            Coverage::Partial
        };
        proof {
            let changed = self.snapshots.rows()[at as int].1;
            assert(before.snapshots@.contains_key(task_id@));
            assert(before@.snapshots.contains_key(task_id@));
            assert(changed@ =~= before@.snapshots[task_id@].finished(phase, shown_issue));
            lemma_replaced(before, *self, at as int, changed);
            assert(self@ =~= before@.finished(task_id@, phase, shown_issue));
        }
        Ok(())
    }

    /// Adds an entry to a listing. False means that enumeration should stop; pages that were
    /// collected before remain readable.
    pub fn append(&mut self, pool: &mut ByteBudget, task_id: &str, entry: Entry) -> (result: Result<
        bool,
        CacheError,
    >)
        requires
            old(self).wf(),
            old(self).backed(old(pool)),
        ensures
            final(self).wf(),
            final(self).backed(final(pool)),
            final(pool).wf(),
            final(self).hold() == old(self).hold(),
            final(pool)@ == old(pool)@.resized(old(self).hold(), final(self)@.used()),
            old(self)@.used() <= old(self)@.limit ==> final(self)@.used() <= final(self)@.limit,
            ({
                let (after, answer) = old(self)@.appended(
                    old(pool)@.limit,
                    old(self).others(old(pool)@),
                    task_id@,
                    entry@,
                );
                final(self)@ == after && result == answer
            }),
    {
        let ghost before = *self;
        let ghost others = self.others(pool@);
        proof {
            before.lemma_wf(pool);
        }
        let at = match self.snapshots.find(task_id) {
            Some(at) => at,
            None => {
                return Err(CacheError::TaskExpired);
            },
        };
        let snapshot = self.snapshots.value_at(at);
        if snapshot.exhausted {
            return Ok(false);
        }
        let belongs = match &entry.parent_id {
            Some(parent_id) => same_text(parent_id.as_str(), snapshot.work.target_id.as_str()),
            None => false,
        };
        if !belongs || (entry.kind == Kind::Directory) != (snapshot.category
            == Category::Directories) {
            return Err(CacheError::InvalidArgument);
        }
        let bytes: usize = estimate_entry(&entry).saturating_add(ENTRY_BYTES);
        let room = self.make_room(pool, bytes, Some(task_id));
        let ghost roomy = *self;
        proof {
            evictions_only_remove(before@, old(pool)@.limit, others, bytes as nat, Some(task_id@));
            roomy.lemma_wf(pool);
        }
        if !room {
            let finished = self.finish(
                task_id,
                Phase::Completed,
                Some(
                    FsIssue {
                        code: "RESOURCE_LIMIT".to_owned(),
                        operation: "list".to_owned(),
                        scope: IssueScope::Subtree,
                        entry_id: None,
                        native_code: None,
                    },
                ),
            );
            return match finished {
                Ok(_) => Ok(false),
                Err(error) => Err(error),
            };
        }
        let ghost roomy_pool = pool@;
        self.grow(pool, bytes);
        let ghost grown = *self;
        let at = match self.snapshots.find(task_id) {
            Some(at) => at,
            None => {
                proof {
                    assert(roomy@.snapshots.contains_key(task_id@));
                    assert(roomy.snapshots@.contains_key(task_id@));
                    assert(false);
                }
                return Err(CacheError::TaskExpired);
            },
        };
        let ghost entries = self.snapshots.rows()[at as int].1.entries@;
        let ghost shown_entry = entry@;
        proof {
            text_map::lemma_map_of(roomy.snapshots.rows());
            text_map::lemma_sum_update(
                roomy.snapshots.rows(),
                at as int,
                roomy.snapshots.rows()[at as int],
                |snapshot: Snapshot| snapshot@.bytes,
            );
        }
        let snapshot = self.snapshots.value_mut(at);
        snapshot.work.observed_at = entry.observed_at.clone();
        snapshot.entries.push(entry);
        snapshot.work.wait_reason = None;
        snapshot.bytes = snapshot.bytes + bytes;
        snapshot.work.phase = Phase::Running;
        snapshot.work.sequence = snapshot.work.sequence.saturating_add(1);
        proof {
            let changed = self.snapshots.rows()[at as int].1;
            assert(roomy@.snapshots.contains_key(task_id@));
            assert(model::views(changed.entries@) =~= model::views(entries).push(shown_entry));
            assert(changed@ =~= roomy@.snapshots[task_id@].collected(shown_entry, bytes as nat));
            lemma_collected_wf(roomy@.snapshots[task_id@], shown_entry, bytes as nat);
            lemma_replaced(roomy, *self, at as int, changed);
            memory::shrinking_first_makes_no_difference(
                old(pool)@,
                before.hold(),
                roomy@.used(),
                self@.used(),
            );
            assert(self@ =~= roomy@.with(task_id@, changed@));
        }
        Ok(true)
    }

    /// The work of a listing, without refreshing its time to live.
    pub fn peek_work(&self, id: &str) -> (work: Option<WorkRecord>)
        requires
            self.wf(),
        ensures
            work is Some <==> self@.snapshots.contains_key(id@),
            work is Some ==> work->0@ == self@.snapshots[id@].work,
    {
        match self.snapshots.get(id) {
            Some(snapshot) => Some(snapshot.work.copy()),
            None => None,
        }
    }

    /// The work of a listing; reading it keeps the listing alive.
    pub fn work(&mut self, pool: &mut ByteBudget, task_id: &str, now: u64) -> (result: Result<
        WorkRecord,
        CacheError,
    >)
        requires
            old(self).wf(),
            old(self).backed(old(pool)),
        ensures
            final(self).wf(),
            final(self).backed(final(pool)),
            final(pool).wf(),
            final(self).hold() == old(self).hold(),
            final(pool)@ == old(pool)@.resized(old(self).hold(), final(self)@.used()),
            final(self)@ == old(self)@.told(task_id@, now),
            final(self)@.used() <= old(self)@.used(),
            if old(self)@.expired(now).snapshots.contains_key(task_id@) {
                &&& result is Ok
                &&& result->Ok_0@ == old(self)@.snapshots[task_id@].work
            } else {
                result == Err::<WorkRecord, CacheError>(CacheError::TaskExpired)
            },
    {
        self.expire(pool, now);
        let ghost expired = *self;
        let at = match self.snapshots.find(task_id) {
            Some(at) => at,
            None => {
                return Err(CacheError::TaskExpired);
            },
        };
        let snapshot = self.snapshots.value_mut(at);
        snapshot.last_used = now;
        let work = snapshot.work.copy();
        proof {
            let changed = self.snapshots.rows()[at as int].1;
            assert(expired@.snapshots.contains_key(task_id@));
            assert(expired.snapshots@.contains_key(task_id@));
            lemma_replaced(expired, *self, at as int, changed);
            assert(self@ =~= expired@.with(
                task_id@,
                SnapshotView { last_used: now, ..expired@.snapshots[task_id@] },
            ));
        }
        Ok(work)
    }

    /// Whether a listing has to collect more entries. Does not refresh its time to live.
    pub fn needs_collection(&self, id: &str) -> (result: Result<bool, CacheError>)
        requires
            self.wf(),
        ensures
            result == (if self@.snapshots.contains_key(id@) {
                Ok(
                    !self@.snapshots[id@].exhausted && self@.snapshots[id@].entries.len()
                        < self@.snapshots[id@].demand_end,
                )
            } else {
                Err::<bool, CacheError>(CacheError::TaskExpired)
            }),
    {
        match self.snapshots.get(id) {
            Some(snapshot) => {
                assert(snapshot@.entries.len() == snapshot.entries@.len());
                Ok(!snapshot.exhausted && snapshot.entries.len() < snapshot.demand_end)
            },
            None => Err(CacheError::TaskExpired),
        }
    }

    /// Sets how much is collected before the first page is read: the requested page and one page
    /// of lookahead. The first read chooses the immutable page limit.
    pub fn set_initial_demand(&mut self, id: &str, limit: usize) -> (result: Result<(), CacheError>)
        requires
            old(self).wf(),
        ensures
            final(self).wf(),
            final(self).hold() == old(self).hold(),
            final(self)@.used() == old(self)@.used(),
            forall|pool: &ByteBudget| old(self).backed(pool) ==> final(self).backed(pool),
            result == (if !(1 <= limit <= 1000) {
                Err(CacheError::InvalidArgument)
            } else if !old(self)@.snapshots.contains_key(id@) {
                Err(CacheError::TaskExpired)
            } else {
                Ok::<(), CacheError>(())
            }),
            final(self)@ == (if result is Ok {
                old(self)@.with(
                    id@,
                    SnapshotView {
                        demand_end: (limit * 2) as nat,
                        ..old(self)@.snapshots[id@]
                    },
                )
            } else {
                old(self)@
            }),
    {
        if limit < 1 || limit > 1000 {
            return Err(CacheError::InvalidArgument);
        }
        let at = match self.snapshots.find(id) {
            Some(at) => at,
            None => {
                return Err(CacheError::TaskExpired);
            },
        };
        let ghost before = *self;
        let snapshot = self.snapshots.value_mut(at);
        snapshot.demand_end = limit * 2;
        proof {
            let changed = self.snapshots.rows()[at as int].1;
            assert(before@.snapshots.contains_key(id@));
            assert(before.snapshots@.contains_key(id@));
            lemma_replaced(before, *self, at as int, changed);
            assert(self@ =~= before@.with(
                id@,
                SnapshotView { demand_end: (limit * 2) as nat, ..before@.snapshots[id@] },
            ));
        }
        Ok(())
    }

    /// Replaces the work of an unfinished listing by one of the same task.
    fn rework(&mut self, at: usize, work: WorkRecord)
        requires
            old(self).wf(),
            at < old(self).snapshots.rows().len(),
            !old(self).snapshots.rows()[at as int].1@.exhausted,
            work@.session_id == old(self).snapshots.rows()[at as int].1@.work.session_id,
            work@.generation == old(self).snapshots.rows()[at as int].1@.work.generation,
            work@.target_id == old(self).snapshots.rows()[at as int].1@.work.target_id,
            work@.task_id == old(self).snapshots.rows()[at as int].1@.work.task_id,
        ensures
            final(self).wf(),
            final(self).hold() == old(self).hold(),
            final(self)@.used() == old(self)@.used(),
            forall|pool: &ByteBudget| old(self).backed(pool) ==> final(self).backed(pool),
            final(self)@ == old(self)@.reworked(old(self).snapshots.rows()[at as int].0, work@),
    {
        let ghost before = *self;
        let ghost id = self.snapshots.rows()[at as int].0;
        let ghost shown_work = work@;
        proof {
            text_map::lemma_map_of(self.snapshots.rows());
            assert(before@.snapshots.contains_key(id));
            assert(before.snapshots@.contains_key(id));
        }
        let snapshot = self.snapshots.value_mut(at);
        snapshot.work = work;
        proof {
            let changed = self.snapshots.rows()[at as int].1;
            assert(changed@ =~= (SnapshotView { work: shown_work, ..before@.snapshots[id] }));
            assert(before@.snapshots[id].wf());
            lemma_replaced(before, *self, at as int, changed);
            assert(self@ =~= before@.reworked(id, shown_work));
        }
    }

    /// Records how many entries and directories were observed.
    pub fn observations(&mut self, id: &str, entries: u64, directories: u64)
        requires
            old(self).wf(),
        ensures
            final(self).wf(),
            final(self).hold() == old(self).hold(),
            final(self)@.used() == old(self)@.used(),
            forall|pool: &ByteBudget| old(self).backed(pool) ==> final(self).backed(pool),
            final(self)@ == old(self)@.reworked(
                id@,
                WorkView {
                    processed_entries: entries as nat,
                    processed_directories: directories as nat,
                    sequence: controller::next_serial(old(self)@.snapshots[id@].work.sequence),
                    ..old(self)@.snapshots[id@].work
                },
            ),
    {
        if let Some(at) = self.snapshots.find(id) {
            let snapshot = self.snapshots.value_at(at);
            if !snapshot.exhausted {
                let mut work = snapshot.work.copy();
                work.processed_entries = Bytes::of(entries as u128);
                work.processed_directories = Bytes::of(directories as u128);
                work.sequence = work.sequence.saturating_add(1);
                self.rework(at, work);
            }
        }
    }

    /// Records an issue of an unfinished listing.
    pub fn record_issue(&mut self, id: &str, issue: FsIssue) -> (result: Result<(), CacheError>)
        requires
            old(self).wf(),
        ensures
            final(self).wf(),
            final(self).hold() == old(self).hold(),
            final(self)@.used() == old(self)@.used(),
            forall|pool: &ByteBudget| old(self).backed(pool) ==> final(self).backed(pool),
            result == (if old(self)@.snapshots.contains_key(id@) {
                Ok(())
            } else {
                Err::<(), CacheError>(CacheError::TaskExpired)
            }),
            final(self)@ == old(self)@.reworked(
                id@,
                WorkView {
                    issues: old(self)@.snapshots[id@].work.issues.with(issue@),
                    sequence: controller::next_serial(old(self)@.snapshots[id@].work.sequence),
                    ..old(self)@.snapshots[id@].work
                },
            ),
    {
        let at = match self.snapshots.find(id) {
            Some(at) => at,
            None => {
                return Err(CacheError::TaskExpired);
            },
        };
        let snapshot = self.snapshots.value_at(at);
        if !snapshot.exhausted {
            let mut work = snapshot.work.copy();
            work.issues.record(issue);
            work.sequence = work.sequence.saturating_add(1);
            self.rework(at, work);
        }
        Ok(())
    }

    /// Publishes the phase of an unfinished listing and what it waits for.
    pub fn update_status(&mut self, id: &str, phase: Phase, wait: Option<WaitReason>)
        requires
            old(self).wf(),
        ensures
            final(self).wf(),
            final(self).hold() == old(self).hold(),
            final(self)@.used() == old(self)@.used(),
            forall|pool: &ByteBudget| old(self).backed(pool) ==> final(self).backed(pool),
            final(self)@ == (if old(self)@.snapshots[id@].work.phase == phase
                && old(self)@.snapshots[id@].work.wait_reason == wait {
                old(self)@
            } else {
                old(self)@.reworked(
                    id@,
                    WorkView {
                        phase,
                        wait_reason: wait,
                        sequence: controller::next_serial(old(self)@.snapshots[id@].work.sequence),
                        ..old(self)@.snapshots[id@].work
                    },
                )
            }),
    {
        if let Some(at) = self.snapshots.find(id) {
            let snapshot = self.snapshots.value_at(at);
            if !snapshot.exhausted && (snapshot.work.phase != phase || !model::same_wait(
                snapshot.work.wait_reason,
                wait,
            )) {
                let mut work = snapshot.work.copy();
                work.phase = phase;
                work.wait_reason = wait;
                work.sequence = work.sequence.saturating_add(1);
                self.rework(at, work);
            }
        }
    }

    /// Whether a listing is there.
    pub fn contains(&self, id: &str) -> (found: bool)
        requires
            self.wf(),
        ensures
            found == self@.snapshots.contains_key(id@),
    {
        self.snapshots.contains(id)
    }

    /// How often listings were dropped.
    pub fn eviction_epoch(&self) -> (epoch: u64)
        ensures
            epoch == self@.eviction_epoch,
    {
        self.eviction_epoch
    }

    /// The number of cursors and of pages that were handed out for a listing.
    pub fn handed_out(&self, id: &str) -> (counts: Option<(usize, usize)>)
        requires
            self.wf(),
        ensures
            counts is Some <==> self@.snapshots.contains_key(id@),
            counts matches Some(pair) ==> pair.0 == self@.snapshots[id@].cursors.len() && pair.1
                == self@.snapshots[id@].pages.len(),
    {
        match self.snapshots.get(id) {
            Some(snapshot) => {
                let cursors: usize = snapshot.cursors.len();
                assert(snapshot@.cursors.dom() =~= snapshot.cursors@.dom());
                assert(snapshot@.pages.len() == snapshot.pages@.len());
                Some((cursors, snapshot.pages.len()))
            },
            None => None,
        }
    }

    /// Drops every listing.
    pub fn clear(&mut self, pool: &mut ByteBudget)
        requires
            old(self).wf(),
            old(self).backed(old(pool)),
        ensures
            final(self).wf(),
            final(self).backed(final(pool)),
            final(pool).wf(),
            final(self).hold() == old(self).hold(),
            final(self)@.used() == 0,
            final(self)@ == (CacheView {
                snapshots: Map::empty(),
                eviction_epoch: advanced(old(self)@.eviction_epoch, 1),
                ..old(self)@
            }),
            final(pool)@ == old(pool)@.resized(old(self).hold(), 0),
    {
        proof {
            self.lemma_wf(pool);
        }
        self.eviction_epoch = self.eviction_epoch.saturating_add(1);
        self.snapshots.clear();
        self.used = 0;
        let shrunk = self.reservation.resize(pool, 0);
        assert(shrunk is Ok);
        proof {
            assert(self@.snapshots =~= Map::<Seq<char>, SnapshotView>::empty());
            assert(self@.snapshots.dom() =~= Set::<Seq<char>>::empty());
            self.lemma_used();
        }
    }

    /// The task ids of all listings, in order.
    pub fn retained_task_ids(&self) -> (ids: Vec<String>)
        requires
            self.wf(),
        ensures
            ids@.len() == self@.snapshots.len(),
            forall|id: Seq<char>|
                self@.snapshots.contains_key(id) <==> #[trigger] model::views(ids@).contains(id),
            forall|i: int, j: int|
                0 <= i < j < ids@.len() ==> text::text_before(
                    #[trigger] ids@[i]@,
                    #[trigger] ids@[j]@,
                ),
    {
        let ghost rows = self.snapshots.rows();
        proof {
            text_map::lemma_map_of(rows);
        }
        let len: usize = self.snapshots.len();
        let mut ids: Vec<String> = Vec::new();
        let mut i: usize = 0;
        while i < len
            invariant
                i <= len,
                len == rows.len(),
                rows == self.snapshots.rows(),
                ids@.len() == i,
                forall|j: int| 0 <= j < i ==> (#[trigger] ids@[j])@ == rows[j].0,
            decreases len - i,
        {
            ids.push(self.snapshots.key_at(i).clone());
            i = i + 1;
        }
        proof {
            assert(self@.snapshots.dom() =~= self.snapshots@.dom());
            assert forall|id: Seq<char>|
                self@.snapshots.contains_key(id) <==> #[trigger] model::views(ids@).contains(id) by {
                if self@.snapshots.contains_key(id) {
                    assert(self.snapshots@.contains_key(id));
                    let j = choose|j: int| 0 <= j < rows.len() && (#[trigger] rows[j]).0 == id;
                    assert(model::views(ids@)[j] == id);
                }
                if model::views(ids@).contains(id) {
                    let j = choose|j: int|
                        0 <= j < model::views(ids@).len() && model::views(ids@)[j] == id;
                    assert(ids@[j]@ == rows[j].0);
                    assert(self.snapshots@.contains_key(rows[j].0));
                }
            }
            assert forall|i: int, j: int| 0 <= i < j < ids@.len() implies text::text_before(
                #[trigger] ids@[i]@,
                #[trigger] ids@[j]@,
            ) by {
                assert(ids@[i]@ == rows[i].0);
                assert(ids@[j]@ == rows[j].0);
            }
        }
        ids
    }

    /// Gives the hold back.
    pub fn release(self, pool: &mut ByteBudget)
        requires
            self.backed(old(pool)),
        ensures
            final(pool).wf(),
            final(pool)@ == old(pool)@.resized(self.hold(), 0),
    {
        self.reservation.release(pool);
    }
}

/// One more entry keeps pages and cursors within the entries.
pub proof fn lemma_collected_wf(snapshot: SnapshotView, entry: EntryView, bytes: nat)
    requires
        snapshot.wf(),
        !snapshot.exhausted,
    ensures
        snapshot.collected(entry, bytes).wf(),
{
    let after = snapshot.collected(entry, bytes);
    assert forall|i: int| 0 <= i < after.pages.len() implies (#[trigger] after.pages[i]).offset
        <= after.pages[i].end <= after.entries.len() && after.pages[i].end <= after.pages[i].offset
        + after.pages[i].limit && after.pages[i].next_cursor is Some by {
        assert(snapshot.pages[i] == after.pages[i]);
    }
}

/// Room that an unfinished page leaves for issues and counters that come later.
pub const GROWTH_BYTES: usize = 65664;

/// Where a page begins and ends, what comes next, and whether it is handed out for the first
/// time.
#[verifier::ext_equal]
pub struct Draft {
    pub offset: nat,
    pub end: nat,
    pub next_cursor: Option<Seq<char>>,
    pub first_time: bool,
}

/// The text of a cursor that has not been handed out.
pub open spec fn new_cursor(serial: u64, end: nat, limit: nat) -> Seq<char> {
    cursor_text(controller::next_serial(serial) as nat, end, limit)
}

impl SnapshotView {
    /// Where a request begins: at the start, or where its cursor continues.
    pub open spec fn offset_at(self, cursor: Option<Seq<char>>, limit: nat) -> Option<nat> {
        match cursor {
            None => Some(0),
            Some(cursor) => if self.cursors.contains_key(cursor) && self.cursors[cursor].limit
                == limit {
                Some(self.cursors[cursor].offset)
            } else {
                None
            },
        }
    }

    /// What follows a page that ends here: nothing after the last entry of a finished listing,
    /// else a cursor, the one that was handed out before if there is one.
    pub open spec fn continuation(self, serial: u64, end: nat, limit: nat) -> Option<Seq<char>> {
        if self.exhausted && end >= self.entries.len() {
            None
        } else {
            match cursor_to(self.cursors, MarkView { offset: end, limit }) {
                Some(cursor) => Some(cursor),
                None => Some(new_cursor(serial, end, limit)),
            }
        }
    }

    /// The page with the entries from `offset` to `end`.
    pub open spec fn page_of(
        self,
        offset: nat,
        end: nat,
        cursor: Option<Seq<char>>,
        next_cursor: Option<Seq<char>>,
    ) -> PageView {
        PageView {
            work: self.work,
            listing_revision: self.revision,
            directory_id: self.work.target_id,
            category: self.category,
            entries: self.entries.subrange(offset as int, end as int),
            cursor,
            next_cursor,
            coverage: self.coverage,
            issues: self.work.issues,
        }
    }

    /// Whether a page fits a message, with `growth` bytes to spare.
    pub open spec fn page_fits(
        self,
        offset: nat,
        end: nat,
        cursor: Option<Seq<char>>,
        next_cursor: Option<Seq<char>>,
        growth: nat,
        message_limit: nat,
    ) -> bool {
        wire::clip(
            wire::json_len(wire::page_json(self.page_of(offset, end, cursor, next_cursor)))
                + growth,
        ) <= message_limit
    }

    /// The longest page from `offset` that ends at `end` or before and fits a message.
    pub open spec fn trimmed(
        self,
        serial: u64,
        limit: nat,
        offset: nat,
        end: nat,
        cursor: Option<Seq<char>>,
        next_cursor: Option<Seq<char>>,
        growth: nat,
        message_limit: nat,
    ) -> Option<Draft>
        decreases end,
    {
        if self.page_fits(offset, end, cursor, next_cursor, growth, message_limit) {
            Some(Draft { offset, end, next_cursor, first_time: true })
        } else if end <= offset {
            None
        } else {
            self.trimmed(
                serial,
                limit,
                offset,
                (end - 1) as nat,
                cursor,
                Some(new_cursor(serial, (end - 1) as nat, limit)),
                growth,
                message_limit,
            )
        }
    }

    /// What a request for a page gets. A page that was handed out before comes again as it was.
    pub open spec fn drafted(
        self,
        serial: u64,
        cursor: Option<Seq<char>>,
        limit: nat,
        message_limit: nat,
    ) -> Result<Draft, CacheError> {
        let offset = self.offset_at(cursor, limit);
        if self.page_limit is Some && self.page_limit->0 != limit {
            Err(CacheError::InvalidArgument)
        } else if offset is None {
            Err(CacheError::CursorExpired)
        } else {
            let offset = offset->0;
            let draft = match published(self.pages, offset, limit) {
                Some(page) => if self.page_fits(
                    offset,
                    page.end,
                    cursor,
                    page.next_cursor,
                    0,
                    message_limit,
                ) {
                    Some(
                        Draft {
                            offset,
                            end: page.end,
                            next_cursor: page.next_cursor,
                            first_time: false,
                        },
                    )
                } else {
                    None
                },
                None => {
                    let end = if offset + limit <= self.entries.len() {
                        offset + limit
                    } else {
                        self.entries.len()
                    };
                    self.trimmed(
                        serial,
                        limit,
                        offset,
                        end,
                        cursor,
                        self.continuation(serial, end, limit),
                        if self.exhausted {
                            0
                        } else {
                            GROWTH_BYTES as nat
                        },
                        message_limit,
                    )
                },
            };
            match draft {
                None => Err(CacheError::ResourceLimit),
                Some(draft) => if draft.end == offset && offset < self.entries.len() {
                    Err(CacheError::ResourceLimit)
                } else {
                    Ok(draft)
                },
            }
        }
    }

    /// The listing after a page was read: alive, with this limit for all pages, and with demand
    /// for the page and one page of lookahead.
    pub open spec fn touched(self, now: u64, limit: usize, offset: nat) -> SnapshotView {
        let demand = wire::clip(offset + 2 * limit as nat);
        SnapshotView {
            last_used: now,
            page_limit: Some(limit),
            demand_end: if demand > self.demand_end {
                demand
            } else {
                self.demand_end
            },
            ..self
        }
    }

    /// The listing after a page was handed out for the first time. An empty page of an
    /// unfinished listing is not frozen: its cursor asks again for the same entries.
    pub open spec fn recorded(self, draft: Draft, limit: nat) -> SnapshotView {
        SnapshotView {
            cursors: match draft.next_cursor {
                Some(cursor) => self.cursors.insert(cursor, MarkView { offset: draft.end, limit }),
                None => self.cursors,
            },
            pages: if draft.end == draft.offset && !self.exhausted {
                self.pages
            } else {
                self.pages.push(
                    PublishedView {
                        offset: draft.offset,
                        limit,
                        end: draft.end,
                        next_cursor: draft.next_cursor,
                    },
                )
            },
            ..self
        }
    }
}

impl CacheView {
    /// The cache after a page was asked for, and the answer.
    pub open spec fn paged(
        self,
        id: Seq<char>,
        cursor: Option<Seq<char>>,
        limit: usize,
        now: u64,
    ) -> (CacheView, Result<PageView, CacheError>) {
        if limit == 0 || limit > 1000 {
            (self, Err(CacheError::InvalidArgument))
        } else {
            let cache = self.expired(now);
            if !cache.snapshots.contains_key(id) {
                (
                    cache,
                    Err(
                        if cursor is Some {
                            CacheError::CursorExpired
                        } else {
                            CacheError::TaskExpired
                        },
                    ),
                )
            } else {
                let snapshot = cache.snapshots[id];
                match snapshot.drafted(
                    self.serial,
                    cursor,
                    limit as nat,
                    self.message_limit as nat,
                ) {
                    Err(error) => (cache, Err(error)),
                    Ok(draft) => {
                        let touched = snapshot.touched(now, limit, draft.offset);
                        let page = snapshot.page_of(
                            draft.offset,
                            draft.end,
                            cursor,
                            draft.next_cursor,
                        );
                        if !draft.first_time {
                            (cache.with(id, touched), Ok(page))
                        } else if self.serial == u64::MAX {
                            (cache.with(id, touched), Err(CacheError::ResourceLimit))
                        } else {
                            (
                                CacheView {
                                    serial: (self.serial + 1) as u64,
                                    ..cache.with(id, touched.recorded(draft, limit as nat))
                                },
                                Ok(page),
                            )
                        }
                    },
                }
            }
        }
    }
}

fn copy_range(entries: &Vec<Entry>, offset: usize, end: usize) -> (range: Vec<Entry>)
    requires
        offset <= end <= entries@.len(),
    ensures
        model::views(range@) == model::views(entries@).subrange(offset as int, end as int),
{
    let ghost wanted = model::views(entries@).subrange(offset as int, end as int);
    let mut range: Vec<Entry> = Vec::new();
    let mut i: usize = offset;
    while i < end
        invariant
            offset <= i <= end <= entries@.len(),
            wanted == model::views(entries@).subrange(offset as int, end as int),
            range@.len() == i - offset,
            model::views(range@) =~= wanted.take(i - offset),
        decreases end - i,
    {
        let ghost done = range@;
        let entry = entries[i].copy();
        range.push(entry);
        i = i + 1;
        assert(model::views(range@) =~= model::views(done).push(entry@));
        assert(wanted[i - 1 - offset] == entry@);
    }
    assert(wanted.take(end - offset) =~= wanted);
    range
}

/// Only one cursor is the first that continues at a mark.
proof fn lemma_leads_unique(
    cursors: Map<Seq<char>, MarkView>,
    mark: MarkView,
    a: Seq<char>,
    b: Seq<char>,
)
    requires
        leads_to(cursors, mark, a),
        leads_to(cursors, mark, b),
    ensures
        a == b,
{
    if a != b {
        text::lemma_text_before_asymmetric(a, b);
    }
}

impl Snapshot {
    fn find_page(&self, offset: usize, limit: usize) -> (at: Option<usize>)
        requires
            self@.wf(),
        ensures
            match at {
                Some(at) => at < self.pages@.len() && published(
                    self@.pages,
                    offset as nat,
                    limit as nat,
                ) == Some(self.pages@[at as int]@) && is_page(
                    self@.pages,
                    at as int,
                    offset as nat,
                    limit as nat,
                ),
                None => published(self@.pages, offset as nat, limit as nat) is None
                    && forall|at: int| !is_page(self@.pages, at, offset as nat, limit as nat),
            },
    {
        assert(self@.pages.len() == self.pages@.len());
        let mut i: usize = 0;
        while i < self.pages.len()
            invariant
                i <= self.pages.len(),
                self@.wf(),
                self@.pages.len() == self.pages@.len(),
                forall|j: int|
                    0 <= j < i ==> !is_page(self@.pages, j, offset as nat, limit as nat),
            decreases self.pages.len() - i,
        {
            assert(self@.pages[i as int] == self.pages@[i as int]@);
            if self.pages[i].offset == offset && self.pages[i].limit == limit {
                proof {
                    assert(is_page(self@.pages, i as int, offset as nat, limit as nat));
                    let chosen = choose|at: int|
                        is_page(self@.pages, at, offset as nat, limit as nat);
                    assert(self@.pages[chosen].offset == self@.pages[i as int].offset);
                    assert(chosen == i);
                }
                return Some(i);
            }
            i = i + 1;
        }
        None
    }

    fn find_cursor(&self, end: usize, limit: usize) -> (cursor: Option<String>)
        requires
            self.cursors.wf(),
        ensures
            text::optional_text(cursor) == cursor_to(
                self@.cursors,
                MarkView { offset: end as nat, limit: limit as nat },
            ),
    {
        let ghost rows = self.cursors.rows();
        let ghost mark = MarkView { offset: end as nat, limit: limit as nat };
        proof {
            text_map::lemma_map_of(rows);
        }
        let len: usize = self.cursors.len();
        let mut i: usize = 0;
        while i < len
            invariant
                i <= len,
                len == rows.len(),
                rows == self.cursors.rows(),
                self.cursors.wf(),
                mark == (MarkView { offset: end as nat, limit: limit as nat }),
                forall|j: int| 0 <= j < i ==> (#[trigger] rows[j]).1@ != mark,
            decreases len - i,
        {
            let here = self.cursors.value_at(i);
            if here.offset == end && here.limit == limit {
                let name = self.cursors.key_at(i).clone();
                proof {
                    text_map::lemma_map_of(rows);
                    assert(self@.cursors.contains_key(name@));
                    assert forall|other: Seq<char>| #[trigger]
                        self@.cursors.contains_key(other) && self@.cursors[other] == mark && other
                            != name@ implies text::text_before(name@, other) by {
                        assert(self.cursors@.contains_key(other));
                        let j = choose|j: int|
                            0 <= j < rows.len() && (#[trigger] rows[j]).0 == other;
                        assert(rows[j].1@ == mark);
                        assert(rows[i as int].0 == name@);
                    }
                    assert(leads_to(self@.cursors, mark, name@));
                    let chosen = choose|cursor: Seq<char>| leads_to(self@.cursors, mark, cursor);
                    lemma_leads_unique(self@.cursors, mark, name@, chosen);
                }
                return Some(name);
            }
            i = i + 1;
        }
        proof {
            text_map::lemma_map_of(rows);
            assert forall|cursor: Seq<char>| !leads_to(self@.cursors, mark, cursor) by {
                if leads_to(self@.cursors, mark, cursor) {
                    assert(self.cursors@.contains_key(cursor));
                    let j = choose|j: int| 0 <= j < rows.len() && (#[trigger] rows[j]).0 == cursor;
                    assert(rows[j].1@ == mark);
                }
            }
        }
        None
    }

    fn offset_for(&self, cursor: Option<&str>, limit: usize) -> (offset: Option<usize>)
        requires
            self.cursors.wf(),
        ensures
            match offset {
                Some(offset) => self@.offset_at(optional_str(cursor), limit as nat) == Some(
                    offset as nat,
                ),
                None => self@.offset_at(optional_str(cursor), limit as nat) is None,
            },
    {
        match cursor {
            None => Some(0),
            Some(cursor) => match self.cursors.get(cursor) {
                Some(mark) => if mark.limit == limit {
                    Some(mark.offset)
                } else {
                    None
                },
                None => None,
            },
        }
    }
}

/// What a page request settles on.
struct Settled {
    offset: usize,
    first_time: bool,
    end: usize,
    page: ListingPage,
}

impl Snapshot {
    /// Decides what a page request gets, without changing the listing.
    fn draft(
        &self,
        serial: u64,
        cursor: Option<&str>,
        limit: usize,
        message_limit: usize,
    ) -> (result: Result<Settled, CacheError>)
        requires
            self@.wf(),
            self.cursors.wf(),
            limit <= 1000,
        ensures
            match self@.drafted(
                serial,
                optional_str(cursor),
                limit as nat,
                message_limit as nat,
            ) {
                Err(error) => result == Err::<Settled, CacheError>(error),
                Ok(draft) => {
                    &&& result is Ok
                    &&& draft == (Draft {
                        offset: result->Ok_0.offset as nat,
                        end: result->Ok_0.end as nat,
                        next_cursor: result->Ok_0.page@.next_cursor,
                        first_time: result->Ok_0.first_time,
                    })
                    &&& result->Ok_0.page@ == self@.page_of(
                        draft.offset,
                        draft.end,
                        optional_str(cursor),
                        draft.next_cursor,
                    )
                    &&& draft.first_time ==> published(
                        self@.pages,
                        draft.offset,
                        limit as nat,
                    ) is None
                    &&& draft.offset <= draft.end <= self@.entries.len()
                },
            },
    {
        let ghost asked = optional_str(cursor);
        if let Some(original) = self.page_limit {
            if original != limit {
                return Err(CacheError::InvalidArgument);
            }
        }
        let offset: usize = match self.offset_for(cursor, limit) {
            Some(offset) => offset,
            None => {
                return Err(CacheError::CursorExpired);
            },
        };
        proof {
            assert(self@.entries.len() == self.entries@.len());
            if asked is Some {
                assert(self@.cursors.contains_key(asked->0));
            }
        }
        assert(offset <= self.entries@.len());
        match self.find_page(offset, limit) {
            Some(at) => {
                let ghost page = self.pages@[at as int]@;
                assert(self@.pages[at as int] == page);
                assert(published(self@.pages, offset as nat, limit as nat) == Some(page));
                let result = self.replayed(at, cursor, offset, limit, message_limit);
                let ghost drafted = self@.drafted(
                    serial,
                    asked,
                    limit as nat,
                    message_limit as nat,
                );
                assert(result is Err ==> drafted == Err::<Draft, CacheError>(
                    CacheError::ResourceLimit,
                ));
                assert(result is Ok ==> drafted == Ok::<Draft, CacheError>(
                    Draft {
                        offset: offset as nat,
                        end: page.end,
                        next_cursor: page.next_cursor,
                        first_time: false,
                    },
                ));
                result
            },
            None => {
                let result = self.composed(serial, cursor, offset, limit, message_limit);
                let ghost drafted = self@.drafted(
                    serial,
                    asked,
                    limit as nat,
                    message_limit as nat,
                );
                assert(result is Err ==> drafted == Err::<Draft, CacheError>(
                    CacheError::ResourceLimit,
                ));
                result
            },
        }
    }

    /// A page that was handed out before.
    fn replayed(
        &self,
        at: usize,
        cursor: Option<&str>,
        offset: usize,
        limit: usize,
        message_limit: usize,
    ) -> (result: Result<Settled, CacheError>)
        requires
            at < self.pages@.len(),
            offset <= self.pages@[at as int]@.end <= self.entries@.len(),
        ensures
            ({
                let page = self.pages@[at as int]@;
                if !self@.page_fits(
                    offset as nat,
                    page.end,
                    optional_str(cursor),
                    page.next_cursor,
                    0,
                    message_limit as nat,
                ) || (page.end == offset && offset < self@.entries.len()) {
                    result == Err::<Settled, CacheError>(CacheError::ResourceLimit)
                } else {
                    &&& result is Ok
                    &&& result->Ok_0.offset == offset
                    &&& result->Ok_0.end == page.end
                    &&& !result->Ok_0.first_time
                    &&& result->Ok_0.page@ == self@.page_of(
                        offset as nat,
                        page.end,
                        optional_str(cursor),
                        page.next_cursor,
                    )
                }
            }),
    {
        let end: usize = self.pages[at].end;
        let next_cursor = copy_optional(&self.pages[at].next_cursor);
        let page = self.page_from(offset, end, cursor, next_cursor);
        assert(self@.entries.len() == self.entries@.len());
        let json: usize = byte_len(encode_page(&page).as_str());
        if json > message_limit || (end == offset && offset < self.entries.len()) {
            return Err(CacheError::ResourceLimit);
        }
        Ok(Settled { offset, first_time: false, end, page })
    }

    /// A page that is handed out for the first time.
    fn composed(
        &self,
        serial: u64,
        cursor: Option<&str>,
        offset: usize,
        limit: usize,
        message_limit: usize,
    ) -> (result: Result<Settled, CacheError>)
        requires
            self.cursors.wf(),
            offset <= self.entries@.len(),
        ensures
            ({
                let end = if offset + limit <= self@.entries.len() {
                    (offset + limit) as nat
                } else {
                    self@.entries.len()
                };
                match self@.trimmed(
                    serial,
                    limit as nat,
                    offset as nat,
                    end,
                    optional_str(cursor),
                    self@.continuation(serial, end, limit as nat),
                    if self@.exhausted {
                        0
                    } else {
                        GROWTH_BYTES as nat
                    },
                    message_limit as nat,
                ) {
                    None => result == Err::<Settled, CacheError>(CacheError::ResourceLimit),
                    Some(draft) => if draft.end == offset && offset < self@.entries.len() {
                        result == Err::<Settled, CacheError>(CacheError::ResourceLimit)
                    } else {
                        &&& result is Ok
                        &&& draft == (Draft {
                            offset: result->Ok_0.offset as nat,
                            end: result->Ok_0.end as nat,
                            next_cursor: result->Ok_0.page@.next_cursor,
                            first_time: true,
                        })
                        &&& result->Ok_0.first_time
                        &&& draft.offset == offset
                        &&& result->Ok_0.page@ == self@.page_of(
                            draft.offset,
                            draft.end,
                            optional_str(cursor),
                            draft.next_cursor,
                        )
                        &&& draft.offset <= draft.end <= self@.entries.len()
                    },
                }
            }),
    {
        assert(self@.entries.len() == self.entries@.len());
        let wanted: usize = offset.saturating_add(limit);
        let end: usize = if wanted < self.entries.len() {
            wanted
        } else {
            self.entries.len()
        };
        let next_cursor: Option<String> = if !self.exhausted || end < self.entries.len() {
            match self.find_cursor(end, limit) {
                Some(name) => Some(name),
                None => Some(cursor_name(serial.saturating_add(1), end, limit)),
            }
        } else {
            None
        };
        assert(text::optional_text(next_cursor) == self@.continuation(
            serial,
            end as nat,
            limit as nat,
        ));
        let page = self.page_from(offset, end, cursor, next_cursor);
        let growth: usize = if self.exhausted {
            0
        } else {
            GROWTH_BYTES
        };
        match self.trim(serial, limit, message_limit, growth, offset, end, page) {
            None => Err(CacheError::ResourceLimit),
            Some(settled) => if settled.end == offset && offset < self.entries.len() {
                Err(CacheError::ResourceLimit)
            } else {
                Ok(settled)
            },
        }
    }

    fn page_from(
        &self,
        offset: usize,
        end: usize,
        cursor: Option<&str>,
        next_cursor: Option<String>,
    ) -> (page: ListingPage)
        requires
            offset <= end <= self.entries@.len(),
        ensures
            page@ == self@.page_of(
                offset as nat,
                end as nat,
                optional_str(cursor),
                text::optional_text(next_cursor),
            ),
    {
        let page = ListingPage {
            work: self.work.copy(),
            listing_revision: self.revision.clone(),
            directory_id: self.work.target_id.clone(),
            category: self.category,
            entries: copy_range(&self.entries, offset, end),
            cursor: match cursor {
                Some(cursor) => Some(cursor.to_owned()),
                None => None,
            },
            next_cursor,
            coverage: self.coverage,
            issues: self.work.issues.copy(),
        };
        assert(page@ =~= self@.page_of(
            offset as nat,
            end as nat,
            optional_str(cursor),
            text::optional_text(next_cursor),
        ));
        page
    }

    /// Takes entries off the end of a page until it fits a message.
    fn trim(
        &self,
        serial: u64,
        limit: usize,
        message_limit: usize,
        growth: usize,
        offset: usize,
        end: usize,
        page: ListingPage,
    ) -> (settled: Option<Settled>)
        requires
            offset <= end <= self.entries@.len(),
            page@ == self@.page_of(offset as nat, end as nat, page@.cursor, page@.next_cursor),
        ensures
            match self@.trimmed(
                serial,
                limit as nat,
                offset as nat,
                end as nat,
                page@.cursor,
                page@.next_cursor,
                growth as nat,
                message_limit as nat,
            ) {
                None => settled is None,
                Some(draft) => {
                    &&& settled is Some
                    &&& draft == (Draft {
                        offset: settled->0.offset as nat,
                        end: settled->0.end as nat,
                        next_cursor: settled->0.page@.next_cursor,
                        first_time: true,
                    })
                    &&& settled->0.first_time
                    &&& settled->0.offset == offset
                    &&& settled->0.page@ == self@.page_of(
                        draft.offset,
                        draft.end,
                        page@.cursor,
                        draft.next_cursor,
                    )
                    &&& draft.offset <= draft.end <= end
                },
            },
        decreases end,
    {
        assert(self@.entries.len() == self.entries@.len());
        let json: usize = byte_len(encode_page(&page).as_str());
        if json.saturating_add(growth) <= message_limit {
            return Some(Settled { offset, first_time: true, end, page });
        }
        if end == offset {
            return None;
        }
        let mut page = page;
        let ghost entries = page.entries@;
        let ghost before = page@;
        assert(model::views(entries).len() == entries.len());
        page.entries.pop();
        page.next_cursor = Some(cursor_name(serial.saturating_add(1), end - 1, limit));
        proof {
            assert(page.entries@ =~= entries.drop_last());
            assert(model::views(page.entries@) =~= model::views(entries).drop_last());
            assert(page@.entries =~= self@.entries.subrange(offset as int, end - 1));
            assert(page@ =~= self@.page_of(
                offset as nat,
                (end - 1) as nat,
                before.cursor,
                page@.next_cursor,
            ));
        }
        self.trim(serial, limit, message_limit, growth, offset, end - 1, page)
    }
}

/// Whether a text is that of a cursor that continues here.
pub open spec fn names_mark(cursor: Seq<char>, offset: nat, limit: nat) -> bool {
    exists|serial: nat| cursor == #[trigger] cursor_text(serial, offset, limit)
}

proof fn lemma_trimmed(
    snapshot: SnapshotView,
    serial: u64,
    limit: nat,
    offset: nat,
    end: nat,
    cursor: Option<Seq<char>>,
    next_cursor: Option<Seq<char>>,
    growth: nat,
    message_limit: nat,
)
    requires
        offset <= end,
        next_cursor is Some ==> names_mark(next_cursor->0, end, limit),
        next_cursor is None ==> end >= snapshot.entries.len() && snapshot.exhausted,
    ensures
        ({
            let draft = snapshot.trimmed(
                serial,
                limit,
                offset,
                end,
                cursor,
                next_cursor,
                growth,
                message_limit,
            );
            draft is Some ==> {
                &&& draft->0.first_time
                &&& draft->0.offset == offset
                &&& offset <= draft->0.end <= end
                &&& draft->0.next_cursor is Some ==> names_mark(
                    draft->0.next_cursor->0,
                    draft->0.end,
                    limit,
                )
                &&& draft->0.next_cursor is None ==> draft->0.end >= snapshot.entries.len()
                    && snapshot.exhausted
                &&& snapshot.page_fits(
                    offset,
                    draft->0.end,
                    cursor,
                    draft->0.next_cursor,
                    growth,
                    message_limit,
                )
            }
        }),
    decreases end,
{
    if !snapshot.page_fits(offset, end, cursor, next_cursor, growth, message_limit) && end
        > offset {
        let before = (end - 1) as nat;
        assert(new_cursor(serial, before, limit) == cursor_text(
            controller::next_serial(serial) as nat,
            before,
            limit,
        ));
        assert(names_mark(new_cursor(serial, before, limit), before, limit));
        lemma_trimmed(
            snapshot,
            serial,
            limit,
            offset,
            before,
            cursor,
            Some(new_cursor(serial, before, limit)),
            growth,
            message_limit,
        );
    }
}

/// A page that is handed out fits a message, holds no more entries than were asked for, starts
/// where its cursor points, and announces a cursor that continues where it ends; without one the
/// listing is finished and the page holds its last entry. A page that is read again is no
/// exception.
pub proof fn pages_fit_and_continue(
    snapshot: SnapshotView,
    serial: u64,
    cursor: Option<Seq<char>>,
    limit: nat,
    message_limit: nat,
)
    requires
        snapshot.wf(),
        snapshot.drafted(serial, cursor, limit, message_limit) is Ok,
    ensures
        ({
            let draft = snapshot.drafted(serial, cursor, limit, message_limit)->Ok_0;
            &&& snapshot.offset_at(cursor, limit) == Some(draft.offset)
            &&& draft.offset <= draft.end <= snapshot.entries.len()
            &&& draft.end <= draft.offset + limit
            &&& snapshot.page_fits(
                draft.offset,
                draft.end,
                cursor,
                draft.next_cursor,
                0,
                message_limit,
            )
            &&& draft.next_cursor is Some ==> names_mark(draft.next_cursor->0, draft.end, limit)
            &&& draft.next_cursor is None ==> draft.end == snapshot.entries.len()
                && snapshot.exhausted
            &&& draft.first_time <==> published(snapshot.pages, draft.offset, limit) is None
        }),
{
    let offset = snapshot.offset_at(cursor, limit)->0;
    if cursor is Some {
        assert(snapshot.cursors.contains_key(cursor->0));
    }
    match published(snapshot.pages, offset, limit) {
        Some(page) => {
            let at = choose|at: int| is_page(snapshot.pages, at, offset, limit);
            assert(snapshot.pages[at] == page);
            if page.next_cursor is Some {
                let next = page.next_cursor->0;
                assert(snapshot.cursors.contains_key(next));
                let n = choose|n: nat|
                    next == #[trigger] cursor_text(
                        n,
                        snapshot.cursors[next].offset,
                        snapshot.cursors[next].limit,
                    );
                assert(next == cursor_text(n, page.end, page.limit));
            }
        },
        None => {
            let end = if offset + limit <= snapshot.entries.len() {
                offset + limit
            } else {
                snapshot.entries.len()
            };
            let next = snapshot.continuation(serial, end, limit);
            if next is Some {
                let mark = MarkView { offset: end, limit };
                if cursor_to(snapshot.cursors, mark) is Some {
                    let found = choose|found: Seq<char>| leads_to(snapshot.cursors, mark, found);
                    assert(snapshot.cursors.contains_key(found));
                    let n = choose|n: nat|
                        found == #[trigger] cursor_text(
                            n,
                            snapshot.cursors[found].offset,
                            snapshot.cursors[found].limit,
                        );
                    assert(found == cursor_text(n, end, limit));
                } else {
                    assert(next->0 == cursor_text(
                        controller::next_serial(serial) as nat,
                        end,
                        limit,
                    ));
                }
                assert(names_mark(next->0, end, limit));
            }
            lemma_trimmed(
                snapshot,
                serial,
                limit,
                offset,
                end,
                cursor,
                next,
                if snapshot.exhausted {
                    0
                } else {
                    GROWTH_BYTES as nat
                },
                message_limit,
            );
        },
    }
}

pub proof fn lemma_recorded_wf(snapshot: SnapshotView, draft: Draft, limit: nat)
    requires
        snapshot.wf(),
        draft.offset <= draft.end <= snapshot.entries.len(),
        draft.end <= draft.offset + limit,
        draft.next_cursor is Some ==> names_mark(draft.next_cursor->0, draft.end, limit),
        draft.next_cursor is None ==> draft.end == snapshot.entries.len() && snapshot.exhausted,
        published(snapshot.pages, draft.offset, limit) is None,
    ensures
        snapshot.recorded(draft, limit).wf(),
{
    let after = snapshot.recorded(draft, limit);
    let mark = MarkView { offset: draft.end, limit };
    assert forall|cursor: Seq<char>| #[trigger] snapshot.cursors.contains_key(
        cursor,
    ) implies after.cursors.contains_key(cursor) && after.cursors[cursor]
        == snapshot.cursors[cursor] by {
        if draft.next_cursor == Some(cursor) {
            let n = choose|n: nat| cursor == #[trigger] cursor_text(n, draft.end, limit);
            let m = choose|m: nat|
                cursor == #[trigger] cursor_text(
                    m,
                    snapshot.cursors[cursor].offset,
                    snapshot.cursors[cursor].limit,
                );
            lemma_cursor_text(
                n,
                draft.end,
                limit,
                m,
                snapshot.cursors[cursor].offset,
                snapshot.cursors[cursor].limit,
            );
            assert(snapshot.cursors[cursor] == mark);
        }
    }
    assert forall|cursor: Seq<char>| #[trigger]
        after.cursors.contains_key(cursor) implies after.cursors[cursor].offset
        <= after.entries.len() && exists|serial: nat|
        cursor == #[trigger] cursor_text(
            serial,
            after.cursors[cursor].offset,
            after.cursors[cursor].limit,
        ) by {
        if !snapshot.cursors.contains_key(cursor) {
            assert(draft.next_cursor == Some(cursor));
            let n = choose|n: nat| cursor == #[trigger] cursor_text(n, draft.end, limit);
            assert(after.cursors[cursor] == mark);
            assert(cursor == cursor_text(
                n,
                after.cursors[cursor].offset,
                after.cursors[cursor].limit,
            ));
        } else {
            let n = choose|n: nat|
                cursor == #[trigger] cursor_text(
                    n,
                    snapshot.cursors[cursor].offset,
                    snapshot.cursors[cursor].limit,
                );
            assert(cursor == cursor_text(
                n,
                after.cursors[cursor].offset,
                after.cursors[cursor].limit,
            ));
        }
    }
    assert forall|i: int| 0 <= i < after.pages.len() implies (#[trigger] after.pages[i]).offset
        <= after.pages[i].end <= after.entries.len() && after.pages[i].end <= after.pages[i].offset
        + after.pages[i].limit && (after.pages[i].next_cursor is None ==> after.exhausted
        && after.pages[i].end == after.entries.len()) by {
        if i < snapshot.pages.len() {
            assert(after.pages[i] == snapshot.pages[i]);
        }
    }
    assert forall|i: int, j: int|
        #![trigger after.pages[i], after.pages[j]]
        0 <= i < after.pages.len() && 0 <= j < after.pages.len() && after.pages[i].offset
            == after.pages[j].offset && after.pages[i].limit == after.pages[j].limit implies i
        == j by {
        if i < snapshot.pages.len() {
            assert(after.pages[i] == snapshot.pages[i]);
        } else if j < snapshot.pages.len() {
            assert(is_page(snapshot.pages, j, draft.offset, limit));
        }
        if j < snapshot.pages.len() {
            assert(after.pages[j] == snapshot.pages[j]);
        } else if i < snapshot.pages.len() {
            assert(is_page(snapshot.pages, i, draft.offset, limit));
        }
    }
    assert forall|i: int|
        0 <= i < after.pages.len() && (
        #[trigger] after.pages[i]).next_cursor is Some implies after.cursors.contains_key(
    after.pages[i].next_cursor->0) && after.cursors[after.pages[i].next_cursor->0] == (MarkView {
        offset: after.pages[i].end,
        limit: after.pages[i].limit,
    }) by {
        if i < snapshot.pages.len() {
            assert(after.pages[i] == snapshot.pages[i]);
            assert(snapshot.cursors.contains_key(snapshot.pages[i].next_cursor->0));
        }
    }
}

impl ListingCache {
    /// Reads a page of a listing. The page limit is fixed by the first read, and a page that was
    /// handed out comes again with the same entries and the same continuation.
    #[verifier::rlimit(40)]
    #[verifier::spinoff_prover]
    pub fn page(
        &mut self,
        pool: &mut ByteBudget,
        task_id: &str,
        cursor: Option<&str>,
        limit: usize,
        now: u64,
    ) -> (result: Result<ListingPage, CacheError>)
        requires
            old(self).wf(),
            old(self).backed(old(pool)),
        ensures
            final(self).wf(),
            final(self).backed(final(pool)),
            final(pool).wf(),
            final(self).hold() == old(self).hold(),
            final(pool)@ == old(pool)@.resized(old(self).hold(), final(self)@.used()),
            ({
                let (after, answer) = old(self)@.paged(task_id@, optional_str(cursor), limit, now);
                &&& final(self)@ == after
                &&& match answer {
                    Ok(page) => result is Ok && result->Ok_0@ == page,
                    Err(error) => result == Err::<ListingPage, CacheError>(error),
                }
            }),
            result is Ok ==> result->Ok_0@.entries.len() <= limit,
    {
        let ghost before = *self;
        proof {
            before.lemma_wf(pool);
        }
        if limit == 0 || limit > 1000 {
            return Err(CacheError::InvalidArgument);
        }
        self.expire(pool, now);
        let ghost expired = *self;
        let at = match self.snapshots.find(task_id) {
            Some(at) => at,
            None => {
                return Err(
                    if cursor.is_some() {
                        CacheError::CursorExpired
                    } else {
                        CacheError::TaskExpired
                    },
                );
            },
        };
        let ghost found = self.snapshots.rows()[at as int].1;
        assert(expired@.snapshots.contains_key(task_id@));
        assert(expired@.snapshots[task_id@] == found@);
        assert(expired.snapshots@.contains_key(task_id@));
        let settled = match self.snapshots.value_at(at).draft(
            self.serial,
            cursor,
            limit,
            self.message_limit,
        ) {
            Ok(settled) => settled,
            Err(error) => {
                return Err(error);
            },
        };
        let ghost draft = found@.drafted(
            before@.serial,
            optional_str(cursor),
            limit as nat,
            before@.message_limit as nat,
        )->Ok_0;
        proof {
            pages_fit_and_continue(
                found@,
                before@.serial,
                optional_str(cursor),
                limit as nat,
                before@.message_limit as nat,
            );
        }
        let offset: usize = settled.offset;
        let demand: usize = offset.saturating_add(limit * 2);
        let snapshot = self.snapshots.value_mut(at);
        snapshot.last_used = now;
        snapshot.page_limit = Some(limit);
        if demand > snapshot.demand_end {
            snapshot.demand_end = demand;
        }
        let ghost touched = *self;
        proof {
            let changed = self.snapshots.rows()[at as int].1;
            assert(changed@ =~= found@.touched(now, limit, offset as nat));
            lemma_replaced(expired, *self, at as int, changed);
            assert(self@ =~= expired@.with(task_id@, changed@));
        }
        if settled.first_time {
            if self.serial == u64::MAX {
                return Err(CacheError::ResourceLimit);
            }
            self.serial = self.serial + 1;
            let pending = settled.end == settled.offset;
            let ghost middle = self.snapshots.rows()[at as int].1;
            let ghost next = text::optional_text(settled.page.next_cursor);
            proof {
                assert(middle@ == found@.touched(now, limit, offset as nat));
                assert(touched@.snapshots.contains_key(task_id@));
                lemma_touched_wf(found@, now, limit, offset as nat);
                lemma_recorded_wf(middle@, draft, limit as nat);
                assert(touched.snapshots@.contains_key(task_id@));
            }
            let snapshot = self.snapshots.value_mut(at);
            if let Some(name) = &settled.page.next_cursor {
                snapshot.cursors.insert(name.clone(), Mark { offset: settled.end, limit });
            }
            if !(pending && !snapshot.exhausted) {
                snapshot.pages.push(
                    PublishedPage {
                        offset: settled.offset,
                        limit,
                        end: settled.end,
                        next_cursor: copy_optional(&settled.page.next_cursor),
                    },
                );
            }
            proof {
                let changed = self.snapshots.rows()[at as int].1;
                assert(changed@.cursors =~= middle@.recorded(draft, limit as nat).cursors);
                assert(changed@.pages =~= middle@.recorded(draft, limit as nat).pages);
                assert(changed@ =~= middle@.recorded(draft, limit as nat));
                lemma_replaced(touched, *self, at as int, changed);
                assert(self@ =~= before@.paged(task_id@, optional_str(cursor), limit, now).0);
            }
        }
        Ok(settled.page)
    }
}

pub proof fn lemma_touched_wf(snapshot: SnapshotView, now: u64, limit: usize, offset: nat)
    requires
        snapshot.wf(),
    ensures
        snapshot.touched(now, limit, offset).wf(),
{
}

impl SnapshotView {
    /// Whether this is a later state of a listing: entries, pages and cursors were only added.
    pub open spec fn extends(self, earlier: SnapshotView) -> bool {
        &&& earlier.entries.len() <= self.entries.len()
        &&& self.entries.take(earlier.entries.len() as int) == earlier.entries
        &&& earlier.pages.len() <= self.pages.len()
        &&& self.pages.take(earlier.pages.len() as int) == earlier.pages
        &&& forall|cursor: Seq<char>| #[trigger]
            earlier.cursors.contains_key(cursor) ==> self.cursors.contains_key(cursor)
                && self.cursors[cursor] == earlier.cursors[cursor]
    }
}

/// Whatever is done to a listing only adds entries, pages and cursors.
pub proof fn listings_only_grow(
    snapshot: SnapshotView,
    entry: EntryView,
    bytes: nat,
    phase: Phase,
    issue: Option<IssueView>,
    now: u64,
    limit: usize,
    offset: nat,
    draft: Draft,
)
    requires
        snapshot.wf(),
        draft.next_cursor is Some ==> names_mark(draft.next_cursor->0, draft.end, limit as nat),
    ensures
        snapshot.extends(snapshot),
        snapshot.collected(entry, bytes).extends(snapshot),
        snapshot.finished(phase, issue).extends(snapshot),
        snapshot.touched(now, limit, offset).extends(snapshot),
        snapshot.recorded(draft, limit as nat).extends(snapshot),
{
    assert(snapshot.entries.take(snapshot.entries.len() as int) =~= snapshot.entries);
    assert(snapshot.pages.take(snapshot.pages.len() as int) =~= snapshot.pages);
    let collected = snapshot.collected(entry, bytes);
    assert(collected.entries.take(snapshot.entries.len() as int) =~= snapshot.entries);
    let recorded = snapshot.recorded(draft, limit as nat);
    assert(recorded.pages.take(snapshot.pages.len() as int) =~= snapshot.pages);
    assert forall|cursor: Seq<char>| #[trigger] snapshot.cursors.contains_key(
        cursor,
    ) implies recorded.cursors.contains_key(cursor) && recorded.cursors[cursor]
        == snapshot.cursors[cursor] by {
        if draft.next_cursor == Some(cursor) {
            let n = choose|n: nat| cursor == #[trigger] cursor_text(n, draft.end, limit as nat);
            let m = choose|m: nat|
                cursor == #[trigger] cursor_text(
                    m,
                    snapshot.cursors[cursor].offset,
                    snapshot.cursors[cursor].limit,
                );
            lemma_cursor_text(
                n,
                draft.end,
                limit as nat,
                m,
                snapshot.cursors[cursor].offset,
                snapshot.cursors[cursor].limit,
            );
        }
    }
}

/// A page that was handed out stays the same: any later read of it that succeeds brings the same
/// entries and the same continuation, whatever was collected in between.
pub proof fn pages_are_immutable(
    earlier: SnapshotView,
    later: SnapshotView,
    cursor: Option<Seq<char>>,
    limit: nat,
    serial: u64,
    message_limit: nat,
)
    requires
        earlier.wf(),
        later.wf(),
        later.extends(earlier),
        earlier.offset_at(cursor, limit) is Some,
        published(earlier.pages, earlier.offset_at(cursor, limit)->0, limit) is Some,
        later.drafted(serial, cursor, limit, message_limit) is Ok,
    ensures
        ({
            let page = published(earlier.pages, earlier.offset_at(cursor, limit)->0, limit)->0;
            let draft = later.drafted(serial, cursor, limit, message_limit)->Ok_0;
            &&& draft.offset == page.offset
            &&& draft.end == page.end
            &&& draft.next_cursor == page.next_cursor
            &&& !draft.first_time
            &&& later.entries.subrange(draft.offset as int, draft.end as int)
                == earlier.entries.subrange(page.offset as int, page.end as int)
        }),
{
    let offset = earlier.offset_at(cursor, limit)->0;
    if cursor is Some {
        assert(earlier.cursors.contains_key(cursor->0));
    }
    assert(later.offset_at(cursor, limit) == Some(offset));
    let at = choose|at: int| is_page(earlier.pages, at, offset, limit);
    assert(later.pages[at] == later.pages.take(earlier.pages.len() as int)[at]);
    assert(is_page(later.pages, at, offset, limit));
    let found = choose|at: int| is_page(later.pages, at, offset, limit);
    assert(later.pages[found].offset == later.pages[at].offset);
    assert(found == at);
    let page = earlier.pages[at];
    assert(page.offset <= page.end <= earlier.entries.len());
    assert(later.entries.subrange(page.offset as int, page.end as int) =~= later.entries.take(
        earlier.entries.len() as int,
    ).subrange(page.offset as int, page.end as int));
}

/// The continuation of a page leads to exactly the entries behind it: no entry is skipped and
/// none comes twice.
pub proof fn continuations_leave_no_gap(
    snapshot: SnapshotView,
    serial: u64,
    cursor: Option<Seq<char>>,
    limit: usize,
    message_limit: nat,
)
    requires
        snapshot.wf(),
        snapshot.drafted(serial, cursor, limit as nat, message_limit) is Ok,
        snapshot.drafted(serial, cursor, limit as nat, message_limit)->Ok_0.next_cursor is Some,
    ensures
        ({
            let draft = snapshot.drafted(serial, cursor, limit as nat, message_limit)->Ok_0;
            let after = if draft.first_time {
                snapshot.recorded(draft, limit as nat)
            } else {
                snapshot
            };
            after.offset_at(draft.next_cursor, limit as nat) == Some(draft.end)
        }),
{
    let draft = snapshot.drafted(serial, cursor, limit as nat, message_limit)->Ok_0;
    let offset = snapshot.offset_at(cursor, limit as nat)->0;
    if published(snapshot.pages, offset, limit as nat) is Some {
        let at = choose|at: int| is_page(snapshot.pages, at, offset, limit as nat);
        assert(snapshot.pages[at].next_cursor == draft.next_cursor);
        assert(snapshot.cursors.contains_key(snapshot.pages[at].next_cursor->0));
    }
    pages_fit_and_continue(snapshot, serial, cursor, limit as nat, message_limit);
}

/// A client that waits at the end of an unfinished listing gets the same cursor again, and the
/// listing does not grow by its asking.
pub proof fn waiting_costs_nothing(
    snapshot: SnapshotView,
    serial: u64,
    cursor: Option<Seq<char>>,
    limit: nat,
    message_limit: nat,
)
    requires
        snapshot.wf(),
        limit > 0,
        !snapshot.exhausted,
        snapshot.offset_at(cursor, limit) == Some(snapshot.entries.len()),
        cursor_to(
            snapshot.cursors,
            MarkView { offset: snapshot.entries.len(), limit },
        ) is Some,
        published(snapshot.pages, snapshot.entries.len(), limit) is None,
        snapshot.drafted(serial, cursor, limit, message_limit) is Ok,
    ensures
        ({
            let draft = snapshot.drafted(serial, cursor, limit, message_limit)->Ok_0;
            let mark = MarkView { offset: snapshot.entries.len(), limit };
            &&& draft.end == draft.offset
            &&& draft.next_cursor == cursor_to(snapshot.cursors, mark)
            &&& snapshot.recorded(draft, limit) == snapshot
        }),
{
    let mark = MarkView { offset: snapshot.entries.len(), limit };
    let found = choose|found: Seq<char>| leads_to(snapshot.cursors, mark, found);
    let draft = snapshot.drafted(serial, cursor, limit, message_limit)->Ok_0;
    assert(draft.next_cursor == Some(found));
    assert(snapshot.recorded(draft, limit).cursors =~= snapshot.cursors);
    assert(snapshot.recorded(draft, limit) =~= snapshot);
}

/// Once a listing has ended, nothing changes its phase, its issues or its entries.
pub proof fn finished_listings_stay(
    snapshot: SnapshotView,
    phase: Phase,
    issue: Option<IssueView>,
    again: Phase,
    other: Option<IssueView>,
)
    ensures
        snapshot.finished(phase, issue).exhausted,
        snapshot.finished(phase, issue).finished(again, other) == snapshot.finished(phase, issue),
{
}

/// A listing is complete only when it was completed without any issue.
pub proof fn completeness_means_no_issue(
    snapshot: SnapshotView,
    phase: Phase,
    issue: Option<IssueView>,
)
    requires
        !snapshot.exhausted,
    ensures
        snapshot.finished(phase, issue).coverage is Complete <==> (phase is Completed
            && issue is None && snapshot.work.issues.counts == Map::<Seq<char>, nat>::empty()),
{
    if issue is Some {
        let counts = snapshot.work.issues.with(issue->0).counts;
        assert(counts.contains_key(model::counted_as(issue->0.code)));
    }
}

/// A listing, its work and its cursors expire together.
pub proof fn listing_work_and_cursors_expire_together(
    cache: CacheView,
    id: Seq<char>,
    cursor: Seq<char>,
    limit: usize,
    now: u64,
)
    requires
        cache.snapshots.contains_key(id),
        !cache.snapshots[id].alive(now, cache.ttl_ms),
        0 < limit <= 1000,
    ensures
        !cache.expired(now).snapshots.contains_key(id),
        cache.paged(id, None, limit, now).1 == Err::<PageView, CacheError>(
            CacheError::TaskExpired,
        ),
        cache.paged(id, Some(cursor), limit, now).1 == Err::<PageView, CacheError>(
            CacheError::CursorExpired,
        ),
{
}

} // verus!
