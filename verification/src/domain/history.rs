//! What holds of a ledger and of an index through any history of calls.
use vstd::prelude::*;

use crate::domain::controller;
use crate::domain::controller::{LedgerView, RequestView, ScopeView};
use crate::domain::index;
use crate::domain::index::{
    DirectoryIndex, IndexPools, IndexView, KeyView, Origin, RecordView,
};
use crate::domain::model::{EntryView, UsageView};
use crate::domain::wire;
use crate::runtime::memory;
use crate::runtime::memory::PoolView;
use crate::text_map;

verus! {

/// A call of a ledger.
pub enum LedgerCall<T> {
    Ask { number: u64, fingerprint: Seq<char>, now: u64 },
    Complete { number: u64, result: T },
}

impl<T> LedgerView<T> {
    /// The ledger after a call.
    pub open spec fn after(self, call: LedgerCall<T>) -> LedgerView<T> {
        match call {
            LedgerCall::Ask { number, fingerprint, now } => self.answered(
                number,
                fingerprint,
                now,
            ).0,
            LedgerCall::Complete { number, result } => self.completed(number, result),
        }
    }

    /// The ledger after some calls, one after the other.
    pub open spec fn after_all(self, calls: Seq<LedgerCall<T>>) -> LedgerView<T>
        decreases calls.len(),
    {
        if calls.len() == 0 {
            self
        } else {
            self.after_all(calls.drop_last()).after(calls.last())
        }
    }

    /// This request is the only one that is remembered under its number, if any is.
    spec fn remembers_only(self, request: RequestView<T>) -> bool {
        &&& request.number <= self.high_water
        &&& forall|i: int|
            0 <= i < self.records.len() && (#[trigger] self.records[i]).number == request.number
                ==> self.records[i] == request
    }
}

proof fn lemma_high_water<T>(ledger: LedgerView<T>, calls: Seq<LedgerCall<T>>)
    ensures
        ledger.after_all(calls).high_water >= ledger.high_water,
    decreases calls.len(),
{
    if calls.len() > 0 {
        lemma_high_water(ledger, calls.drop_last());
    }
}

/// A number is admitted at most once: whatever is asked and completed after its admission, it is
/// never new again, whether its request is still remembered or not.
pub proof fn a_request_is_admitted_once<T>(
    ledger: LedgerView<T>,
    number: u64,
    fingerprint: Seq<char>,
    now: u64,
    calls: Seq<LedgerCall<T>>,
    again: Seq<char>,
    later: u64,
)
    requires
        ledger.answered(number, fingerprint, now).1 is New,
    ensures
        !(ledger.answered(number, fingerprint, now).0.after_all(calls).answered(
            number,
            again,
            later,
        ).1 is New),
{
    lemma_high_water(ledger.answered(number, fingerprint, now).0, calls);
}

proof fn lemma_filter_part<T>(
    records: Seq<RequestView<T>>,
    keep: spec_fn(RequestView<T>) -> bool,
    i: int,
)
    requires
        0 <= i < records.filter(keep).len(),
    ensures
        records.contains(records.filter(keep)[i]),
    decreases records.len(),
{
    reveal(Seq::filter);
    if records.len() > 0 {
        let head = records.drop_last();
        if i < head.filter(keep).len() {
            lemma_filter_part(head, keep, i);
            let j = choose|j: int| 0 <= j < head.len() && head[j] == head.filter(keep)[i];
            assert(records[j] == records.filter(keep)[i]);
        } else {
            assert(records[records.len() - 1] == records.filter(keep)[i]);
        }
    }
}

proof fn lemma_room_part<T>(records: Seq<RequestView<T>>, max_records: nat, i: int)
    requires
        0 <= i < controller::with_room(records, max_records).len(),
    ensures
        records.contains(controller::with_room(records, max_records)[i]),
    decreases records.len(),
{
    let at = controller::first_completed(records, 0);
    if records.len() < max_records || !(0 <= at < records.len()) {
        assert(records[i] == controller::with_room(records, max_records)[i]);
    } else {
        let next = records.remove(at);
        lemma_room_part(next, max_records, i);
        let j = choose|j: int|
            0 <= j < next.len() && next[j] == controller::with_room(next, max_records)[i];
        assert(next[j] == records[if j < at { j } else { j + 1 }]);
    }
}

#[verifier::spinoff_prover]
#[verifier::rlimit(40)]
proof fn lemma_remembers_only<T>(
    ledger: LedgerView<T>,
    call: LedgerCall<T>,
    request: RequestView<T>,
)
    requires
        ledger.remembers_only(request),
        request.result is Some,
    ensures
        ledger.after(call).remembers_only(request),
{
    let after = ledger.after(call);
    match call {
        LedgerCall::Ask { number, fingerprint, now } => {
            let keep = |record: RequestView<T>| record.live(now, ledger.ttl_ms);
            let live = ledger.live(now);
            assert(live == ledger.records.filter(keep));
            let room = controller::with_room(live, ledger.max_records as nat);
            assert forall|i: int| 0 <= i < live.len() && (
            #[trigger] live[i]).number == request.number implies live[i] == request by {
                lemma_filter_part(ledger.records, keep, i);
                let j = choose|j: int|
                    0 <= j < ledger.records.len() && ledger.records[j] == live[i];
                assert(ledger.records[j] == live[i]);
            }
            assert forall|i: int| 0 <= i < room.len() && (
            #[trigger] room[i]).number == request.number implies room[i] == request by {
                lemma_room_part(live, ledger.max_records as nat, i);
                let j = choose|j: int| 0 <= j < live.len() && live[j] == room[i];
                assert(live[j] == room[i]);
            }
            assert forall|i: int| 0 <= i < after.records.len() && (
            #[trigger] after.records[i]).number == request.number implies after.records[i]
                == request by {
                if i < room.len() {
                    assert(room[i].number == room[i].number);
                }
                if i < live.len() {
                    assert(live[i].number == live[i].number);
                }
            }
        },
        LedgerCall::Complete { number, result } => {
            if exists|at: int| controller::has_number(ledger.records, at, number) {
                let at = choose|at: int| controller::has_number(ledger.records, at, number);
                assert forall|i: int| 0 <= i < after.records.len() && (
                #[trigger] after.records[i]).number == request.number implies after.records[i]
                    == request by {
                    assert(ledger.records[i].number == request.number);
                }
            }
        },
    }
}

proof fn lemma_remembers_only_all<T>(
    ledger: LedgerView<T>,
    calls: Seq<LedgerCall<T>>,
    request: RequestView<T>,
)
    requires
        ledger.remembers_only(request),
        request.result is Some,
    ensures
        ledger.after_all(calls).remembers_only(request),
    decreases calls.len(),
{
    if calls.len() > 0 {
        lemma_remembers_only_all(ledger, calls.drop_last(), request);
        lemma_remembers_only(ledger.after_all(calls.drop_last()), calls.last(), request);
    }
}

/// The first result of a request is kept: whatever is asked and completed afterwards, as long as
/// the request is remembered it is with that result, and with the fingerprint that it came with.
pub proof fn the_first_result_is_kept<T>(
    ledger: LedgerView<T>,
    at: int,
    calls: Seq<LedgerCall<T>>,
    later: int,
)
    requires
        ledger.wf(),
        0 <= at < ledger.records.len(),
        ledger.records[at].result is Some,
        controller::has_number(
            ledger.after_all(calls).records,
            later,
            ledger.records[at].number,
        ),
    ensures
        ledger.after_all(calls).records[later] == ledger.records[at],
{
    let request = ledger.records[at];
    assert forall|i: int| 0 <= i < ledger.records.len() && (
    #[trigger] ledger.records[i]).number == request.number implies ledger.records[i] == request by {
        if i < at {
            assert(ledger.records[i].number < ledger.records[at].number);
        } else if at < i {
            assert(ledger.records[at].number < ledger.records[i].number);
        }
    }
    lemma_remembers_only_all(ledger, calls, request);
}

/// A call of an index, with the pool that it is charged to and what a new directory costs.
pub enum IndexCall {
    Register { pool: PoolView, key: KeyView, origin: Origin, cost: nat },
    Bind { pool: PoolView, scope: ScopeView },
    Expose { pool: PoolView, id: Seq<char>, entry: EntryView },
    Measure { usage: UsageView },
}

impl IndexView {
    /// The index after a call.
    pub open spec fn after(self, call: IndexCall) -> IndexView {
        match call {
            IndexCall::Register { pool, key, origin, cost } => self.registered(
                pool,
                key,
                origin,
                cost,
            ),
            IndexCall::Bind { pool, scope } => self.bound(pool, scope),
            IndexCall::Expose { pool, id, entry } => self.exposed(pool, id, entry),
            IndexCall::Measure { usage } => self.with_usage(usage),
        }
    }

    /// The index after some calls, one after the other.
    pub open spec fn after_all(self, calls: Seq<IndexCall>) -> IndexView
        decreases calls.len(),
    {
        if calls.len() == 0 {
            self
        } else {
            self.after_all(calls.drop_last()).after(calls.last())
        }
    }

    /// Whether what is known of a directory is a later state of what was known of it.
    pub open spec fn continues(self, id: Seq<char>, record: RecordView) -> bool {
        &&& self.records.contains_key(id)
        &&& self.records[id].key == record.key
        &&& record.usage is Some ==> {
            &&& self.records[id].usage is Some
            &&& self.records[id].usage->0.usage_revision >= record.usage->0.usage_revision
            &&& self.records[id].usage->0.usage_revision == record.usage->0.usage_revision
                ==> self.records[id].usage == record.usage
        }
    }
}

/// A call leaves an index in order, and what is known of a directory goes on.
#[verifier::spinoff_prover]
#[verifier::rlimit(40)]
pub proof fn lemma_index_call(index: IndexView, call: IndexCall)
    requires
        index.wf(),
        index.records.dom().finite(),
    ensures
        index.after(call).wf(),
        index.after(call).records.dom().finite(),
        forall|id: Seq<char>, record: RecordView|
            index.continues(id, record) ==> #[trigger] index.after(call).continues(id, record),
{
    let after = index.after(call);
    match call {
        IndexCall::Register { pool, key, origin, cost } => {
            if index.registers(pool, key, origin, cost) {
                index::registering_adds_one_directory(index, pool, key, origin, cost);
                assert(after.records.dom() =~= index.records.dom().insert(
                    index::id_text(index.prefix, (index.next + 1) as nat),
                ));
            } else {
                assert(after.records == index.records);
            }
        },
        IndexCall::Bind { pool, scope } => {
            assert(after.records == index.records);
        },
        IndexCall::Expose { pool, id, entry } => {
            if after.records != index.records {
                let record = RecordView { entry: Some(entry), ..index.records[id] };
                assert(index.records[id].belongs_to(id));
                index::lemma_replaced_wf(index, id, record, after);
            }
        },
        IndexCall::Measure { usage } => {
            if after.records != index.records {
                let id = usage.directory_id;
                let record = RecordView { usage: Some(usage), ..index.records[id] };
                assert(index.records[id].belongs_to(id));
                index::lemma_replaced_wf(index, id, record, after);
            }
        },
    }
}

proof fn lemma_index_calls(index: IndexView, calls: Seq<IndexCall>, id: Seq<char>)
    requires
        index.wf(),
        index.records.dom().finite(),
        index.records.contains_key(id),
    ensures
        index.after_all(calls).wf(),
        index.after_all(calls).records.dom().finite(),
        index.after_all(calls).continues(id, index.records[id]),
    decreases calls.len(),
{
    if calls.len() > 0 {
        lemma_index_calls(index, calls.drop_last(), id);
        lemma_index_call(index.after_all(calls.drop_last()), calls.last());
    }
}

/// An id names one directory for good: whatever is registered, exposed, measured or bound
/// afterwards, it stays and keeps its key.
pub proof fn an_id_keeps_its_key(index: IndexView, id: Seq<char>, calls: Seq<IndexCall>)
    requires
        index.wf(),
        index.records.dom().finite(),
        index.records.contains_key(id),
    ensures
        index.after_all(calls).wf(),
        index.after_all(calls).records.contains_key(id),
        index.after_all(calls).records[id].key == index.records[id].key,
{
    lemma_index_calls(index, calls, id);
}

/// A directory keeps its id: a key that was answered with an id is answered with the same id ever
/// after, whatever happens in between and whatever the pools hold then.
pub proof fn a_key_keeps_its_id(
    index: IndexView,
    pool: PoolView,
    key: KeyView,
    origin: Origin,
    cost: nat,
    calls: Seq<IndexCall>,
    later_pool: PoolView,
    later_origin: Origin,
    later_cost: nat,
)
    requires
        index.wf(),
        index.records.dom().finite(),
        index.register_answer(pool, key, origin, cost) is Ok,
    ensures
        index.registered(pool, key, origin, cost).after_all(calls).register_answer(
            later_pool,
            key,
            later_origin,
            later_cost,
        ) == index.register_answer(pool, key, origin, cost),
{
    let id = index.register_answer(pool, key, origin, cost)->Ok_0;
    let first = index.registered(pool, key, origin, cost);
    if index.registers(pool, key, origin, cost) {
        index::registering_adds_one_directory(index, pool, key, origin, cost);
        assert(first.records.dom() =~= index.records.dom().insert(id));
    }
    assert(first.records.contains_key(id) && first.records[id].key == key);
    lemma_index_calls(first, calls, id);
    index::known_directories_keep_their_id(
        first.after_all(calls),
        later_pool,
        id,
        later_origin,
        later_cost,
    );
}

/// What is known of a directory's usage never goes back: whatever happens afterwards its revision
/// is at least as high, and the same revision brings the same usage.
pub proof fn usage_never_goes_back(index: IndexView, id: Seq<char>, calls: Seq<IndexCall>)
    requires
        index.wf(),
        index.records.dom().finite(),
        index.records.contains_key(id),
        index.records[id].usage is Some,
    ensures
        ({
            let later = index.after_all(calls).records[id].usage;
            &&& later is Some
            &&& later->0.usage_revision >= index.records[id].usage->0.usage_revision
            &&& later->0.usage_revision == index.records[id].usage->0.usage_revision ==> later
                == index.records[id].usage
        }),
{
    lemma_index_calls(index, calls, id);
}

/// Whether a pool changed only where another owner has its hold, or by a new hold.
pub open spec fn changed_elsewhere(before: PoolView, after: PoolView, hold: int) -> bool {
    ||| after == before
    ||| exists|other: int, bytes: nat|
        0 <= other < before.sizes.len() && other != hold && after == #[trigger] before.resized(
            other,
            bytes,
        )
    ||| exists|bytes: nat| after == #[trigger] before.reserved(bytes)
}

/// Whatever other owners of its pools do with holds of their own, an index stays backed: indexes
/// can share their pools.
pub proof fn other_holds_leave_an_index_backed(
    index: &DirectoryIndex,
    before: &IndexPools,
    after: &IndexPools,
)
    requires
        index.wf(),
        index.backed(before),
        after.wf(),
        changed_elsewhere(before.background@, after.background@, index.background_id()),
        changed_elsewhere(before.foreground@, after.foreground@, index.foreground_id()),
    ensures
        index.backed(after),
{
    index.lemma_backed(before);
    index.lemma_backed(after);
}

/// What an exposed entry of a directory is charged.
spec fn exposure() -> spec_fn(RecordView) -> nat {
    |record: RecordView|
        match record.entry {
            Some(entry) => wire::entry_estimate(entry),
            None => 0,
        }
}

/// An index with the two pools that it is charged to, and its hold in each.
#[verifier::ext_equal]
pub struct IndexBooks {
    pub index: IndexView,
    pub background: PoolView,
    pub foreground: PoolView,
    pub background_hold: int,
    pub foreground_hold: int,
}

/// A call of an index that is charged to its own pools, or what others do meanwhile with holds of
/// theirs.
pub enum BookCall {
    Register { key: KeyView, origin: Origin, cost: nat },
    Bind { scope: ScopeView },
    Expose { id: Seq<char>, entry: EntryView },
    Measure { usage: UsageView },
    Elsewhere { background: PoolView, foreground: PoolView },
}

impl IndexBooks {
    /// The pools are in order and have on their books what the index holds, and that covers every
    /// exposed entry.
    pub closed spec fn in_order(self) -> bool {
        &&& self.index.wf()
        &&& self.index.records.dom().finite()
        &&& self.background.wf()
        &&& self.foreground.wf()
        &&& 0 <= self.background_hold < self.background.sizes.len()
        &&& 0 <= self.foreground_hold < self.foreground.sizes.len()
        &&& self.background.sizes[self.background_hold] == self.index.background
        &&& self.foreground.sizes[self.foreground_hold] == self.index.foreground
        &&& text_map::sum_over(self.index.records, exposure()) <= self.index.foreground
    }

    /// The same with another index, whose holds the pools take over.
    pub open spec fn holding(self, index: IndexView) -> IndexBooks {
        IndexBooks {
            index,
            background: self.background.resized(self.background_hold, index.background),
            foreground: self.foreground.resized(self.foreground_hold, index.foreground),
            ..self
        }
    }

    /// The books after a call. What others do leaves the pools in order and the holds alone.
    pub open spec fn after(self, call: BookCall) -> IndexBooks {
        match call {
            BookCall::Register { key, origin, cost } => self.holding(
                self.index.registered(
                    match origin {
                        Origin::Background => self.background,
                        Origin::Foreground => self.foreground,
                    },
                    key,
                    origin,
                    cost,
                ),
            ),
            BookCall::Bind { scope } => self.holding(self.index.bound(self.foreground, scope)),
            BookCall::Expose { id, entry } => self.holding(
                self.index.exposed(self.foreground, id, entry),
            ),
            BookCall::Measure { usage } => self.holding(self.index.with_usage(usage)),
            BookCall::Elsewhere { background, foreground } => if background.wf() && foreground.wf()
                && changed_elsewhere(self.background, background, self.background_hold)
                && changed_elsewhere(self.foreground, foreground, self.foreground_hold) {
                IndexBooks { background, foreground, ..self }
            } else {
                self
            },
        }
    }

    /// The books after some calls, one after the other.
    pub open spec fn after_all(self, calls: Seq<BookCall>) -> IndexBooks
        decreases calls.len(),
    {
        if calls.len() == 0 {
            self
        } else {
            self.after_all(calls.drop_last()).after(calls.last())
        }
    }
}

/// A new index in empty pools has its books in order.
pub proof fn new_books_are_in_order(prefix: Seq<char>, background: PoolView, foreground: PoolView)
    requires
        background.wf(),
        foreground.wf(),
    ensures
        (IndexBooks {
            index: IndexView::fresh(prefix),
            background: background.reserved(0),
            foreground: foreground.reserved(0),
            background_hold: background.sizes.len() as int,
            foreground_hold: foreground.sizes.len() as int,
        }).in_order(),
{
    let index = IndexView::fresh(prefix);
    memory::lemma_total_push(background.sizes, 0);
    memory::lemma_total_push(foreground.sizes, 0);
    text_map::lemma_rows_of(index.records);
    let rows = text_map::rows_of(index.records);
    text_map::lemma_map_of(rows);
    assert(rows.len() == 0);
}

/// A pool that takes over a hold that it can afford stays in order.
proof fn lemma_resized(pool: PoolView, hold: int, bytes: nat)
    requires
        pool.wf(),
        0 <= hold < pool.sizes.len(),
        pool.used - pool.sizes[hold] + bytes <= pool.limit,
    ensures
        pool.resized(hold, bytes).wf(),
        pool.resized(hold, bytes).sizes[hold] == bytes,
        pool.resized(hold, bytes).sizes.len() == pool.sizes.len(),
        pool.sizes[hold] <= pool.used,
{
    memory::lemma_total_update(pool.sizes, hold, bytes);
}

#[verifier::spinoff_prover]
#[verifier::rlimit(40)]
proof fn lemma_books(books: IndexBooks, call: BookCall)
    requires
        books.in_order(),
    ensures
        books.after(call).in_order(),
{
    let index = books.index;
    let after = books.after(call);
    memory::lemma_total_update(books.background.sizes, books.background_hold, 0);
    memory::lemma_total_update(books.foreground.sizes, books.foreground_hold, 0);
    match call {
        BookCall::Register { key, origin, cost } => {
            let pool = match origin {
                Origin::Background => books.background,
                Origin::Foreground => books.foreground,
            };
            lemma_index_call(index, IndexCall::Register { pool, key, origin, cost });
            if index.registers(pool, key, origin, cost) {
                index::registering_adds_one_directory(index, pool, key, origin, cost);
                text_map::lemma_sum_put(
                    index.records,
                    index::id_text(index.prefix, (index.next + 1) as nat),
                    RecordView { key, entry: None, usage: None },
                    exposure(),
                );
            }
            lemma_resized(books.background, books.background_hold, after.index.background);
            lemma_resized(books.foreground, books.foreground_hold, after.index.foreground);
        },
        BookCall::Bind { scope } => {
            lemma_index_call(index, IndexCall::Bind { pool: books.foreground, scope });
            lemma_resized(books.background, books.background_hold, after.index.background);
            lemma_resized(books.foreground, books.foreground_hold, after.index.foreground);
        },
        BookCall::Expose { id, entry } => {
            lemma_index_call(index, IndexCall::Expose { pool: books.foreground, id, entry });
            if index.records.contains_key(id) {
                text_map::lemma_sum_put(
                    index.records,
                    id,
                    RecordView { entry: Some(entry), ..index.records[id] },
                    exposure(),
                );
            }
            lemma_resized(books.background, books.background_hold, after.index.background);
            lemma_resized(books.foreground, books.foreground_hold, after.index.foreground);
        },
        BookCall::Measure { usage } => {
            lemma_index_call(index, IndexCall::Measure { usage });
            let id = usage.directory_id;
            if index.records.contains_key(id) {
                text_map::lemma_sum_put(
                    index.records,
                    id,
                    RecordView { usage: Some(usage), ..index.records[id] },
                    exposure(),
                );
            }
            lemma_resized(books.background, books.background_hold, after.index.background);
            lemma_resized(books.foreground, books.foreground_hold, after.index.foreground);
        },
        BookCall::Elsewhere { .. } => {},
    }
}

proof fn lemma_books_all(books: IndexBooks, calls: Seq<BookCall>)
    requires
        books.in_order(),
    ensures
        books.after_all(calls).in_order(),
    decreases calls.len(),
{
    if calls.len() > 0 {
        lemma_books_all(books, calls.drop_last());
        lemma_books(books.after_all(calls.drop_last()), calls.last());
    }
}

/// The bytes that an index is charged for are always on the books of its pools and within their
/// limits: whatever is called, and whatever others do meanwhile with holds of their own.
pub proof fn index_bytes_stay_on_the_books(books: IndexBooks, calls: Seq<BookCall>)
    requires
        books.in_order(),
    ensures
        ({
            let later = books.after_all(calls);
            &&& later.in_order()
            &&& later.background.sizes[books.background_hold] == later.index.background
            &&& later.foreground.sizes[books.foreground_hold] == later.index.foreground
            &&& later.index.background <= later.background.used <= later.background.limit
            &&& later.index.foreground <= later.foreground.used <= later.foreground.limit
        }),
{
    lemma_books_all(books, calls);
    lemma_books_holds(books, calls);
    let later = books.after_all(calls);
    memory::lemma_total_update(later.background.sizes, later.background_hold, 0);
    memory::lemma_total_update(later.foreground.sizes, later.foreground_hold, 0);
}

proof fn lemma_books_holds(books: IndexBooks, calls: Seq<BookCall>)
    ensures
        books.after_all(calls).background_hold == books.background_hold,
        books.after_all(calls).foreground_hold == books.foreground_hold,
    decreases calls.len(),
{
    if calls.len() > 0 {
        lemma_books_holds(books, calls.drop_last());
    }
}

/// What an index holds in a pool is within what the pool has lent, and that within its limit.
/// Every call leaves an index backed by its pools, so this holds at any time.
pub proof fn an_index_stays_within_its_pools(index: &DirectoryIndex, pools: &IndexPools)
    requires
        index.wf(),
        index.backed(pools),
    ensures
        index@.background <= pools.background@.used <= pools.background@.limit,
        index@.foreground <= pools.foreground@.used <= pools.foreground@.limit,
{
    index.lemma_backed(pools);
    memory::lemma_total_update(pools.background@.sizes, index.background_id(), 0);
    memory::lemma_total_update(pools.foreground@.sizes, index.foreground_id(), 0);
}

} // verus!
