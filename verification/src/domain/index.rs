//! Generation-owned directory index. Raw component names never cross the IPC boundary.
use vstd::prelude::*;

use crate::domain::controller;
use crate::domain::controller::{Scope, ScopeView};
use crate::domain::model::{
    Capacity, CapacityState, DirectoryUsage, Entry, EntryView, Kind, UsageView, Value,
};
use crate::domain::wire;
use crate::domain::wire::{encode_usage, estimate_entry};
use crate::runtime::memory::{ByteBudget, PoolView, Reservation};
use crate::text;
use crate::text::{byte_len, holds_byte, numeral, same_bytes, same_optional, same_text};
use crate::text_map;
use crate::text_map::TextMap;

verus! {

/// Who asked for a directory to be known.
#[derive(Debug, Clone, Copy, PartialEq, Eq, Structural)]
pub enum Origin {
    Background,
    Foreground,
}

/// Why the index refused.
#[derive(Debug, Clone, Copy, PartialEq, Eq, Structural)]
pub enum IndexError {
    ResourceLimit,
    EntryExpired,
    InvalidArgument,
    EntryChanged,
}

/// The longest component of a path, in bytes.
pub const MAX_COMPONENT_BYTES: usize = 765;

/// What one directory is charged for its summary: fixed room for two measurements, all partial
/// reasons, the bounded ids and timestamps, and map nodes. Exposed entry metadata is charged
/// separately, including its UTF-8 storage.
pub const SUMMARY_BYTES: usize = 2048;

/// A directory by its parent and its raw name.
#[derive(Debug, PartialEq, Eq)]
pub struct DirectoryKey {
    pub parent_id: Option<String>,
    pub raw_name: Vec<u8>,
}

/// What a key says.
#[verifier::ext_equal]
pub struct KeyView {
    pub parent_id: Option<Seq<char>>,
    pub raw_name: Seq<u8>,
}

impl View for DirectoryKey {
    type V = KeyView;

    open spec fn view(&self) -> KeyView {
        KeyView { parent_id: text::optional_text(self.parent_id), raw_name: self.raw_name@ }
    }
}

impl Value for DirectoryKey {
    fn copy(&self) -> (other: Self) {
        DirectoryKey {
            parent_id: crate::domain::model::copy_optional(&self.parent_id),
            raw_name: copy_bytes(&self.raw_name),
        }
    }

    fn same(&self, other: &Self) -> (same: bool) {
        same_bytes(self.raw_name.as_slice(), other.raw_name.as_slice()) && same_optional(
            &self.parent_id,
            &other.parent_id,
        )
    }
}

impl Clone for DirectoryKey {
    fn clone(&self) -> (other: Self)
        ensures
            other@ == self@,
    {
        self.copy()
    }
}

/// A copy of a byte string.
pub fn copy_bytes(bytes: &Vec<u8>) -> (other: Vec<u8>)
    ensures
        other@ == bytes@,
{
    let mut other: Vec<u8> = Vec::new();
    other.extend_from_slice(bytes.as_slice());
    assert(other@ =~= bytes@);
    other
}

/// A component that a directory can have: not too long, no separator, no NUL, not a dot entry.
pub open spec fn component_allowed(name: Seq<u8>, max: nat) -> bool {
    &&& name.len() <= max
    &&& !name.contains(0u8)
    &&& !name.contains(47u8)
    &&& name != seq![46u8]
    &&& name != seq![46u8, 46u8]
}

/// Whether a name can be that of a directory's component.
pub fn is_component(name: &[u8], max: usize) -> (allowed: bool)
    ensures
        allowed == component_allowed(name@, max as nat),
{
    if name.len() > max || holds_byte(name, 0) || holds_byte(name, 47) {
        return false;
    }
    if name.len() == 1 && name[0] == 46 {
        assert(name@ =~= seq![46u8]);
        return false;
    }
    if name.len() == 2 && name[0] == 46 && name[1] == 46 {
        assert(name@ =~= seq![46u8, 46u8]);
        return false;
    }
    true
}

struct Record {
    key: DirectoryKey,
    entry: Option<Entry>,
    usage: Option<DirectoryUsage>,
}

/// What the index knows of one directory.
#[verifier::ext_equal]
pub struct RecordView {
    pub key: KeyView,
    pub entry: Option<EntryView>,
    pub usage: Option<UsageView>,
}

/// The content of an optional value.
pub open spec fn optional<T: View>(value: Option<T>) -> Option<T::V> {
    match value {
        Some(value) => Some(value@),
        None => None,
    }
}

impl View for Record {
    type V = RecordView;

    closed spec fn view(&self) -> RecordView {
        RecordView {
            key: self.key@,
            entry: optional(self.entry),
            usage: optional(self.usage),
        }
    }
}

/// The two pools that an index is charged to.
pub struct IndexPools {
    pub background: ByteBudget,
    pub foreground: ByteBudget,
}

impl IndexPools {
    /// Both pools' books are in order.
    pub open spec fn wf(&self) -> bool {
        self.background.wf() && self.foreground.wf()
    }

    /// Two empty pools.
    pub fn new(background_limit: usize, foreground_limit: usize) -> (pools: Self)
        ensures
            pools.wf(),
            pools.background@.limit == background_limit,
            pools.background@.used == 0,
            pools.foreground@.limit == foreground_limit,
            pools.foreground@.used == 0,
    {
        IndexPools {
            background: ByteBudget::new(background_limit),
            foreground: ByteBudget::new(foreground_limit),
        }
    }
}

/// The directories of one generation. `background` and `foreground` are what the index holds in
/// the two pools.
#[verifier::ext_equal]
pub struct IndexView {
    pub records: Map<Seq<char>, RecordView>,
    pub prefix: Seq<char>,
    pub next: u64,
    pub background: nat,
    pub foreground: nat,
    pub capacity: Capacity,
    pub scope: Option<ScopeView>,
}

/// The id of the `n`th directory.
pub open spec fn id_text(prefix: Seq<char>, n: nat) -> Seq<char> {
    Seq::<char>::empty() + prefix + "-"@ + text::decimal(n)
}

/// Two directories of one index never share an id.
pub proof fn lemma_id_text_injective(prefix: Seq<char>, a: nat, b: nat)
    requires
        id_text(prefix, a) == id_text(prefix, b),
    ensures
        a == b,
{
    reveal_strlit("-");
    let start = prefix.len() + 1;
    let x = id_text(prefix, a);
    let y = id_text(prefix, b);
    assert(x.skip(start as int) =~= text::decimal(a));
    assert(y.skip(start as int) =~= text::decimal(b));
    text::lemma_decimal(a);
    text::lemma_decimal(b);
}

/// Whether this id was given to one of the first `count` directories.
pub open spec fn numbered(prefix: Seq<char>, count: nat, id: Seq<char>) -> bool {
    exists|n: nat| 1 <= n <= count && id == #[trigger] id_text(prefix, n)
}

impl IndexView {
    /// Ids are numbered, keys are unique, parents are known, and what is known of a directory
    /// belongs to it.
    pub open spec fn wf(self) -> bool {
        &&& forall|id: Seq<char>| #[trigger]
            self.records.contains_key(id) ==> numbered(self.prefix, self.next as nat, id)
                && self.records[id].belongs_to(id)
        &&& forall|id: Seq<char>| #[trigger]
            self.records.contains_key(id) && self.records[id].key.parent_id is Some
                ==> self.records.contains_key(self.records[id].key.parent_id->0)
        &&& forall|a: Seq<char>, b: Seq<char>| #[trigger]
            self.records.contains_key(a) && #[trigger] self.records.contains_key(b)
                && self.records[a].key == self.records[b].key ==> a == b
        &&& self.records.dom().len() > 0 ==> text::utf8(self.prefix).len() <= 128
    }

    /// Whether a directory with this key has this id.
    pub open spec fn has_key(self, key: KeyView, id: Seq<char>) -> bool {
        self.records.contains_key(id) && self.records[id].key == key
    }

    /// The id of the directory with this key.
    pub open spec fn id_of(self, key: KeyView) -> Option<Seq<char>> {
        if exists|id: Seq<char>| self.has_key(key, id) {
            Some(choose|id: Seq<char>| self.has_key(key, id))
        } else {
            None
        }
    }

    /// Why a new directory with this key cannot be registered, whatever the pools hold.
    pub open spec fn refusal(self, key: KeyView) -> Option<IndexError> {
        if !component_allowed(key.raw_name, MAX_COMPONENT_BYTES as nat) || text::utf8(
            self.prefix,
        ).len() > 128 {
            Some(IndexError::InvalidArgument)
        } else if key.parent_id is Some && (key.raw_name.len() == 0 || !self.records.contains_key(
            key.parent_id->0,
        )) {
            Some(IndexError::EntryExpired)
        } else if key.parent_id is None && self.records != Map::<Seq<char>, RecordView>::empty() {
            Some(IndexError::InvalidArgument)
        } else if self.next == u64::MAX {
            Some(IndexError::ResourceLimit)
        } else {
            None
        }
    }

    /// What the index holds in one pool.
    pub open spec fn held(self, origin: Origin) -> nat {
        match origin {
            Origin::Background => self.background,
            Origin::Foreground => self.foreground,
        }
    }

    /// The index with another hold on one pool.
    pub open spec fn holding(self, origin: Origin, bytes: nat) -> IndexView {
        match origin {
            Origin::Background => IndexView { background: bytes, ..self },
            Origin::Foreground => IndexView { foreground: bytes, ..self },
        }
    }

    /// The index after it was refused more of one pool.
    pub open spec fn limited(self, origin: Origin) -> IndexView {
        let capacity = match origin {
            Origin::Background => Capacity {
                background: CapacityState::Limited,
                ..self.capacity
            },
            Origin::Foreground => Capacity {
                foreground: CapacityState::Limited,
                ..self.capacity
            },
        };
        IndexView { capacity, ..self }
    }

    /// The index after a charge of `amount`, granted or not.
    pub open spec fn charged(self, pool: PoolView, origin: Origin, amount: nat) -> IndexView {
        if pool.affords(amount) {
            self.holding(origin, self.held(origin) + amount)
        } else if self.held(origin) + amount > usize::MAX {
            self
        } else {
            self.limited(origin)
        }
    }

    /// Whether registering this key at this cost charges the pool.
    pub open spec fn registers(self, pool: PoolView, key: KeyView, origin: Origin, cost: nat) -> bool {
        self.id_of(key) is None && self.refusal(key) is None && pool.affords(cost)
    }

    /// What registering a key at a cost answers.
    pub open spec fn register_answer(
        self,
        pool: PoolView,
        key: KeyView,
        origin: Origin,
        cost: nat,
    ) -> Result<Seq<char>, IndexError> {
        match self.id_of(key) {
            Some(id) => Ok(id),
            None => match self.refusal(key) {
                Some(error) => Err(error),
                None => if pool.affords(cost) {
                    Ok(id_text(self.prefix, (self.next + 1) as nat))
                } else {
                    Err(IndexError::ResourceLimit)
                },
            },
        }
    }

    /// The index after registering a key at a cost.
    pub open spec fn registered(
        self,
        pool: PoolView,
        key: KeyView,
        origin: Origin,
        cost: nat,
    ) -> IndexView {
        if self.id_of(key) is Some || self.refusal(key) is Some {
            self
        } else if pool.affords(cost) {
            IndexView {
                records: self.records.insert(
                    id_text(self.prefix, (self.next + 1) as nat),
                    RecordView { key, entry: None, usage: None },
                ),
                next: (self.next + 1) as u64,
                ..self.charged(pool, origin, cost)
            }
        } else {
            self.charged(pool, origin, cost)
        }
    }

    /// What an exposed entry of this directory costs.
    pub open spec fn entry_cost(self, id: Seq<char>) -> nat {
        match self.records[id].entry {
            Some(entry) => wire::entry_estimate(entry),
            None => 0,
        }
    }
}

impl RecordView {
    /// The entry and the usage are those of the directory with this id.
    pub open spec fn belongs_to(self, id: Seq<char>) -> bool {
        &&& self.usage is Some ==> self.usage->0.directory_id == id
        &&& self.entry is Some ==> self.entry->0.entry_id == id && self.entry->0.kind is Directory
            && self.entry->0.parent_id == self.key.parent_id
    }
}

/// Directories by id, their keys and what was observed of them.
pub struct DirectoryIndex {
    records: TextMap<Record>,
    prefix: String,
    next: u64,
    background: Reservation,
    foreground: Reservation,
    capacity: Capacity,
    scope: Option<Scope>,
}

spec fn record_cost(record: RecordView) -> nat {
    match record.entry {
        Some(entry) => wire::entry_estimate(entry),
        None => 0,
    }
}

/// The cost of all exposed entries.
spec fn exposed_cost(rows: Seq<(Seq<char>, Record)>) -> nat {
    text_map::sum_of(rows, |record: Record| record_cost(record@))
}

impl View for DirectoryIndex {
    type V = IndexView;

    closed spec fn view(&self) -> IndexView {
        IndexView {
            records: text_map::shown(self.records@),
            prefix: self.prefix@,
            next: self.next,
            background: self.background.size(),
            foreground: self.foreground.size(),
            capacity: self.capacity,
            scope: controller::optional_scope(self.scope),
        }
    }
}

/// `Vec::capacity` of a byte string, which the documentation of `Vec` promises to be at least
/// its length. What an allocator gave beyond that is not stated.
#[verifier::external_body]
fn bytes_capacity(bytes: &Vec<u8>) -> (capacity: usize)
    ensures
        capacity >= bytes@.len(),
{
    bytes.capacity()
}

/// `String::capacity`, which the documentation of `String` promises to be at least its length
/// in bytes. What an allocator gave beyond that is not stated.
#[verifier::external_body]
fn text_capacity(text: &String) -> (capacity: usize)
    ensures
        capacity >= text::utf8(text@).len(),
{
    text.capacity()
}

/// Whether a text of this content can have allocated this many bytes, by its own capacity.
pub closed spec fn text_takes(content: Seq<char>, bytes: nat) -> bool {
    exists|text: String, capacity: usize|
        {
            &&& text@ == content
            &&& capacity == bytes
            &&& #[trigger] call_ensures(text_capacity, (&text,), capacity)
        }
}

/// A text has allocated at least the bytes of its content.
pub proof fn lemma_text_takes(content: Seq<char>, bytes: nat)
    requires
        text_takes(content, bytes),
    ensures
        bytes >= text::utf8(content).len(),
{
}

/// The bytes that a text has allocated.
pub(crate) fn allocated(text: &String) -> (bytes: usize)
    ensures
        text_takes(text@, bytes as nat),
        bytes >= text::utf8(text@).len(),
{
    let bytes: usize = text_capacity(text);
    assert(call_ensures(text_capacity, (text,), bytes));
    bytes
}

/// Whether a new directory with this key and this id can cost this much: what its names have
/// allocated is charged twice, and what its id has allocated four times.
pub closed spec fn costs(key: DirectoryKey, id: Seq<char>, cost: nat) -> bool {
    exists|names: usize, parent: nat, own: nat|
        {
            &&& #[trigger] call_ensures(bytes_capacity, (&key.raw_name,), names)
            &&& #[trigger] parent_takes(key.parent_id, parent)
            &&& #[trigger] text_takes(id, own)
            &&& cost == wire::clip(SUMMARY_BYTES as nat + 2 * names as nat + 2 * parent + 4 * own)
        }
}

/// Whether the id of a parent can have allocated this many bytes; no parent takes none.
pub closed spec fn parent_takes(parent: Option<String>, bytes: nat) -> bool {
    match parent {
        Some(id) => text_takes(id@, bytes),
        None => bytes == 0,
    }
}

impl IndexView {
    /// Whether registering this key as the next directory can cost this much: a key with this
    /// content can have allocated so much.
    pub open spec fn may_cost(self, key: KeyView, cost: nat) -> bool {
        exists|given: DirectoryKey|
            given@ == key && #[trigger] costs(
                given,
                id_text(self.prefix, (self.next + 1) as nat),
                cost,
            )
    }
}

/// The least that a new directory costs.
pub open spec fn least_cost(key: KeyView, id: Seq<char>) -> nat {
    wire::clip(
        SUMMARY_BYTES as nat + 2 * key.raw_name.len() + (match key.parent_id {
            Some(parent) => 2 * text::utf8(parent).len(),
            None => 0,
        }) + 4 * text::utf8(id).len(),
    )
}

impl DirectoryIndex {
    /// The directories and the holds are in order.
    pub closed spec fn wf(&self) -> bool {
        &&& self.records.wf()
        &&& self@.wf()
        &&& self.foreground.size() >= exposed_cost(self.records.rows())
        &&& self@.records.dom().finite()
    }

    /// The pools have this index's holds on their books.
    pub closed spec fn backed(&self, pools: &IndexPools) -> bool {
        &&& pools.wf()
        &&& pools.background.holds(&self.background)
        &&& pools.foreground.holds(&self.foreground)
    }

    /// An index is backed by all pools whose books are in order and give its two holds what it
    /// uses.
    pub proof fn lemma_backed(&self, pools: &IndexPools)
        requires
            self.wf(),
        ensures
            self.backed(pools) <==> {
                &&& pools.wf()
                &&& 0 <= self.background_id() < pools.background@.sizes.len()
                &&& pools.background@.sizes[self.background_id()] == self@.background
                &&& 0 <= self.foreground_id() < pools.foreground@.sizes.len()
                &&& pools.foreground@.sizes[self.foreground_id()] == self@.foreground
            },
    {
    }

    /// Which reservation of the background pool is the index's.
    pub closed spec fn background_id(&self) -> int {
        self.background.id()
    }

    /// Which reservation of the foreground pool is the index's.
    pub closed spec fn foreground_id(&self) -> int {
        self.foreground.id()
    }

    /// What is known of a well-formed index: its directories, and that the holds are its own.
    pub proof fn lemma_wf(&self)
        requires
            self.wf(),
        ensures
            self@.wf(),
            self@.records.dom().finite(),
    {
    }

    /// The pools after a hold of this index became `bytes` large.
    pub open spec fn repooled(
        &self,
        before: &IndexPools,
        after: &IndexPools,
        origin: Origin,
        bytes: nat,
    ) -> bool {
        match origin {
            Origin::Background => {
                &&& after.background@ == before.background@.resized(self.background_id(), bytes)
                &&& after.foreground@ == before.foreground@
            },
            Origin::Foreground => {
                &&& after.foreground@ == before.foreground@.resized(self.foreground_id(), bytes)
                &&& after.background@ == before.background@
            },
        }
    }

    /// What registering a key at a cost does to the index and to the pools, and what it answers.
    pub open spec fn registration(
        before: &Self,
        pools_before: &IndexPools,
        after: &Self,
        pools_after: &IndexPools,
        key: KeyView,
        origin: Origin,
        cost: nat,
        result: Result<String, IndexError>,
    ) -> bool {
        let pool = Self::pool(pools_before, origin);
        &&& after@ == before@.registered(pool, key, origin, cost)
        &&& match before@.register_answer(pool, key, origin, cost) {
            Ok(id) => result is Ok && result->Ok_0@ == id,
            Err(error) => result == Err::<String, IndexError>(error),
        }
        &&& if before@.registers(pool, key, origin, cost) {
            before.repooled(pools_before, pools_after, origin, before@.held(origin) + cost)
        } else {
            pools_after.background@ == pools_before.background@ && pools_after.foreground@
                == pools_before.foreground@
        }
    }

    /// The same holds on the same reservations.
    pub open spec fn same_holds(&self, other: &Self) -> bool {
        &&& self.background_id() == other.background_id()
        &&& self.foreground_id() == other.foreground_id()
    }

    /// The pool that an origin is charged to.
    pub open spec fn pool(pools: &IndexPools, origin: Origin) -> PoolView {
        match origin {
            Origin::Background => pools.background@,
            Origin::Foreground => pools.foreground@,
        }
    }

    /// An empty index with pools of its own.
    pub fn new(prefix: String, background_limit: usize, foreground_limit: usize) -> (created: (
        Self,
        IndexPools,
    ))
        ensures
            created.0.wf(),
            created.0.backed(&created.1),
            created.1.wf(),
            created.0@ == IndexView::fresh(prefix@),
            created.1.background@.limit == background_limit,
            created.1.background@.used == 0,
            created.1.foreground@.limit == foreground_limit,
            created.1.foreground@.used == 0,
    {
        let mut pools = IndexPools::new(background_limit, foreground_limit);
        let index = Self::with_budgets(prefix, &mut pools);
        (index, pools)
    }

    /// An empty index in shared pools.
    pub fn with_budgets(prefix: String, pools: &mut IndexPools) -> (index: Self)
        requires
            old(pools).wf(),
        ensures
            index.wf(),
            index.backed(final(pools)),
            final(pools).wf(),
            index@ == IndexView::fresh(prefix@),
            final(pools).background@ == old(pools).background@.reserved(0),
            final(pools).foreground@ == old(pools).foreground@.reserved(0),
            index.background_id() == old(pools).background@.sizes.len(),
            index.foreground_id() == old(pools).foreground@.sizes.len(),
    {
        let background = reserve_nothing(&mut pools.background);
        let foreground = reserve_nothing(&mut pools.foreground);
        let index = DirectoryIndex {
            records: TextMap::new(),
            prefix,
            next: 0,
            background,
            foreground,
            capacity: Capacity {
                background: CapacityState::Available,
                foreground: CapacityState::Available,
            },
            scope: None,
        };
        assert(index@ =~= IndexView::fresh(prefix@));
        index
    }
}

/// What a bound scope costs.
pub open spec fn scope_cost(scope: ScopeView) -> nat {
    256 + 2 * text::utf8(scope.session_id).len()
}

impl IndexView {
    /// What binding a scope answers.
    pub open spec fn bind_answer(self, foreground: PoolView, scope: ScopeView) -> Result<
        (),
        IndexError,
    > {
        if !scope.valid() {
            Err(IndexError::InvalidArgument)
        } else if self.scope is Some {
            if self.scope == Some(scope) {
                Ok(())
            } else {
                Err(IndexError::InvalidArgument)
            }
        } else if foreground.affords(scope_cost(scope)) {
            Ok(())
        } else {
            Err(IndexError::ResourceLimit)
        }
    }

    /// The index after binding a scope.
    pub open spec fn bound(self, foreground: PoolView, scope: ScopeView) -> IndexView {
        if !scope.valid() || self.scope is Some {
            self
        } else if foreground.affords(scope_cost(scope)) {
            IndexView {
                scope: Some(scope),
                ..self.charged(foreground, Origin::Foreground, scope_cost(scope))
            }
        } else {
            self.charged(foreground, Origin::Foreground, scope_cost(scope))
        }
    }
}

/// One more directory leaves the index in order.
proof fn lemma_registered_wf(before: IndexView, key: KeyView, after: IndexView)
    requires
        before.wf(),
        before.records.dom().finite(),
        before.id_of(key) is None,
        before.refusal(key) is None,
        after.prefix == before.prefix,
        after.next == before.next + 1,
        after.records == before.records.insert(
            id_text(before.prefix, (before.next + 1) as nat),
            RecordView { key, entry: None, usage: None },
        ),
    ensures
        after.wf(),
        after.records.dom().finite(),
{
    let fresh = id_text(before.prefix, (before.next + 1) as nat);
    assert forall|id: Seq<char>| #[trigger] after.records.contains_key(id) implies numbered(
        after.prefix,
        after.next as nat,
        id,
    ) && after.records[id].belongs_to(id) by {
        if id == fresh {
            assert(id == id_text(after.prefix, (before.next + 1) as nat));
        } else {
            assert(before.records.contains_key(id));
            let n = choose|n: nat|
                1 <= n <= before.next as nat && id == #[trigger] id_text(before.prefix, n);
            assert(id == id_text(after.prefix, n));
        }
    }
    assert forall|a: Seq<char>, b: Seq<char>| #[trigger]
        after.records.contains_key(a) && #[trigger] after.records.contains_key(b)
            && after.records[a].key == after.records[b].key implies a == b by {
        if a != b && a == fresh {
            assert(before.has_key(key, b));
        } else if a != b && b == fresh {
            assert(before.has_key(key, a));
        } else if a != b {
            assert(before.records.contains_key(a) && before.records.contains_key(b));
        }
    }
    assert forall|id: Seq<char>| #[trigger]
        after.records.contains_key(id) && after.records[id].key.parent_id is Some implies after.records.contains_key(
    after.records[id].key.parent_id->0) by {
        if id != fresh {
            assert(before.records.contains_key(id));
        }
    }
}

/// A reservation of no bytes, for which every pool has room.
pub(crate) fn reserve_nothing(budget: &mut ByteBudget) -> (reservation: Reservation)
    requires
        old(budget).wf(),
    ensures
        final(budget).wf(),
        final(budget)@ == old(budget)@.reserved(0),
        final(budget).holds(&reservation),
        reservation.size() == 0,
        reservation.id() == old(budget)@.sizes.len(),
{
    match budget.reserve(0) {
        Ok(reservation) => reservation,
        Err(_) => {
            assert(false);
            vstd::pervasive::unreached()
        },
    }
}

impl IndexView {
    /// No directories yet.
    pub open spec fn fresh(prefix: Seq<char>) -> IndexView {
        IndexView {
            records: Map::empty(),
            prefix,
            next: 0,
            background: 0,
            foreground: 0,
            capacity: Capacity {
                background: CapacityState::Available,
                foreground: CapacityState::Available,
            },
            scope: None,
        }
    }
}

impl DirectoryIndex {
    /// Adds `amount` to one hold. When the pool has no room the index is marked as limited.
    fn charge(&mut self, pools: &mut IndexPools, origin: Origin, amount: usize) -> (result: Result<
        (),
        IndexError,
    >)
        requires
            old(self).wf(),
            old(self).backed(old(pools)),
        ensures
            final(self).wf(),
            final(self).backed(final(pools)),
            final(pools).wf(),
            final(self).same_holds(old(self)),
            final(self).records == old(self).records,
            final(self)@ == old(self)@.charged(
                Self::pool(old(pools), origin),
                origin,
                amount as nat,
            ),
            result == (if Self::pool(old(pools), origin).affords(amount as nat) {
                Ok(())
            } else {
                Err::<(), IndexError>(IndexError::ResourceLimit)
            }),
            result is Ok ==> old(self).repooled(
                old(pools),
                final(pools),
                origin,
                old(self)@.held(origin) + amount as nat,
            ),
            result is Err ==> final(pools).background@ == old(pools).background@
                && final(pools).foreground@ == old(pools).foreground@,
    {
        proof {
            crate::runtime::memory::pool_is_never_overbooked(
                pools.background@,
                pools.background@.sizes,
            );
            crate::runtime::memory::lemma_total_update(
                pools.background@.sizes,
                self.background.id(),
                0,
            );
            crate::runtime::memory::lemma_total_update(
                pools.foreground@.sizes,
                self.foreground.id(),
                0,
            );
        }
        match origin {
            Origin::Background => {
                let target: usize = match self.background.bytes().checked_add(amount) {
                    Some(target) => target,
                    None => {
                        return Err(IndexError::ResourceLimit);
                    },
                };
                if self.background.resize(&mut pools.background, target).is_err() {
                    self.capacity.background = CapacityState::Limited;
                    return Err(IndexError::ResourceLimit);
                }
            },
            Origin::Foreground => {
                let target: usize = match self.foreground.bytes().checked_add(amount) {
                    Some(target) => target,
                    None => {
                        return Err(IndexError::ResourceLimit);
                    },
                };
                if self.foreground.resize(&mut pools.foreground, target).is_err() {
                    self.capacity.foreground = CapacityState::Limited;
                    return Err(IndexError::ResourceLimit);
                }
            },
        }
        Ok(())
    }

    /// Binds the index to a scope, once. The same scope may be bound again.
    pub fn bind_scope(&mut self, pools: &mut IndexPools, scope: &Scope) -> (result: Result<
        (),
        IndexError,
    >)
        requires
            old(self).wf(),
            old(self).backed(old(pools)),
        ensures
            final(self).wf(),
            final(self).backed(final(pools)),
            final(pools).wf(),
            final(self).same_holds(old(self)),
            result == old(self)@.bind_answer(old(pools).foreground@, scope@),
            final(self)@ == old(self)@.bound(old(pools).foreground@, scope@),
            result is Ok && old(self)@.scope is None ==> old(self).repooled(
                old(pools),
                final(pools),
                Origin::Foreground,
                old(self)@.foreground + scope_cost(scope@),
            ),
            result is Err || old(self)@.scope is Some ==> final(pools).background@ == old(
                pools,
            ).background@ && final(pools).foreground@ == old(pools).foreground@,
    {
        if !scope.is_valid() {
            return Err(IndexError::InvalidArgument);
        }
        if let Some(current) = &self.scope {
            return if current.same(scope) {
                Ok(())
            } else {
                Err(IndexError::InvalidArgument)
            };
        }
        let len: usize = byte_len(scope.session_id.as_str());
        if let Err(error) = self.charge(pools, Origin::Foreground, 256 + len * 2) {
            return Err(error);
        }
        self.scope = Some(scope.copy());
        Ok(())
    }

    /// Whether the index still takes new directories.
    pub fn capacity(&self) -> (capacity: Capacity)
        ensures
            capacity == self@.capacity,
    {
        self.capacity
    }

    /// What the index holds in the background and in the foreground pool.
    pub fn managed_bytes(&self) -> (bytes: (usize, usize))
        ensures
            bytes.0 == self@.background,
            bytes.1 == self@.foreground,
    {
        (self.background.bytes(), self.foreground.bytes())
    }

    /// The number of directories.
    pub fn len(&self) -> (len: usize)
        requires
            self.wf(),
        ensures
            len == self@.records.len(),
    {
        let len: usize = self.records.len();
        assert(self@.records.dom() =~= self.records@.dom());
        len
    }

    /// Whether no directory is known.
    pub fn is_empty(&self) -> (empty: bool)
        requires
            self.wf(),
        ensures
            empty == (self@.records == Map::<Seq<char>, RecordView>::empty()),
    {
        let len: usize = self.len();
        proof {
            if len == 0 {
                assert(self@.records.dom() =~= Set::<Seq<char>>::empty());
                assert(self@.records =~= Map::<Seq<char>, RecordView>::empty());
            }
        }
        len == 0
    }

    /// The bound scope.
    pub fn scope(&self) -> (scope: Option<&Scope>)
        ensures
            scope is Some <==> self@.scope is Some,
            scope is Some ==> Some(scope->0@) == self@.scope,
    {
        self.scope.as_ref()
    }

    /// The common start of all ids.
    pub fn prefix(&self) -> (prefix: &str)
        ensures
            prefix@ == self@.prefix,
    {
        self.prefix.as_str()
    }

    fn find_key(&self, key: &DirectoryKey) -> (id: Option<String>)
        requires
            self.wf(),
        ensures
            match id {
                Some(id) => self@.id_of(key@) == Some(id@) && self@.has_key(key@, id@),
                None => self@.id_of(key@) is None,
            },
    {
        let ghost rows = self.records.rows();
        proof {
            text_map::lemma_map_of(rows);
        }
        let len: usize = self.records.len();
        let mut i: usize = 0;
        while i < len
            invariant
                i <= len,
                len == rows.len(),
                rows == self.records.rows(),
                self.wf(),
                forall|j: int|
                    0 <= j < rows.len() ==> self.records@.contains_key((#[trigger] rows[j]).0)
                        && self.records@[rows[j].0] == rows[j].1,
                forall|j: int| 0 <= j < i ==> (#[trigger] rows[j]).1@.key != key@,
            decreases len - i,
        {
            if self.records.value_at(i).key.same(key) {
                let id = self.records.key_at(i).clone();
                assert(rows[i as int].0 == id@);
                assert(self@.has_key(key@, id@));
                assert forall|other: Seq<char>| self@.has_key(key@, other) implies other == id@ by {
                    assert(self@.records.contains_key(other));
                    assert(self@.records.contains_key(id@));
                }
                return Some(id);
            }
            i = i + 1;
        }
        proof {
            if exists|id: Seq<char>| self@.has_key(key@, id) {
                let id = choose|id: Seq<char>| self@.has_key(key@, id);
                assert(self.records@.contains_key(id));
                let j = choose|j: int| 0 <= j < rows.len() && (#[trigger] rows[j]).0 == id;
                assert(rows[j].1@.key != key@);
            }
        }
        None
    }

    fn refuses(&self, key: &DirectoryKey) -> (error: Option<IndexError>)
        requires
            self.wf(),
        ensures
            error == self@.refusal(key@),
    {
        if !is_component(key.raw_name.as_slice(), MAX_COMPONENT_BYTES) || byte_len(
            self.prefix.as_str(),
        ) > 128 {
            return Some(IndexError::InvalidArgument);
        }
        match &key.parent_id {
            Some(parent_id) => {
                if key.raw_name.len() == 0 || !self.records.contains(parent_id.as_str()) {
                    return Some(IndexError::EntryExpired);
                }
            },
            None => {
                if !self.is_empty() {
                    return Some(IndexError::InvalidArgument);
                }
            },
        }
        if self.next == u64::MAX {
            Some(IndexError::ResourceLimit)
        } else {
            None
        }
    }

    fn id_at(&self, n: u128) -> (id: String)
        ensures
            id@ == id_text(self@.prefix, n as nat),
    {
        let mut id = String::new();
        id.append(self.prefix.as_str());
        id.append("-");
        id.append(numeral(n).as_str());
        id
    }

    /// Gives a directory its id, charging `cost` when it is new. A directory that is already
    /// known keeps its id and costs nothing.
    pub fn register_costing(
        &mut self,
        pools: &mut IndexPools,
        key: DirectoryKey,
        origin: Origin,
        cost: usize,
    ) -> (result: Result<String, IndexError>)
        requires
            old(self).wf(),
            old(self).backed(old(pools)),
        ensures
            final(self).wf(),
            final(self).backed(final(pools)),
            final(pools).wf(),
            final(self).same_holds(old(self)),
            Self::registration(
                old(self),
                old(pools),
                final(self),
                final(pools),
                key@,
                origin,
                cost as nat,
                result,
            ),
    {
        let ghost before = self@;
        if let Some(id) = self.find_key(&key) {
            return Ok(id);
        }
        if let Some(error) = self.refuses(&key) {
            return Err(error);
        }
        let id = self.id_at(self.next as u128 + 1);
        if let Err(error) = self.charge(pools, origin, cost) {
            return Err(error);
        }
        let ghost held = self@;
        let ghost rows = self.records.rows();
        let ghost shown_key = key@;
        proof {
            if before.records.contains_key(id@) {
                assert(numbered(before.prefix, before.next as nat, id@));
                let n = choose|n: nat|
                    1 <= n <= before.next as nat && id@ == #[trigger] id_text(before.prefix, n);
                lemma_id_text_injective(before.prefix, n, (before.next + 1) as nat);
            }
            assert(!self.records@.contains_key(id@));
        }
        self.next = self.next + 1;
        let record = Record { key, entry: None, usage: None };
        let ghost shown_record = record@;
        let ghost before_map = self.records@;
        self.records.insert(id.clone(), record);
        proof {
            let at = choose|at: int|
                0 <= at <= rows.len() && self.records.rows() == #[trigger] rows.insert(
                    at,
                    (id@, record),
                );
            text_map::lemma_sum_insert(
                rows,
                at,
                (id@, record),
                |record: Record| record_cost(record@),
            );
            assert(text_map::shown(self.records@) =~= text_map::shown(before_map).insert(id@, shown_record));
            assert(self@ =~= before.registered(
                Self::pool(old(pools), origin),
                shown_key,
                origin,
                cost as nat,
            ));
            lemma_registered_wf(before, shown_key, self@);
        }
        Ok(id)
    }

    /// Gives a directory its id. What a new one costs depends on the memory that its names
    /// have allocated.
    pub fn register(&mut self, pools: &mut IndexPools, key: DirectoryKey, origin: Origin) -> (
    result: Result<String, IndexError>)
        requires
            old(self).wf(),
            old(self).backed(old(pools)),
        ensures
            final(self).wf(),
            final(self).backed(final(pools)),
            final(pools).wf(),
            final(self).same_holds(old(self)),
            exists|cost: nat|
                {
                    &&& #[trigger] Self::registration(
                        old(self),
                        old(pools),
                        final(self),
                        final(pools),
                        key@,
                        origin,
                        cost,
                        result,
                    )
                    &&& costs(
                        key,
                        id_text(old(self)@.prefix, (old(self)@.next + 1) as nat),
                        cost,
                    )
                    &&& old(self)@.may_cost(key@, cost)
                    &&& cost >= least_cost(
                        key@,
                        id_text(old(self)@.prefix, (old(self)@.next + 1) as nat),
                    )
                },
    {
        let ghost before = *self;
        let ghost shown_key = key@;
        let ghost given = key;
        let names: usize = bytes_capacity(&key.raw_name);
        assert(call_ensures(bytes_capacity, (&given.raw_name,), names));
        let parent: usize = match &key.parent_id {
            Some(parent_id) => allocated(parent_id),
            None => 0,
        };
        assert(parent_takes(given.parent_id, parent as nat));
        let id = self.id_at(self.next as u128 + 1);
        let own: usize = allocated(&id);
        let cost: usize = SUMMARY_BYTES.saturating_add(names).saturating_add(names).saturating_add(
            parent,
        ).saturating_add(parent).saturating_add(own).saturating_add(own).saturating_add(
            own,
        ).saturating_add(own);
        assert(costs(given, id@, cost as nat));
        let result = self.register_costing(pools, key, origin, cost);
        assert(Self::registration(
            &before,
            old(pools),
            self,
            pools,
            shown_key,
            origin,
            cost as nat,
            result,
        ));
        result
    }
}

impl IndexView {
    /// Whether an entry may be exposed as that of a directory.
    pub open spec fn entry_fits(self, id: Seq<char>, entry: EntryView) -> bool {
        &&& entry.entry_id == id
        &&& entry.kind is Directory
        &&& entry.parent_id == self.records[id].key.parent_id
    }

    /// What exposing an entry adds to the foreground hold.
    pub open spec fn added_cost(self, id: Seq<char>, entry: EntryView) -> int {
        wire::entry_estimate(entry) - self.entry_cost(id)
    }

    /// What exposing an entry answers.
    pub open spec fn expose_answer(
        self,
        foreground: PoolView,
        id: Seq<char>,
        entry: EntryView,
    ) -> Result<(), IndexError> {
        if !self.records.contains_key(id) {
            Err(IndexError::EntryExpired)
        } else if !self.entry_fits(id, entry) {
            Err(IndexError::InvalidArgument)
        } else if self.records[id].entry == Some(entry) || self.added_cost(id, entry) <= 0
            || foreground.affords(self.added_cost(id, entry) as nat) {
            Ok(())
        } else {
            Err(IndexError::ResourceLimit)
        }
    }

    /// The index after exposing an entry.
    pub open spec fn exposed(
        self,
        foreground: PoolView,
        id: Seq<char>,
        entry: EntryView,
    ) -> IndexView {
        if self.expose_answer(foreground, id, entry) is Ok {
            if self.records[id].entry == Some(entry) {
                self
            } else {
                IndexView {
                    records: self.records.insert(
                        id,
                        RecordView { entry: Some(entry), ..self.records[id] },
                    ),
                    foreground: (self.foreground + self.added_cost(id, entry)) as nat,
                    ..self
                }
            }
        } else if self.records.contains_key(id) && self.entry_fits(id, entry) {
            self.charged(foreground, Origin::Foreground, self.added_cost(id, entry) as nat)
        } else {
            self
        }
    }

    /// What storing a usage answers.
    pub open spec fn usage_answer(self, usage: UsageView) -> Result<bool, IndexError> {
        if wire::json_len(wire::usage_json(usage)) > SUMMARY_BYTES / 2 {
            Err(IndexError::ResourceLimit)
        } else if !self.records.contains_key(usage.directory_id) {
            Err(IndexError::EntryExpired)
        } else {
            match self.records[usage.directory_id].usage {
                Some(stored) => Ok(stored.usage_revision < usage.usage_revision),
                None => Ok(true),
            }
        }
    }

    /// The index after storing a usage. Older revisions than the stored one change nothing.
    pub open spec fn with_usage(self, usage: UsageView) -> IndexView {
        if self.usage_answer(usage) == Ok::<bool, IndexError>(true) {
            IndexView {
                records: self.records.insert(
                    usage.directory_id,
                    RecordView { usage: Some(usage), ..self.records[usage.directory_id] },
                ),
                ..self
            }
        } else {
            self
        }
    }
}

/// Replacing what is known of one directory leaves the index in order.
pub proof fn lemma_replaced_wf(before: IndexView, id: Seq<char>, record: RecordView, after: IndexView)
    requires
        before.wf(),
        before.records.dom().finite(),
        before.records.contains_key(id),
        record.key == before.records[id].key,
        record.belongs_to(id),
        after.prefix == before.prefix,
        after.next == before.next,
        after.records == before.records.insert(id, record),
    ensures
        after.wf(),
        after.records.dom().finite(),
{
    assert(after.records.dom() =~= before.records.dom());
    assert forall|other: Seq<char>| #[trigger] after.records.contains_key(other) implies numbered(
        after.prefix,
        after.next as nat,
        other,
    ) && after.records[other].belongs_to(other) && after.records[other].key
        == before.records[other].key by {
        assert(before.records.contains_key(other));
    }
    assert forall|other: Seq<char>| #[trigger]
        after.records.contains_key(other)
            && after.records[other].key.parent_id is Some implies after.records.contains_key(
    after.records[other].key.parent_id->0) by {
        assert(before.records.contains_key(other));
        assert(before.records.contains_key(before.records[other].key.parent_id->0));
    }
    assert forall|a: Seq<char>, b: Seq<char>| #[trigger]
        after.records.contains_key(a) && #[trigger] after.records.contains_key(b)
            && after.records[a].key == after.records[b].key implies a == b by {
        assert(before.records.contains_key(a) && before.records.contains_key(b));
    }
}

impl DirectoryIndex {
    /// Exposes a previously scanned directory under the same id, without a second summary
    /// charge. New listing revisions may replace the metadata; published listing pages own
    /// their prior immutable observations.
    pub fn expose(&mut self, pools: &mut IndexPools, id: &str, entry: Entry) -> (result: Result<
        (),
        IndexError,
    >)
        requires
            old(self).wf(),
            old(self).backed(old(pools)),
        ensures
            final(self).wf(),
            final(self).backed(final(pools)),
            final(pools).wf(),
            final(self).same_holds(old(self)),
            result == old(self)@.expose_answer(old(pools).foreground@, id@, entry@),
            final(self)@ == old(self)@.exposed(old(pools).foreground@, id@, entry@),
            if result is Ok && old(self)@.records[id@].entry != Some(entry@) {
                old(self).repooled(
                    old(pools),
                    final(pools),
                    Origin::Foreground,
                    final(self)@.foreground,
                )
            } else {
                final(pools).background@ == old(pools).background@ && final(pools).foreground@
                    == old(pools).foreground@
            },
    {
        let ghost before = self@;
        let at = match self.records.find(id) {
            Some(at) => at,
            None => {
                return Err(IndexError::EntryExpired);
            },
        };
        let record = self.records.value_at(at);
        if !same_text(entry.entry_id.as_str(), id) || entry.kind != Kind::Directory
            || !same_optional(&entry.parent_id, &record.key.parent_id) {
            return Err(IndexError::InvalidArgument);
        }
        let mut previous: usize = 0;
        if let Some(current) = &record.entry {
            if current.same(&entry) {
                return Ok(());
            }
            previous = estimate_entry(current);
        }
        let next: usize = estimate_entry(&entry);
        let ghost rows = self.records.rows();
        proof {
            text_map::lemma_sum_update(
                rows,
                at as int,
                rows[at as int],
                |record: Record| record_cost(record@),
            );
            crate::runtime::memory::lemma_total_update(
                pools.foreground@.sizes,
                self.foreground.id(),
                0,
            );
        }
        if next > previous {
            if let Err(error) = self.charge(pools, Origin::Foreground, next - previous) {
                return Err(error);
            }
        } else {
            let target: usize = self.foreground.bytes() - (previous - next);
            let shrunk = self.foreground.resize(&mut pools.foreground, target);
            assert(shrunk is Ok);
        }
        let ghost map = self.records@;
        let ghost shown_entry = entry@;
        let record = self.records.value_mut(at);
        record.entry = Some(entry);
        proof {
            let row = self.records.rows()[at as int];
            text_map::lemma_sum_update(
                rows,
                at as int,
                row,
                |record: Record| record_cost(record@),
            );
            assert(text_map::shown(self.records@) =~= text_map::shown(map).insert(
                id@,
                RecordView { entry: Some(shown_entry), ..before.records[id@] },
            ));
            assert(self@ =~= before.exposed(old(pools).foreground@, id@, shown_entry));
            lemma_replaced_wf(
                before,
                id@,
                RecordView { entry: Some(shown_entry), ..before.records[id@] },
                self@,
            );
        }
        Ok(())
    }

    /// The key of a directory.
    pub fn key(&self, id: &str) -> (result: Result<&DirectoryKey, IndexError>)
        requires
            self.wf(),
        ensures
            result is Ok <==> self@.records.contains_key(id@),
            match result {
                Ok(key) => key@ == self@.records[id@].key,
                Err(error) => error == IndexError::EntryExpired,
            },
    {
        match self.records.get(id) {
            Some(record) => Ok(&record.key),
            None => Err(IndexError::EntryExpired),
        }
    }

    /// The exposed entry of a directory.
    pub fn entry(&self, id: &str) -> (entry: Option<&Entry>)
        requires
            self.wf(),
        ensures
            entry is Some <==> self@.records.contains_key(id@) && self@.records[id@].entry is Some,
            entry is Some ==> Some(entry->0@) == self@.records[id@].entry,
    {
        match self.records.get(id) {
            Some(record) => record.entry.as_ref(),
            None => None,
        }
    }

    /// Stores the usage of a directory, unless a later revision is stored. A usage whose JSON
    /// form does not fit the room of a summary is refused.
    pub fn set_usage(&mut self, usage: DirectoryUsage) -> (result: Result<bool, IndexError>)
        requires
            old(self).wf(),
        ensures
            final(self).wf(),
            final(self).same_holds(old(self)),
            forall|pools: &IndexPools| old(self).backed(pools) ==> final(self).backed(pools),
            result == old(self)@.usage_answer(usage@),
            final(self)@ == old(self)@.with_usage(usage@),
    {
        let ghost before = self@;
        if byte_len(encode_usage(&usage).as_str()) > SUMMARY_BYTES / 2 {
            return Err(IndexError::ResourceLimit);
        }
        let at = match self.records.find(usage.directory_id.as_str()) {
            Some(at) => at,
            None => {
                return Err(IndexError::EntryExpired);
            },
        };
        let record = self.records.value_at(at);
        if let Some(stored) = &record.usage {
            if stored.usage_revision >= usage.usage_revision {
                return Ok(false);
            }
        }
        let ghost rows = self.records.rows();
        let ghost map = self.records@;
        let ghost id = usage.directory_id@;
        let ghost shown_usage = usage@;
        let record = self.records.value_mut(at);
        record.usage = Some(usage);
        proof {
            let row = self.records.rows()[at as int];
            text_map::lemma_sum_update(
                rows,
                at as int,
                row,
                |record: Record| record_cost(record@),
            );
            assert(text_map::shown(self.records@) =~= text_map::shown(map).insert(
                id,
                RecordView { usage: Some(shown_usage), ..before.records[id] },
            ));
            assert(self@ =~= before.with_usage(shown_usage));
            lemma_replaced_wf(
                before,
                id,
                RecordView { usage: Some(shown_usage), ..before.records[id] },
                self@,
            );
        }
        Ok(true)
    }

    /// The stored usage of a directory.
    pub fn usage(&self, id: &str) -> (result: Result<Option<&DirectoryUsage>, IndexError>)
        requires
            self.wf(),
        ensures
            result is Ok <==> self@.records.contains_key(id@),
            match result {
                Ok(usage) => {
                    &&& usage is Some <==> self@.records[id@].usage is Some
                    &&& usage is Some ==> Some(usage->0@) == self@.records[id@].usage
                },
                Err(error) => error == IndexError::EntryExpired,
            },
    {
        match self.records.get(id) {
            Some(record) => Ok(record.usage.as_ref()),
            None => Err(IndexError::EntryExpired),
        }
    }

    /// Gives both holds back.
    pub fn release(self, pools: &mut IndexPools)
        requires
            self.backed(old(pools)),
        ensures
            final(pools).wf(),
            final(pools).background@ == old(pools).background@.resized(self.background_id(), 0),
            final(pools).foreground@ == old(pools).foreground@.resized(self.foreground_id(), 0),
    {
        self.background.release(&mut pools.background);
        self.foreground.release(&mut pools.foreground);
    }
}

/// A directory that is known keeps its id: registering it again, for either origin and at any
/// cost, answers the same id and changes nothing.
pub proof fn known_directories_keep_their_id(
    index: IndexView,
    pool: PoolView,
    id: Seq<char>,
    origin: Origin,
    cost: nat,
)
    requires
        index.wf(),
        index.records.contains_key(id),
    ensures
        index.register_answer(pool, index.records[id].key, origin, cost) == Ok::<
            Seq<char>,
            IndexError,
        >(id),
        index.registered(pool, index.records[id].key, origin, cost) == index,
        !index.registers(pool, index.records[id].key, origin, cost),
{
    let key = index.records[id].key;
    assert(index.has_key(key, id));
    let found = choose|other: Seq<char>| index.has_key(key, other);
    assert(index.records.contains_key(found));
}

/// Directories with different raw names or different parents get different ids.
pub proof fn different_keys_have_different_ids(
    index: IndexView,
    pool: PoolView,
    key: KeyView,
    origin: Origin,
    cost: nat,
    other: Seq<char>,
)
    requires
        index.wf(),
        index.records.contains_key(other),
        index.records[other].key != key,
        index.register_answer(pool, key, origin, cost) is Ok,
    ensures
        index.register_answer(pool, key, origin, cost)->Ok_0 != other,
{
    if index.id_of(key) is None {
        let n = choose|n: nat|
            1 <= n <= index.next as nat && other == #[trigger] id_text(index.prefix, n);
        if other == id_text(index.prefix, (index.next + 1) as nat) {
            lemma_id_text_injective(index.prefix, n, (index.next + 1) as nat);
        }
    }
}

/// A directory that was registered is found under the id that was answered, and every other
/// directory is as it was.
pub proof fn registering_adds_one_directory(
    index: IndexView,
    pool: PoolView,
    key: KeyView,
    origin: Origin,
    cost: nat,
)
    requires
        index.wf(),
        index.records.dom().finite(),
        index.registers(pool, key, origin, cost),
    ensures
        ({
            let id = index.register_answer(pool, key, origin, cost)->Ok_0;
            let after = index.registered(pool, key, origin, cost);
            &&& after.wf()
            &&& !index.records.contains_key(id)
            &&& after.records.contains_key(id)
            &&& after.records[id] == (RecordView { key, entry: None, usage: None })
            &&& forall|other: Seq<char>| #[trigger]
                index.records.contains_key(other) ==> after.records.contains_key(other)
                    && after.records[other] == index.records[other]
        }),
{
    let id = id_text(index.prefix, (index.next + 1) as nat);
    if index.records.contains_key(id) {
        let n = choose|n: nat|
            1 <= n <= index.next as nat && id == #[trigger] id_text(index.prefix, n);
        lemma_id_text_injective(index.prefix, n, (index.next + 1) as nat);
    }
    lemma_registered_wf(index, key, index.registered(pool, key, origin, cost));
}

/// Exposing a directory keeps its usage, and storing a usage keeps its entry.
pub proof fn exposure_and_usage_are_independent(
    index: IndexView,
    foreground: PoolView,
    id: Seq<char>,
    entry: EntryView,
    usage: UsageView,
)
    requires
        index.records.contains_key(id),
    ensures
        index.exposed(foreground, id, entry).records[id].usage == index.records[id].usage,
        index.with_usage(usage).records[id].entry == index.records[id].entry,
        index.with_usage(usage).records[id].key == index.records[id].key,
{
}

/// The stored revision of a directory's usage never goes back.
pub proof fn usage_revisions_never_go_back(index: IndexView, usage: UsageView, id: Seq<char>)
    requires
        index.records.contains_key(id),
        index.records[id].usage is Some,
    ensures
        index.with_usage(usage).records.contains_key(id),
        index.with_usage(usage).records[id].usage is Some,
        index.with_usage(usage).records[id].usage->0.usage_revision
            >= index.records[id].usage->0.usage_revision,
{
}

/// When the background pool is full, what the foreground may still take is as before.
pub proof fn background_saturation_leaves_the_foreground(
    index: IndexView,
    pool: PoolView,
    amount: nat,
)
    ensures
        index.charged(pool, Origin::Background, amount).capacity.foreground
            == index.capacity.foreground,
        index.charged(pool, Origin::Background, amount).foreground == index.foreground,
        index.charged(pool, Origin::Foreground, amount).capacity.background
            == index.capacity.background,
        index.charged(pool, Origin::Foreground, amount).background == index.background,
{
}

} // verus!
