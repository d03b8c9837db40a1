//! What the index of directories is for, said of every key, entry and usage.
use vstd::prelude::*;

use crate::domain::controller::ScopeView;
use crate::domain::index;
use crate::domain::index::{IndexError, IndexView, KeyView, Origin, RecordView};
use crate::domain::model::{
    Entry, EntryView, FsIssue, IssueView, Issues, IssuesView, Kind, UsageView, WorkRecord, WorkView,
};
use crate::domain::wire;
use crate::runtime::memory::PoolView;
use crate::text;

verus! {

/// A name that can stand between two separators: none of its bytes is a zero or a slash, and it is
/// neither one dot nor two.
pub open spec fn is_plain(name: Seq<u8>) -> bool {
    &&& forall|i: int| 0 <= i < name.len() ==> #[trigger] name[i] != 0 && name[i] != 47
    &&& !(name.len() == 1 && name[0] == 46)
    &&& !(name.len() == 2 && name[0] == 46 && name[1] == 46)
}

/// A name is allowed exactly where it is plain and not too long, whatever other bytes it holds.
pub proof fn plain_names_are_allowed(name: Seq<u8>, max: nat)
    ensures
        index::component_allowed(name, max) <==> name.len() <= max && is_plain(name),
{
    assert(name.len() == 1 && name[0] == 46 ==> name =~= seq![46u8]);
    assert(name.len() == 2 && name[0] == 46 && name[1] == 46 ==> name =~= seq![46u8, 46u8]);
    if name.contains(0u8) {
        let i = choose|i: int| 0 <= i < name.len() && name[i] == 0u8;
        assert(name[i] == 0);
    }
    if name.contains(47u8) {
        let i = choose|i: int| 0 <= i < name.len() && name[i] == 47u8;
        assert(name[i] == 47);
    }
    assert forall|i: int| 0 <= i < name.len() implies name.contains(#[trigger] name[i]) by {}
}

/// No directory of the index has this key.
pub open spec fn is_new(index: IndexView, key: KeyView) -> bool {
    forall|id: Seq<char>| #[trigger]
        index.records.contains_key(id) ==> index.records[id].key != key
}

/// A directory below a known one is registered whatever bytes its name is made of, as long as the
/// name is plain and has between 1 and 765 bytes, there is another number, and the pool has room
/// for the cost: it gets the next number as its id, which no directory had, and nothing else
/// changes but what the pool is charged.
pub proof fn a_new_directory_is_registered(
    index: IndexView,
    pool: PoolView,
    parent: Seq<char>,
    name: Seq<u8>,
    origin: Origin,
    cost: nat,
)
    requires
        index.wf(),
        index.records.contains_key(parent),
        1 <= name.len() <= 765,
        is_plain(name),
        is_new(index, (KeyView { parent_id: Some(parent), raw_name: name })),
        text::utf8(index.prefix).len() <= 128,
        index.next < u64::MAX,
        pool.used + cost <= pool.limit,
    ensures
        ({
            let key = KeyView { parent_id: Some(parent), raw_name: name };
            let id = index.prefix + "-"@ + text::decimal((index.next + 1) as nat);
            let after = index.registered(pool, key, origin, cost);
            &&& index.register_answer(pool, key, origin, cost) == Ok::<Seq<char>, IndexError>(id)
            &&& !index.records.contains_key(id)
            &&& after.records == index.records.insert(
                id,
                RecordView { key, entry: None, usage: None },
            )
            &&& after.next == index.next + 1
            &&& after.prefix == index.prefix
            &&& after.background == index.background + (if origin is Background {
                cost
            } else {
                0
            })
            &&& after.foreground == index.foreground + (if origin is Foreground {
                cost
            } else {
                0
            })
            &&& after.capacity == index.capacity
            &&& after.scope == index.scope
        }),
{
    let key = KeyView { parent_id: Some(parent), raw_name: name };
    let id = index.prefix + "-"@ + text::decimal((index.next + 1) as nat);
    assert(index::id_text(index.prefix, (index.next + 1) as nat) =~= id);
    plain_names_are_allowed(name, 765);
    assert(index.id_of(key) is None) by {
        if exists|other: Seq<char>| index.has_key(key, other) {
            let other = choose|other: Seq<char>| index.has_key(key, other);
            assert(index.records.contains_key(other));
        }
    }
    if index.records.contains_key(id) {
        let n = choose|n: nat|
            1 <= n <= index.next && id == #[trigger] index::id_text(index.prefix, n);
        index::lemma_id_text_injective(index.prefix, n, (index.next + 1) as nat);
    }
}

/// A directory that is registered again is found again, whoever asks and whatever it would cost,
/// and nothing changes.
pub proof fn a_known_directory_is_found_again(
    index: IndexView,
    pool: PoolView,
    id: Seq<char>,
    origin: Origin,
    cost: nat,
)
    requires
        index.wf(),
        index.records.contains_key(id),
    ensures
        ({
            let key = index.records[id].key;
            &&& index.register_answer(pool, key, origin, cost) == Ok::<Seq<char>, IndexError>(id)
            &&& index.registered(pool, key, origin, cost) == index
        }),
{
    let key = index.records[id].key;
    assert(index.has_key(key, id));
    let found = choose|other: Seq<char>| index.has_key(key, other);
    assert(index.records.contains_key(found) && index.records.contains_key(id));
}

/// The first directory of an index is its root; it has no parent and needs no name.
pub proof fn a_root_is_registered_once(
    index: IndexView,
    pool: PoolView,
    name: Seq<u8>,
    other: Seq<u8>,
    origin: Origin,
    cost: nat,
)
    requires
        index.records == Map::<Seq<char>, RecordView>::empty(),
        name.len() <= 765,
        is_plain(name),
        other != name,
        text::utf8(index.prefix).len() <= 128,
        index.next < u64::MAX,
        pool.used + cost <= pool.limit,
    ensures
        ({
            let key = KeyView { parent_id: None, raw_name: name };
            let second = KeyView { parent_id: None, raw_name: other };
            let id = index.prefix + "-"@ + text::decimal((index.next + 1) as nat);
            let after = index.registered(pool, key, origin, cost);
            &&& index.register_answer(pool, key, origin, cost) == Ok::<Seq<char>, IndexError>(id)
            &&& after.records == index.records.insert(
                id,
                RecordView { key, entry: None, usage: None },
            )
            &&& after.register_answer(pool, second, origin, cost) == Err::<Seq<char>, IndexError>(
                IndexError::InvalidArgument,
            )
            &&& after.registered(pool, second, origin, cost) == after
        }),
{
    let key = KeyView { parent_id: None, raw_name: name };
    let second = KeyView { parent_id: None, raw_name: other };
    let id = index.prefix + "-"@ + text::decimal((index.next + 1) as nat);
    assert(index::id_text(index.prefix, (index.next + 1) as nat) =~= id);
    plain_names_are_allowed(name, 765);
    let after = index.registered(pool, key, origin, cost);
    if exists|found: Seq<char>| index.has_key(key, found) {
        let found = choose|found: Seq<char>| index.has_key(key, found);
        assert(index.records.contains_key(found));
    }
    if exists|found: Seq<char>| after.has_key(second, found) {
        let found = choose|found: Seq<char>| after.has_key(second, found);
        assert(after.records.contains_key(found));
    }
    assert(after.records.contains_key(id));
    assert(after.records != Map::<Seq<char>, RecordView>::empty());
}

/// A new directory is refused for these causes and leaves the directories as they are: a name that
/// is not plain or too long, a second root, an unknown parent, no name below a parent, no number
/// left, and no room in the pool. The books tell of the last: that pool is limited then.
pub proof fn refused_directories_leave_the_index(
    index: IndexView,
    pool: PoolView,
    key: KeyView,
    origin: Origin,
    cost: nat,
)
    requires
        is_new(index, key),
    ensures
        ({
            let answer = index.register_answer(pool, key, origin, cost);
            let after = index.registered(pool, key, origin, cost);
            let named = key.raw_name.len() <= 765 && is_plain(key.raw_name) && text::utf8(
                index.prefix,
            ).len() <= 128;
            let placed = match key.parent_id {
                Some(parent) => key.raw_name.len() > 0 && index.records.contains_key(parent),
                None => index.records == Map::<Seq<char>, RecordView>::empty(),
            };
            &&& !named ==> answer == Err::<Seq<char>, IndexError>(IndexError::InvalidArgument)
            &&& named && !placed ==> answer == Err::<Seq<char>, IndexError>(
                if key.parent_id is Some {
                    IndexError::EntryExpired
                } else {
                    IndexError::InvalidArgument
                },
            )
            &&& named && placed && (index.next == u64::MAX || pool.used + cost > pool.limit)
                ==> answer == Err::<Seq<char>, IndexError>(IndexError::ResourceLimit)
            &&& answer is Err ==> after.records == index.records && after.next == index.next
                && after.prefix == index.prefix && after.background == index.background
                && after.foreground == index.foreground && after.scope == index.scope
        }),
{
    plain_names_are_allowed(key.raw_name, 765);
    if exists|found: Seq<char>| index.has_key(key, found) {
        let found = choose|found: Seq<char>| index.has_key(key, found);
        assert(index.records.contains_key(found));
    }
}

/// A usage that fits its room, of a known directory, is kept where it is newer than the one before,
/// exactly as it was given; an older one changes nothing. No other directory is touched, and
/// neither is what else is known of this one.
pub proof fn the_newest_usage_is_kept(index: IndexView, usage: UsageView, other: Seq<char>)
    requires
        index.records.contains_key(usage.directory_id),
        wire::json_len(wire::usage_json(usage)) <= 1024,
        other != usage.directory_id,
    ensures
        ({
            let id = usage.directory_id;
            let before = index.records[id];
            let after = index.with_usage(usage);
            let newer = before.usage is None || before.usage->0.usage_revision
                < usage.usage_revision;
            &&& index.usage_answer(usage) == Ok::<bool, IndexError>(newer)
            &&& after.records[id].usage == (if newer {
                Some(usage)
            } else {
                before.usage
            })
            &&& after.records[id].key == before.key
            &&& after.records[id].entry == before.entry
            &&& after.records.contains_key(other) == index.records.contains_key(other)
            &&& after.records[other] == index.records[other]
            &&& after.next == index.next
            &&& after.background == index.background
            &&& after.foreground == index.foreground
            &&& after.capacity == index.capacity
        }),
{
}

/// An entry that was exposed for a directory is kept exactly as it was given, as long as it is that
/// directory's own: the same id, a directory, below the same parent. The foreground pool is charged
/// the difference to the entry before; an entry that takes no more is never refused. No other
/// directory is touched, and neither is this one's usage.
pub proof fn the_newest_entry_is_kept(
    index: IndexView,
    pool: PoolView,
    id: Seq<char>,
    entry: EntryView,
    other: Seq<char>,
)
    requires
        index.records.contains_key(id),
        other != id,
    ensures
        ({
            let before = index.records[id];
            let after = index.exposed(pool, id, entry);
            let answer = index.expose_answer(pool, id, entry);
            let own = entry.entry_id == id && entry.kind == Kind::Directory && entry.parent_id
                == before.key.parent_id;
            let old = match before.entry {
                Some(entry) => wire::entry_estimate(entry),
                None => 0,
            };
            let new = wire::entry_estimate(entry);
            &&& !own ==> answer == Err::<(), IndexError>(IndexError::InvalidArgument) && after
                == index
            &&& own && (before.entry == Some(entry) || pool.used + new <= pool.limit + old || new
                <= old) ==> {
                &&& answer is Ok
                &&& after.records[id].entry == Some(entry)
                &&& after.foreground == index.foreground + new - old || index.foreground + new < old
            }
            &&& own && before.entry != Some(entry) && new > old && pool.used + new > pool.limit
                + old ==> {
                &&& answer == Err::<(), IndexError>(IndexError::ResourceLimit)
                &&& after.records == index.records
                &&& after.foreground == index.foreground
            }
            &&& after.records[id].key == before.key
            &&& after.records[id].usage == before.usage
            &&& after.records.contains_key(other) == index.records.contains_key(other)
            &&& after.records[other] == index.records[other]
            &&& after.background == index.background
            &&& after.next == index.next
        }),
{
}

/// An index belongs to one scope: it takes the first that is bound, where the pool has room for it,
/// and keeps it; the same scope again changes nothing, and another is refused.
pub proof fn an_index_belongs_to_one_scope(
    index: IndexView,
    pool: PoolView,
    scope: ScopeView,
    other: ScopeView,
)
    requires
        scope.valid(),
        other.valid(),
        other != scope,
        index.scope is None,
        pool.used + 256 + 2 * text::utf8(scope.session_id).len() <= pool.limit,
    ensures
        ({
            let after = index.bound(pool, scope);
            &&& index.bind_answer(pool, scope) is Ok
            &&& after.scope == Some(scope)
            &&& after.records == index.records
            &&& after.foreground == index.foreground + 256 + 2 * text::utf8(scope.session_id).len()
            &&& after.background == index.background
            &&& after.bind_answer(pool, scope) is Ok
            &&& after.bound(pool, scope) == after
            &&& after.bind_answer(pool, other) == Err::<(), IndexError>(
                IndexError::InvalidArgument,
            )
            &&& after.bound(pool, other) == after
        }),
{
}

/// The codes of issues that are counted under themselves; any other is counted as an internal one.
pub open spec fn is_known_code(code: Seq<char>) -> bool {
    ||| code == "PERMISSION_DENIED"@
    ||| code == "NOT_FOUND"@
    ||| code == "IO_ERROR"@
    ||| code == "NOT_DIRECTORY"@
    ||| code == "RESOURCE_LIMIT"@
    ||| code == "INTERNAL"@
    ||| code == "INVALID_ARGUMENT"@
    ||| code == "ENTRY_CHANGED"@
}

/// Every issue is counted, and the first 32 are kept as they were, in the order in which they came.
/// No other count changes.
pub proof fn every_issue_is_counted(issues: IssuesView, issue: IssueView, other: Seq<char>)
    requires
        ({
            let code = if is_known_code(issue.code) {
                issue.code
            } else {
                "INTERNAL"@
            };
            &&& other != code
            &&& issues.counts.contains_key(code) ==> issues.counts[code] < u64::MAX
        }),
    ensures
        ({
            let code = if is_known_code(issue.code) {
                issue.code
            } else {
                "INTERNAL"@
            };
            let after = issues.with(issue);
            &&& after.counts.contains_key(code)
            &&& after.counts[code] == (if issues.counts.contains_key(code) {
                issues.counts[code] + 1
            } else {
                1
            })
            &&& after.counts.contains_key(other) == issues.counts.contains_key(other)
            &&& after.counts[other] == issues.counts[other]
            &&& after.samples == (if issues.samples.len() < 32 {
                issues.samples.push(issue)
            } else {
                issues.samples
            })
        }),
{
}

/// A number, as far as a `usize` goes.
pub open spec fn as_far_as_it_goes(n: nat) -> nat {
    if n <= usize::MAX {
        n
    } else {
        usize::MAX as nat
    }
}

/// What a value is estimated to take: twice the UTF-8 form of its JSON text, twice its own size, and
/// 256 bytes.
pub proof fn values_are_estimated_generously(
    entry: EntryView,
    work: WorkView,
    issue: IssueView,
    issues: IssuesView,
)
    ensures
        wire::entry_estimate(entry) == as_far_as_it_goes(
            2 * vstd::utf8::encode_utf8(wire::entry_json(entry)).len() + 2
                * vstd::layout::size_of::<Entry>() + 256,
        ),
        wire::work_estimate(work) == as_far_as_it_goes(
            2 * vstd::utf8::encode_utf8(wire::work_json(work)).len() + 2
                * vstd::layout::size_of::<WorkRecord>() + 256,
        ),
        wire::issue_estimate(issue) == as_far_as_it_goes(
            2 * vstd::utf8::encode_utf8(wire::issue_json(issue)).len() + 2
                * vstd::layout::size_of::<FsIssue>() + 256,
        ),
        wire::issues_estimate(issues) == as_far_as_it_goes(
            2 * vstd::utf8::encode_utf8(wire::issues_json(issues)).len() + 2
                * vstd::layout::size_of::<Issues>() + 256,
        ),
{
}

} // verus!
