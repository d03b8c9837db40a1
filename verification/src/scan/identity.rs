//! Maps keyed by the identity of a file, in the order of device and inode.
use vstd::prelude::*;

verus! {

broadcast use vstd::set::group_set_axioms;

/// Which file on which device.
#[derive(Debug, Clone, Copy, PartialEq, Eq, PartialOrd, Ord, Structural)]
pub struct FileIdentity {
    pub device: u64,
    pub inode: u64,
}

impl FileIdentity {
    /// The order of identities.
    pub open spec fn before(self, other: FileIdentity) -> bool {
        self.device < other.device || (self.device == other.device && self.inode < other.inode)
    }
}

/// Rows with strictly increasing identities.
pub open spec fn ascending<V>(rows: Seq<(FileIdentity, V)>) -> bool {
    forall|i: int, j: int|
        0 <= i < j < rows.len() ==> (#[trigger] rows[i]).0.before((#[trigger] rows[j]).0)
}

/// The map that a sequence of rows stands for.
pub open spec fn identity_map<V>(rows: Seq<(FileIdentity, V)>) -> Map<FileIdentity, V>
    decreases rows.len(),
{
    if rows.len() == 0 {
        Map::empty()
    } else {
        identity_map(rows.drop_last()).insert(rows.last().0, rows.last().1)
    }
}

/// The rows of a finite map in ascending order.
pub open spec fn identity_rows<V>(map: Map<FileIdentity, V>) -> Seq<(FileIdentity, V)> {
    choose|rows: Seq<(FileIdentity, V)>| ascending(rows) && identity_map(rows) == map
}

/// Every row is a pair of the map, and every identity has its row.
pub proof fn lemma_identity_map<V>(rows: Seq<(FileIdentity, V)>)
    requires
        ascending(rows),
    ensures
        identity_map(rows).dom().finite(),
        identity_map(rows).len() == rows.len(),
        forall|i: int|
            0 <= i < rows.len() ==> identity_map(rows).contains_key((#[trigger] rows[i]).0)
                && identity_map(rows)[rows[i].0] == rows[i].1,
        forall|k: FileIdentity| #[trigger]
            identity_map(rows).contains_key(k) ==> exists|i: int|
                0 <= i < rows.len() && (#[trigger] rows[i]).0 == k,
    decreases rows.len(),
{
    if rows.len() > 0 {
        let head = rows.drop_last();
        let last = rows.last();
        assert(ascending(head)) by {
            assert forall|i: int, j: int| 0 <= i < j < head.len() implies (
            #[trigger] head[i]).0.before((#[trigger] head[j]).0) by {
                assert(head[i] == rows[i]);
                assert(head[j] == rows[j]);
            }
        }
        lemma_identity_map(head);
        assert(!identity_map(head).contains_key(last.0)) by {
            if identity_map(head).contains_key(last.0) {
                let i = choose|i: int| 0 <= i < head.len() && (#[trigger] head[i]).0 == last.0;
                assert(rows[i].0.before(rows[rows.len() - 1].0));
            }
        }
        assert forall|i: int| 0 <= i < rows.len() implies identity_map(rows).contains_key(
            (#[trigger] rows[i]).0,
        ) && identity_map(rows)[rows[i].0] == rows[i].1 by {
            if i < head.len() {
                assert(head[i] == rows[i]);
                assert(rows[i].0.before(rows[rows.len() - 1].0));
            }
        }
        assert forall|k: FileIdentity| #[trigger]
            identity_map(rows).contains_key(k) implies exists|i: int|
            0 <= i < rows.len() && (#[trigger] rows[i]).0 == k by {
            if k == last.0 {
                assert(rows[rows.len() - 1].0 == k);
            } else {
                assert(identity_map(head).contains_key(k));
                let i = choose|i: int| 0 <= i < head.len() && (#[trigger] head[i]).0 == k;
                assert(rows[i].0 == k);
            }
        }
    }
}

/// Only one ascending sequence of rows stands for a given map.
pub proof fn lemma_identity_rows_unique<V>(
    a: Seq<(FileIdentity, V)>,
    b: Seq<(FileIdentity, V)>,
)
    requires
        ascending(a),
        ascending(b),
        identity_map(a) == identity_map(b),
    ensures
        a == b,
    decreases a.len(),
{
    lemma_identity_map(a);
    lemma_identity_map(b);
    if a.len() > 0 {
        let last = a.len() - 1;
        assert(identity_map(b).contains_key(a[last].0));
        let i = choose|i: int| 0 <= i < b.len() && (#[trigger] b[i]).0 == a[last].0;
        assert(identity_map(a).contains_key(b[last].0));
        let j = choose|j: int| 0 <= j < a.len() && (#[trigger] a[j]).0 == b[last].0;
        if i != last {
            assert(b[i].0.before(b[last].0));
            if j != last {
                assert(a[j].0.before(a[last].0));
            }
        }
        assert(identity_map(b)[b[i].0] == b[i].1);
        assert(a[last] == b[last]);
        let heads = (a.drop_last(), b.drop_last());
        lemma_head(a);
        lemma_head(b);
        assert(identity_map(heads.0) =~= identity_map(a).remove(a[last].0));
        assert(identity_map(heads.1) =~= identity_map(b).remove(b[last].0));
        lemma_identity_rows_unique(heads.0, heads.1);
        assert(a =~= heads.0.push(a[last]));
        assert(b =~= heads.1.push(b[last]));
    } else {
        assert(a =~= b);
    }
}

proof fn lemma_head<V>(rows: Seq<(FileIdentity, V)>)
    requires
        ascending(rows),
        rows.len() > 0,
    ensures
        ascending(rows.drop_last()),
        !identity_map(rows.drop_last()).contains_key(rows.last().0),
{
    let head = rows.drop_last();
    assert forall|i: int, j: int| 0 <= i < j < head.len() implies (#[trigger] head[i]).0.before(
        (#[trigger] head[j]).0,
    ) by {
        assert(head[i] == rows[i]);
        assert(head[j] == rows[j]);
    }
    lemma_identity_map(head);
    if identity_map(head).contains_key(rows.last().0) {
        let i = choose|i: int| 0 <= i < head.len() && (#[trigger] head[i]).0 == rows.last().0;
        assert(rows[i].0.before(rows[rows.len() - 1].0));
    }
}

/// A finite map has an identity that no other stands behind.
proof fn lemma_last_identity<V>(map: Map<FileIdentity, V>, some: FileIdentity) -> (last: FileIdentity)
    requires
        map.dom().finite(),
        map.contains_key(some),
    ensures
        map.contains_key(last),
        forall|key: FileIdentity| #[trigger]
            map.contains_key(key) && key != last ==> key.before(last),
    decreases map.len(),
{
    let rest = map.remove(some);
    assert(rest.dom() =~= map.dom().remove(some));
    if exists|key: FileIdentity| #[trigger] rest.contains_key(key) {
        let key = choose|key: FileIdentity| #[trigger] rest.contains_key(key);
        let best = lemma_last_identity(rest, key);
        let last = if best.before(some) {
            some
        } else {
            best
        };
        assert forall|key: FileIdentity| #[trigger]
            map.contains_key(key) && key != last implies key.before(last) by {
            if key != some {
                assert(rest.contains_key(key));
            }
        }
        last
    } else {
        assert forall|key: FileIdentity| #[trigger]
            map.contains_key(key) && key != some implies key.before(some) by {
            assert(rest.contains_key(key));
        }
        some
    }
}

/// A finite map has its rows.
pub proof fn lemma_identity_rows<V>(map: Map<FileIdentity, V>)
    requires
        map.dom().finite(),
    ensures
        ascending(identity_rows(map)),
        identity_map(identity_rows(map)) == map,
    decreases map.len(),
{
    if exists|key: FileIdentity| #[trigger] map.contains_key(key) {
        let some = choose|key: FileIdentity| #[trigger] map.contains_key(key);
        let last = lemma_last_identity(map, some);
        let rest = map.remove(last);
        assert(rest.dom() =~= map.dom().remove(last));
        lemma_identity_rows(rest);
        let head = identity_rows(rest);
        lemma_identity_map(head);
        let rows = head.push((last, map[last]));
        assert(rows.drop_last() =~= head);
        assert(ascending(rows)) by {
            assert forall|i: int, j: int| 0 <= i < j < rows.len() implies (
            #[trigger] rows[i]).0.before((#[trigger] rows[j]).0) by {
                assert(rows[i] == head[i]);
                assert(rest.contains_key(head[i].0));
                assert(map.contains_key(head[i].0));
                if j < head.len() {
                    assert(rows[j] == head[j]);
                }
            }
        }
        assert(identity_map(rows) =~= map);
    } else {
        let none = Seq::<(FileIdentity, V)>::empty();
        assert(map =~= identity_map(none)) by {
            assert forall|key: FileIdentity| !#[trigger] map.contains_key(key) by {}
        }
        assert(ascending(none));
    }
}

/// A map keyed by file identity.
pub struct IdentityMap<V> {
    rows: Vec<(FileIdentity, V)>,
}

impl<V> View for IdentityMap<V> {
    type V = Map<FileIdentity, V>;

    closed spec fn view(&self) -> Map<FileIdentity, V> {
        identity_map(self.rows@)
    }
}

impl<V: Copy> IdentityMap<V> {
    /// The rows are in ascending order.
    pub closed spec fn wf(&self) -> bool {
        ascending(self.rows@)
    }

    /// A well-formed map is finite.
    pub proof fn lemma_finite(&self)
        requires
            self.wf(),
        ensures
            self@.dom().finite(),
    {
        lemma_identity_map(self.rows@);
    }

    /// A map without rows.
    pub fn new() -> (map: Self)
        ensures
            map.wf(),
            map@ == Map::<FileIdentity, V>::empty(),
    {
        IdentityMap { rows: Vec::new() }
    }

    /// The number of rows.
    pub fn len(&self) -> (len: usize)
        requires
            self.wf(),
        ensures
            len == self@.len(),
            self@.dom().finite(),
    {
        proof {
            lemma_identity_map(self.rows@);
        }
        self.rows.len()
    }

    fn position(&self, key: FileIdentity) -> (at: Result<usize, usize>)
        requires
            self.wf(),
        ensures
            match at {
                Ok(i) => i < self.rows@.len() && self.rows@[i as int].0 == key,
                Err(i) => {
                    &&& i <= self.rows@.len()
                    &&& forall|j: int| 0 <= j < i ==> (#[trigger] self.rows@[j]).0.before(key)
                    &&& forall|j: int|
                        i <= j < self.rows@.len() ==> key.before((#[trigger] self.rows@[j]).0)
                },
            },
    {
        let mut low: usize = 0;
        let mut high: usize = self.rows.len();
        while low < high
            invariant
                self.wf(),
                low <= high <= self.rows@.len(),
                forall|j: int| 0 <= j < low ==> (#[trigger] self.rows@[j]).0.before(key),
                forall|j: int|
                    high <= j < self.rows@.len() ==> key.before((#[trigger] self.rows@[j]).0),
            decreases high - low,
        {
            let middle: usize = low + (high - low) / 2;
            let here = self.rows[middle].0;
            if here.device == key.device && here.inode == key.inode {
                return Ok(middle);
            }
            if here.device < key.device || (here.device == key.device && here.inode < key.inode) {
                assert forall|j: int| 0 <= j < middle + 1 implies (
                #[trigger] self.rows@[j]).0.before(key) by {
                    if j < middle {
                        assert(self.rows@[j].0.before(self.rows@[middle as int].0));
                    }
                }
                low = middle + 1;
            } else {
                assert forall|j: int| middle <= j < self.rows@.len() implies key.before(
                    (#[trigger] self.rows@[j]).0,
                ) by {
                    if j > middle {
                        assert(self.rows@[middle as int].0.before(self.rows@[j].0));
                    }
                }
                high = middle;
            }
        }
        Err(low)
    }

    /// The value of an identity.
    pub fn get(&self, key: FileIdentity) -> (value: Option<V>)
        requires
            self.wf(),
        ensures
            value == (if self@.contains_key(key) {
                Some(self@[key])
            } else {
                None
            }),
    {
        proof {
            lemma_identity_map(self.rows@);
        }
        match self.position(key) {
            Ok(i) => Some(self.rows[i].1),
            Err(i) => {
                proof {
                    if self@.contains_key(key) {
                        let j = choose|j: int|
                            0 <= j < self.rows@.len() && (#[trigger] self.rows@[j]).0 == key;
                    }
                }
                None
            },
        }
    }

    /// Gives an identity this value.
    pub fn insert(&mut self, key: FileIdentity, value: V)
        requires
            old(self).wf(),
        ensures
            final(self).wf(),
            final(self)@ == old(self)@.insert(key, value),
    {
        let ghost before = self.rows@;
        proof {
            lemma_identity_map(before);
        }
        match self.position(key) {
            Ok(i) => {
                self.rows[i] = (key, value);
                let ghost next = self.rows@;
                proof {
                    assert(next =~= before.update(i as int, (key, value)));
                    assert forall|a: int, b: int| 0 <= a < b < next.len() implies (
                    #[trigger] next[a]).0.before((#[trigger] next[b]).0) by {
                        assert(next[a].0 == before[a].0);
                        assert(next[b].0 == before[b].0);
                    }
                    lemma_identity_map(next);
                    assert(identity_map(next) =~= identity_map(before).insert(key, value)) by {
                        assert forall|k: FileIdentity| identity_map(next).contains_key(k)
                            <==> identity_map(before).insert(key, value).contains_key(k) by {
                            if identity_map(next).contains_key(k) {
                                let j = choose|j: int|
                                    0 <= j < next.len() && (#[trigger] next[j]).0 == k;
                                assert(before[j].0 == k);
                            }
                            if identity_map(before).contains_key(k) {
                                let j = choose|j: int|
                                    0 <= j < before.len() && (#[trigger] before[j]).0 == k;
                                assert(next[j].0 == k);
                            }
                            assert(next[i as int].0 == key);
                        }
                        assert forall|k: FileIdentity| identity_map(next).contains_key(
                            k,
                        ) implies identity_map(next)[k] == identity_map(before).insert(
                            key,
                            value,
                        )[k] by {
                            let j = choose|j: int|
                                0 <= j < next.len() && (#[trigger] next[j]).0 == k;
                            if j != i {
                                assert(before[j] == next[j]);
                                assert(k != key) by {
                                    if j < i {
                                        assert(before[j].0.before(before[i as int].0));
                                    } else {
                                        assert(before[i as int].0.before(before[j].0));
                                    }
                                }
                            }
                        }
                    }
                }
            },
            Err(i) => {
                self.rows.insert(i, (key, value));
                let ghost next = self.rows@;
                proof {
                    assert(next =~= before.insert(i as int, (key, value)));
                    assert forall|a: int, b: int| 0 <= a < b < next.len() implies (
                    #[trigger] next[a]).0.before((#[trigger] next[b]).0) by {
                        let x = if a < i { a } else { a - 1 };
                        let y = if b < i { b } else { b - 1 };
                        if a != i {
                            assert(next[a] == before[x]);
                        }
                        if b != i {
                            assert(next[b] == before[y]);
                        }
                    }
                    lemma_identity_map(next);
                    assert(next[i as int] == (key, value));
                    assert(identity_map(next) =~= identity_map(before).insert(key, value)) by {
                        assert forall|k: FileIdentity| identity_map(next).contains_key(k)
                            <==> identity_map(before).insert(key, value).contains_key(k) by {
                            if identity_map(next).contains_key(k) && k != key {
                                let j = choose|j: int|
                                    0 <= j < next.len() && (#[trigger] next[j]).0 == k;
                                let x = if j < i { j } else { j - 1 };
                                assert(before[x].0 == k);
                            }
                            if identity_map(before).contains_key(k) {
                                let j = choose|j: int|
                                    0 <= j < before.len() && (#[trigger] before[j]).0 == k;
                                let x = if j < i { j } else { j + 1 };
                                assert(next[x].0 == k);
                            }
                        }
                        assert forall|k: FileIdentity| identity_map(next).contains_key(
                            k,
                        ) implies identity_map(next)[k] == identity_map(before).insert(
                            key,
                            value,
                        )[k] by {
                            let j = choose|j: int|
                                0 <= j < next.len() && (#[trigger] next[j]).0 == k;
                            if j != i {
                                let x = if j < i { j } else { j - 1 };
                                assert(before[x] == next[j]);
                            }
                        }
                    }
                }
            },
        }
    }

    /// All rows, in ascending order.
    pub fn into_rows(self) -> (rows: Vec<(FileIdentity, V)>)
        requires
            self.wf(),
        ensures
            rows@ == identity_rows(self@),
            ascending(rows@),
            identity_map(rows@) == self@,
            rows@.len() == self@.len(),
            self@.dom().finite(),
    {
        proof {
            lemma_identity_map(self.rows@);
            lemma_identity_rows_unique(self.rows@, identity_rows(self@));
        }
        self.rows
    }
}

} // verus!
