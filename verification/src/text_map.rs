//! A map from texts to values that keeps its rows in the byte order of the keys.
use vstd::prelude::*;

use crate::text;
use crate::text::{side_of, Side};

verus! {

broadcast use vstd::set::group_set_axioms;

/// Rows with strictly increasing keys.
pub open spec fn increasing<V>(rows: Seq<(Seq<char>, V)>) -> bool {
    forall|i: int, j: int|
        0 <= i < j < rows.len() ==> text::text_before(
            (#[trigger] rows[i]).0,
            (#[trigger] rows[j]).0,
        )
}

/// The map that a sequence of rows stands for.
pub open spec fn map_of<V>(rows: Seq<(Seq<char>, V)>) -> Map<Seq<char>, V>
    decreases rows.len(),
{
    if rows.len() == 0 {
        Map::empty()
    } else {
        map_of(rows.drop_last()).insert(rows.last().0, rows.last().1)
    }
}

/// A map with text keys.
#[derive(Debug, PartialEq, Eq)]
pub struct TextMap<V> {
    entries: Vec<(String, V)>,
}

impl<V> TextMap<V> {
    /// The rows in order, each with the characters of its key.
    pub closed spec fn rows(&self) -> Seq<(Seq<char>, V)> {
        Seq::new(self.entries@.len(), |i: int| (self.entries@[i].0@, self.entries@[i].1))
    }

    /// The rows are in increasing order of their keys.
    pub open spec fn wf(&self) -> bool {
        increasing(self.rows())
    }
}

impl<V> View for TextMap<V> {
    type V = Map<Seq<char>, V>;

    open spec fn view(&self) -> Map<Seq<char>, V> {
        map_of(self.rows())
    }
}

/// Every row of an increasing sequence is a pair of the map, and every key has its row.
pub proof fn lemma_map_of<V>(rows: Seq<(Seq<char>, V)>)
    requires
        increasing(rows),
    ensures
        map_of(rows).dom().finite(),
        map_of(rows).len() == rows.len(),
        forall|i: int|
            0 <= i < rows.len() ==> map_of(rows).contains_key((#[trigger] rows[i]).0)
                && map_of(rows)[rows[i].0] == rows[i].1,
        forall|k: Seq<char>| #[trigger]
            map_of(rows).contains_key(k) ==> exists|i: int|
                0 <= i < rows.len() && (#[trigger] rows[i]).0 == k,
    decreases rows.len(),
{
    if rows.len() > 0 {
        let head = rows.drop_last();
        let last = rows.last();
        assert forall|i: int, j: int| 0 <= i < j < head.len() implies text::text_before(
            (#[trigger] head[i]).0,
            (#[trigger] head[j]).0,
        ) by {
            assert(head[i] == rows[i]);
            assert(head[j] == rows[j]);
        }
        lemma_map_of(head);
        assert forall|i: int| 0 <= i < head.len() implies (#[trigger] rows[i]).0 != last.0 by {
            text::lemma_text_before_asymmetric(rows[i].0, rows[rows.len() - 1].0);
        }
        assert(!map_of(head).contains_key(last.0)) by {
            if map_of(head).contains_key(last.0) {
                let i = choose|i: int| 0 <= i < head.len() && (#[trigger] head[i]).0 == last.0;
                assert(rows[i] == head[i]);
            }
        }
        assert forall|i: int| 0 <= i < rows.len() implies map_of(rows).contains_key(
            (#[trigger] rows[i]).0,
        ) && map_of(rows)[rows[i].0] == rows[i].1 by {
            if i < head.len() {
                assert(head[i] == rows[i]);
            }
        }
        assert forall|k: Seq<char>| #[trigger]
            map_of(rows).contains_key(k) implies exists|i: int|
            0 <= i < rows.len() && (#[trigger] rows[i]).0 == k by {
            if k == last.0 {
                assert(rows[rows.len() - 1].0 == k);
            } else {
                assert(map_of(head).contains_key(k));
                let i = choose|i: int| 0 <= i < head.len() && (#[trigger] head[i]).0 == k;
                assert(rows[i].0 == k);
            }
        }
    }
}

/// Replacing the value of one row replaces the value of its key.
pub proof fn lemma_map_of_update<V>(rows: Seq<(Seq<char>, V)>, at: int, value: V)
    requires
        increasing(rows),
        0 <= at < rows.len(),
    ensures
        increasing(rows.update(at, (rows[at].0, value))),
        map_of(rows.update(at, (rows[at].0, value))) == map_of(rows).insert(rows[at].0, value),
{
    let next = rows.update(at, (rows[at].0, value));
    assert forall|i: int, j: int| 0 <= i < j < next.len() implies text::text_before(
        (#[trigger] next[i]).0,
        (#[trigger] next[j]).0,
    ) by {
        assert(next[i].0 == rows[i].0);
        assert(next[j].0 == rows[j].0);
    }
    lemma_map_of(rows);
    lemma_map_of(next);
    lemma_unique(rows);
    assert(map_of(next) =~= map_of(rows).insert(rows[at].0, value)) by {
        assert forall|k: Seq<char>| map_of(next).contains_key(k) <==> map_of(rows).insert(
            rows[at].0,
            value,
        ).contains_key(k) by {
            if map_of(next).contains_key(k) {
                let i = choose|i: int| 0 <= i < next.len() && (#[trigger] next[i]).0 == k;
                assert(rows[i].0 == k);
            }
            if map_of(rows).contains_key(k) {
                let i = choose|i: int| 0 <= i < rows.len() && (#[trigger] rows[i]).0 == k;
                assert(next[i].0 == k);
            }
            assert(next[at].0 == rows[at].0);
        }
        assert forall|k: Seq<char>| map_of(next).contains_key(k) implies map_of(next)[k]
            == map_of(rows).insert(rows[at].0, value)[k] by {
            let i = choose|i: int| 0 <= i < next.len() && (#[trigger] next[i]).0 == k;
            assert(rows[i].0 == k);
        }
    }
}

/// No key stands in two rows of an increasing sequence.
pub proof fn lemma_unique<V>(rows: Seq<(Seq<char>, V)>)
    requires
        increasing(rows),
    ensures
        forall|i: int, j: int|
            0 <= i < rows.len() && 0 <= j < rows.len() && i != j ==> (#[trigger] rows[i]).0 != (
            #[trigger] rows[j]).0,
{
    assert forall|i: int, j: int|
        0 <= i < rows.len() && 0 <= j < rows.len() && i != j implies (#[trigger] rows[i]).0 != (
    #[trigger] rows[j]).0 by {
        if i < j {
            text::lemma_text_before_asymmetric(rows[i].0, rows[j].0);
        } else {
            text::lemma_text_before_asymmetric(rows[j].0, rows[i].0);
        }
    }
}

/// Only one increasing sequence of rows stands for a given map.
pub proof fn lemma_rows_unique<V>(a: Seq<(Seq<char>, V)>, b: Seq<(Seq<char>, V)>)
    requires
        increasing(a),
        increasing(b),
        map_of(a) == map_of(b),
    ensures
        a == b,
    decreases a.len(),
{
    lemma_map_of(a);
    lemma_map_of(b);
    if a.len() > 0 {
        let last = a.len() - 1;
        assert(map_of(b).contains_key(a[last].0));
        let i = choose|i: int| 0 <= i < b.len() && (#[trigger] b[i]).0 == a[last].0;
        assert(map_of(a).contains_key(b[last].0));
        let j = choose|j: int| 0 <= j < a.len() && (#[trigger] a[j]).0 == b[last].0;
        if i != last {
            assert(text::text_before(b[i].0, b[last].0));
            if j != last {
                assert(text::text_before(a[j].0, a[last].0));
            }
            text::lemma_text_before_asymmetric(b[i].0, b[last].0);
        }
        assert(map_of(b)[b[i].0] == b[i].1);
        assert(a[last] == b[last]);
        lemma_map_of_remove(a, last);
        lemma_map_of_remove(b, last);
        assert(a.remove(last) =~= a.drop_last());
        assert(b.remove(last) =~= b.drop_last());
        lemma_rows_unique(a.drop_last(), b.drop_last());
        assert(a =~= a.drop_last().push(a[last]));
        assert(b =~= b.drop_last().push(b[last]));
    } else {
        assert(a =~= b);
    }
}

/// The rows of a finite map in the order of their keys.
pub open spec fn rows_of<V>(map: Map<Seq<char>, V>) -> Seq<(Seq<char>, V)> {
    choose|rows: Seq<(Seq<char>, V)>| increasing(rows) && map_of(rows) == map
}

/// The values of a map by what they show.
pub open spec fn shown<V: View>(map: Map<Seq<char>, V>) -> Map<Seq<char>, V::V> {
    map.map_values(|value: V| value@)
}

/// Rows by what their values show.
pub open spec fn shown_rows<V: View>(rows: Seq<(Seq<char>, V)>) -> Seq<(Seq<char>, V::V)> {
    Seq::new(rows.len(), |i: int| (rows[i].0, rows[i].1@))
}

/// The shown rows are the rows of the shown map.
pub proof fn lemma_shown_rows<V: View>(rows: Seq<(Seq<char>, V)>)
    requires
        increasing(rows),
    ensures
        increasing(shown_rows(rows)),
        map_of(shown_rows(rows)) == shown(map_of(rows)),
        rows_of(shown(map_of(rows))) == shown_rows(rows),
    decreases rows.len(),
{
    let next = shown_rows(rows);
    assert forall|i: int, j: int| 0 <= i < j < next.len() implies text::text_before(
        (#[trigger] next[i]).0,
        (#[trigger] next[j]).0,
    ) by {
        assert(rows[i].0 == next[i].0);
        assert(rows[j].0 == next[j].0);
    }
    if rows.len() > 0 {
        let head = rows.drop_last();
        assert forall|i: int, j: int| 0 <= i < j < head.len() implies text::text_before(
            (#[trigger] head[i]).0,
            (#[trigger] head[j]).0,
        ) by {
            assert(head[i] == rows[i]);
            assert(head[j] == rows[j]);
        }
        lemma_shown_rows(head);
        assert(shown_rows(head) =~= next.drop_last());
    }
    assert(map_of(next) =~= shown(map_of(rows)));
    lemma_rows_unique(next, rows_of(map_of(next)));
}

/// A measure of what the values show has the same sum on either side.
pub proof fn lemma_sum_shown<V: View>(
    rows: Seq<(Seq<char>, V)>,
    measure: spec_fn(V::V) -> nat,
)
    ensures
        sum_of(shown_rows(rows), measure) == sum_of(rows, |value: V| measure(value@)),
    decreases rows.len(),
{
    if rows.len() > 0 {
        lemma_sum_shown(rows.drop_last(), measure);
        assert(shown_rows(rows).drop_last() =~= shown_rows(rows.drop_last()));
    }
}

/// The sum of a measure over all rows.
pub open spec fn sum_of<V>(rows: Seq<(Seq<char>, V)>, measure: spec_fn(V) -> nat) -> nat
    decreases rows.len(),
{
    if rows.len() == 0 {
        0
    } else {
        sum_of(rows.drop_last(), measure) + measure(rows.last().1)
    }
}

/// Replacing a row changes the sum by the difference.
pub proof fn lemma_sum_update<V>(
    rows: Seq<(Seq<char>, V)>,
    at: int,
    row: (Seq<char>, V),
    measure: spec_fn(V) -> nat,
)
    requires
        0 <= at < rows.len(),
    ensures
        sum_of(rows.update(at, row), measure) == sum_of(rows, measure) - measure(rows[at].1)
            + measure(row.1),
        measure(rows[at].1) <= sum_of(rows, measure),
    decreases rows.len(),
{
    if at == rows.len() - 1 {
        assert(rows.update(at, row).drop_last() =~= rows.drop_last());
    } else {
        lemma_sum_update(rows.drop_last(), at, row, measure);
        assert(rows.update(at, row).drop_last() =~= rows.drop_last().update(at, row));
    }
}

/// A new row adds its measure.
pub proof fn lemma_sum_insert<V>(
    rows: Seq<(Seq<char>, V)>,
    at: int,
    row: (Seq<char>, V),
    measure: spec_fn(V) -> nat,
)
    requires
        0 <= at <= rows.len(),
    ensures
        sum_of(rows.insert(at, row), measure) == sum_of(rows, measure) + measure(row.1),
    decreases rows.len(),
{
    let next = rows.insert(at, row);
    if at == rows.len() {
        assert(next.drop_last() =~= rows);
    } else {
        lemma_sum_insert(rows.drop_last(), at, row, measure);
        assert(next.drop_last() =~= rows.drop_last().insert(at, row));
        assert(next.last() == rows.last());
    }
}

/// A row that leaves takes its measure along.
pub proof fn lemma_sum_remove<V>(
    rows: Seq<(Seq<char>, V)>,
    at: int,
    measure: spec_fn(V) -> nat,
)
    requires
        0 <= at < rows.len(),
    ensures
        sum_of(rows.remove(at), measure) == sum_of(rows, measure) - measure(rows[at].1),
        measure(rows[at].1) <= sum_of(rows, measure),
    decreases rows.len(),
{
    let next = rows.remove(at);
    lemma_sum_insert(next, at, rows[at], measure);
    assert(next.insert(at, rows[at]) =~= rows);
}

/// Inserting a row between its neighbours adds one pair.
proof fn lemma_map_of_insert<V>(rows: Seq<(Seq<char>, V)>, at: int, key: Seq<char>, value: V)
    requires
        increasing(rows),
        0 <= at <= rows.len(),
        forall|i: int| 0 <= i < at ==> text::text_before((#[trigger] rows[i]).0, key),
        forall|i: int|
            at <= i < rows.len() ==> text::text_before(key, (#[trigger] rows[i]).0),
    ensures
        increasing(rows.insert(at, (key, value))),
        map_of(rows.insert(at, (key, value))) == map_of(rows).insert(key, value),
        !map_of(rows).contains_key(key),
{
    let next = rows.insert(at, (key, value));
    assert forall|i: int, j: int| 0 <= i < j < next.len() implies text::text_before(
        (#[trigger] next[i]).0,
        (#[trigger] next[j]).0,
    ) by {
        let a = if i < at { i } else { i - 1 };
        let b = if j < at { j } else { j - 1 };
        if i != at {
            assert(next[i] == rows[a]);
        }
        if j != at {
            assert(next[j] == rows[b]);
        }
    }
    lemma_map_of(rows);
    lemma_map_of(next);
    lemma_unique(next);
    assert(next[at] == (key, value));
    assert(map_of(next) =~= map_of(rows).insert(key, value)) by {
        assert forall|k: Seq<char>| map_of(next).contains_key(k) <==> map_of(rows).insert(
            key,
            value,
        ).contains_key(k) by {
            if map_of(next).contains_key(k) && k != key {
                let i = choose|i: int| 0 <= i < next.len() && (#[trigger] next[i]).0 == k;
                let a = if i < at { i } else { i - 1 };
                assert(rows[a].0 == k);
            }
            if map_of(rows).contains_key(k) {
                let a = choose|a: int| 0 <= a < rows.len() && (#[trigger] rows[a]).0 == k;
                let i = if a < at { a } else { a + 1 };
                assert(next[i].0 == k);
            }
        }
        assert forall|k: Seq<char>| map_of(next).contains_key(k) implies map_of(next)[k]
            == map_of(rows).insert(key, value)[k] by {
            let i = choose|i: int| 0 <= i < next.len() && (#[trigger] next[i]).0 == k;
            if i != at {
                let a = if i < at { i } else { i - 1 };
                assert(rows[a] == next[i]);
            }
        }
    }
    if map_of(rows).contains_key(key) {
        let a = choose|a: int| 0 <= a < rows.len() && (#[trigger] rows[a]).0 == key;
        text::lemma_text_before_asymmetric(rows[a].0, key);
    }
}

/// Removing a row removes its pair.
proof fn lemma_map_of_remove<V>(rows: Seq<(Seq<char>, V)>, at: int)
    requires
        increasing(rows),
        0 <= at < rows.len(),
    ensures
        increasing(rows.remove(at)),
        map_of(rows.remove(at)) == map_of(rows).remove(rows[at].0),
{
    let next = rows.remove(at);
    assert forall|i: int, j: int| 0 <= i < j < next.len() implies text::text_before(
        (#[trigger] next[i]).0,
        (#[trigger] next[j]).0,
    ) by {
        let a = if i < at { i } else { i + 1 };
        let b = if j < at { j } else { j + 1 };
        assert(next[i] == rows[a]);
        assert(next[j] == rows[b]);
    }
    lemma_map_of(rows);
    lemma_map_of(next);
    lemma_unique(rows);
    assert(map_of(next) =~= map_of(rows).remove(rows[at].0)) by {
        assert forall|k: Seq<char>| map_of(next).contains_key(k) <==> map_of(rows).remove(
            rows[at].0,
        ).contains_key(k) by {
            if map_of(next).contains_key(k) {
                let i = choose|i: int| 0 <= i < next.len() && (#[trigger] next[i]).0 == k;
                let a = if i < at { i } else { i + 1 };
                assert(rows[a].0 == k);
            }
            if map_of(rows).contains_key(k) && k != rows[at].0 {
                let a = choose|a: int| 0 <= a < rows.len() && (#[trigger] rows[a]).0 == k;
                let i = if a < at { a } else { a - 1 };
                assert(next[i].0 == k);
            }
        }
        assert forall|k: Seq<char>| map_of(next).contains_key(k) implies map_of(next)[k]
            == map_of(rows).remove(rows[at].0)[k] by {
            let i = choose|i: int| 0 <= i < next.len() && (#[trigger] next[i]).0 == k;
            let a = if i < at { i } else { i + 1 };
            assert(rows[a] == next[i]);
        }
    }
}

impl<V> TextMap<V> {
    /// A map without rows.
    pub fn new() -> (map: Self)
        ensures
            map.wf(),
            map.rows() == Seq::<(Seq<char>, V)>::empty(),
            map@ == Map::<Seq<char>, V>::empty(),
    {
        let map = TextMap { entries: Vec::new() };
        assert(map.rows() =~= Seq::<(Seq<char>, V)>::empty());
        map
    }

    /// The number of rows.
    pub fn len(&self) -> (len: usize)
        requires
            self.wf(),
        ensures
            len == self.rows().len(),
            len == self@.len(),
            self@.dom().finite(),
    {
        proof {
            lemma_map_of(self.rows());
        }
        self.entries.len()
    }

    /// Where the row of `key` stands, or where it would have to be inserted.
    fn position(&self, key: &str) -> (at: Result<usize, usize>)
        requires
            self.wf(),
        ensures
            match at {
                Ok(i) => i < self.rows().len() && self.rows()[i as int].0 == key@,
                Err(i) => {
                    &&& i <= self.rows().len()
                    &&& forall|j: int|
                        0 <= j < i ==> text::text_before(
                            (#[trigger] self.rows()[j]).0,
                            key@,
                        )
                    &&& forall|j: int|
                        i <= j < self.rows().len() ==> text::text_before(
                            key@,
                            (#[trigger] self.rows()[j]).0,
                        )
                },
            },
    {
        let ghost rows = self.rows();
        let mut low: usize = 0;
        let mut high: usize = self.entries.len();
        while low < high
            invariant
                self.wf(),
                rows == self.rows(),
                rows.len() == self.entries@.len(),
                low <= high <= rows.len(),
                forall|j: int|
                    0 <= j < low ==> text::text_before((#[trigger] rows[j]).0, key@),
                forall|j: int|
                    high <= j < rows.len() ==> text::text_before(
                        key@,
                        (#[trigger] rows[j]).0,
                    ),
            decreases high - low,
        {
            let middle: usize = low + (high - low) / 2;
            let side = side_of(self.entries[middle].0.as_str(), key);
            assert(rows[middle as int].0 == self.entries@[middle as int].0@);
            if side == Side::Same {
                return Ok(middle);
            } else if side == Side::Before {
                assert forall|j: int| 0 <= j < middle + 1 implies text::text_before(
                    (#[trigger] rows[j]).0,
                    key@,
                ) by {
                    if j < middle {
                        text::lemma_text_before_transitive(
                            rows[j].0,
                            rows[middle as int].0,
                            key@,
                        );
                    }
                }
                low = middle + 1;
            } else {
                assert forall|j: int| middle <= j < rows.len() implies text::text_before(
                    key@,
                    (#[trigger] rows[j]).0,
                ) by {
                    if j > middle {
                        text::lemma_text_before_transitive(
                            key@,
                            rows[middle as int].0,
                            rows[j].0,
                        );
                    }
                }
                high = middle;
            }
        }
        Err(low)
    }

    /// The place of the row with this key.
    pub fn find(&self, key: &str) -> (at: Option<usize>)
        requires
            self.wf(),
        ensures
            match at {
                Some(i) => {
                    &&& i < self.rows().len()
                    &&& self.rows()[i as int].0 == key@
                    &&& self@.contains_key(key@)
                    &&& self@[key@] == self.rows()[i as int].1
                },
                None => !self@.contains_key(key@),
            },
    {
        proof {
            lemma_map_of(self.rows());
        }
        match self.position(key) {
            Ok(i) => Some(i),
            Err(i) => {
                proof {
                    if self@.contains_key(key@) {
                        let rows = self.rows();
                        let j = choose|j: int|
                            0 <= j < rows.len() && (#[trigger] rows[j]).0 == key@;
                        text::lemma_bytes_before_irreflexive(text::utf8(key@));
                    }
                }
                None
            },
        }
    }

    /// Whether the key has a row.
    pub fn contains(&self, key: &str) -> (found: bool)
        requires
            self.wf(),
        ensures
            found == self@.contains_key(key@),
    {
        self.find(key).is_some()
    }

    /// The value of a key.
    pub fn get(&self, key: &str) -> (value: Option<&V>)
        requires
            self.wf(),
        ensures
            value == (if self@.contains_key(key@) {
                Some(&self@[key@])
            } else {
                None
            }),
    {
        match self.find(key) {
            Some(i) => Some(&self.entries[i].1),
            None => None,
        }
    }

    /// The key of a row.
    pub fn key_at(&self, at: usize) -> (key: &String)
        requires
            at < self.rows().len(),
        ensures
            key@ == self.rows()[at as int].0,
    {
        &self.entries[at].0
    }

    /// The value of a row.
    pub fn value_at(&self, at: usize) -> (value: &V)
        requires
            at < self.rows().len(),
        ensures
            *value == self.rows()[at as int].1,
    {
        &self.entries[at].1
    }

    /// The value of a row, for change in place.
    pub fn value_mut(&mut self, at: usize) -> (value: &mut V)
        requires
            old(self).wf(),
            at < old(self).rows().len(),
        ensures
            *value == old(self).rows()[at as int].1,
            final(self).rows() == old(self).rows().update(
                at as int,
                (old(self).rows()[at as int].0, *final(value)),
            ),
            final(self).wf(),
            final(self)@ == old(self)@.insert(old(self).rows()[at as int].0, *final(value)),
    {
        let ghost before = self.rows();
        let ghost entries = self.entries@;
        let value = &mut self.entries[at].1;
        proof {
            lemma_map_of_update(before, at as int, *final(value));
            let next = entries.update(at as int, (entries[at as int].0, *final(value)));
            assert(Seq::new(next.len(), |i: int| (next[i].0@, next[i].1)) =~= before.update(
                at as int,
                (before[at as int].0, *final(value)),
            ));
        }
        value
    }

    /// Gives the key this value; hands back the value that it had before.
    pub fn insert(&mut self, key: String, value: V) -> (previous: Option<V>)
        requires
            old(self).wf(),
        ensures
            final(self).wf(),
            final(self)@ == old(self)@.insert(key@, value),
            previous == (if old(self)@.contains_key(key@) {
                Some(old(self)@[key@])
            } else {
                None
            }),
            !old(self)@.contains_key(key@) ==> exists|at: int|
                0 <= at <= old(self).rows().len() && final(self).rows() == #[trigger] old(
                    self,
                ).rows().insert(at, (key@, value)),
    {
        let ghost before = self.rows();
        proof {
            lemma_map_of(before);
        }
        match self.position(key.as_str()) {
            Ok(i) => {
                let mut value = value;
                let ghost given = value;
                std::mem::swap(&mut value, &mut self.entries[i].1);
                proof {
                    lemma_map_of_update(before, i as int, given);
                    assert(self.rows() =~= before.update(i as int, (before[i as int].0, given)));
                }
                Some(value)
            },
            Err(i) => {
                proof {
                    lemma_map_of_insert(before, i as int, key@, value);
                }
                let ghost name = key@;
                self.entries.insert(i, (key, value));
                assert(self.rows() =~= before.insert(i as int, (name, value)));
                None
            },
        }
    }

    /// Adds a row whose key comes after all others.
    pub fn push_last(&mut self, key: String, value: V)
        requires
            old(self).wf(),
            forall|i: int|
                0 <= i < old(self).rows().len() ==> text::text_before(
                    (#[trigger] old(self).rows()[i]).0,
                    key@,
                ),
        ensures
            final(self).wf(),
            final(self).rows() == old(self).rows().push((key@, value)),
    {
        let ghost before = self.rows();
        let ghost name = key@;
        self.entries.push((key, value));
        let ghost next = self.rows();
        assert(next =~= before.push((name, value)));
        assert forall|i: int, j: int| 0 <= i < j < next.len() implies text::text_before(
            (#[trigger] next[i]).0,
            (#[trigger] next[j]).0,
        ) by {
            assert(next[i] == before[i]);
            if j < before.len() {
                assert(next[j] == before[j]);
            }
        }
    }

    /// Takes one row out.
    pub fn remove_at(&mut self, at: usize) -> (row: (String, V))
        requires
            old(self).wf(),
            at < old(self).rows().len(),
        ensures
            final(self).wf(),
            final(self).rows() == old(self).rows().remove(at as int),
            final(self)@ == old(self)@.remove(old(self).rows()[at as int].0),
            row.0@ == old(self).rows()[at as int].0,
            row.1 == old(self).rows()[at as int].1,
    {
        let ghost before = self.rows();
        proof {
            lemma_map_of_remove(before, at as int);
        }
        let row = self.entries.remove(at);
        assert(self.rows() =~= before.remove(at as int));
        row
    }

    /// Takes the row of a key out.
    pub fn remove(&mut self, key: &str) -> (value: Option<V>)
        requires
            old(self).wf(),
        ensures
            final(self).wf(),
            final(self)@ == old(self)@.remove(key@),
            value == (if old(self)@.contains_key(key@) {
                Some(old(self)@[key@])
            } else {
                None
            }),
    {
        match self.find(key) {
            Some(i) => Some(self.remove_at(i).1),
            None => {
                assert(self@.remove(key@) =~= self@);
                None
            },
        }
    }

    /// Drops every row.
    pub fn clear(&mut self)
        ensures
            final(self).wf(),
            final(self).rows() == Seq::<(Seq<char>, V)>::empty(),
            final(self)@ == Map::<Seq<char>, V>::empty(),
    {
        self.entries.clear();
        assert(self.rows() =~= Seq::<(Seq<char>, V)>::empty());
    }
}

/// The sum of a measure over all values of a map.
pub open spec fn sum_over<V>(map: Map<Seq<char>, V>, measure: spec_fn(V) -> nat) -> nat {
    sum_of(rows_of(map), measure)
}

/// Where a key belongs among increasing rows.
spec fn place<V>(rows: Seq<(Seq<char>, V)>, key: Seq<char>) -> int
    decreases rows.len(),
{
    if rows.len() == 0 || text::text_before(rows.last().0, key) {
        rows.len() as int
    } else {
        place(rows.drop_last(), key)
    }
}

proof fn lemma_place<V>(rows: Seq<(Seq<char>, V)>, key: Seq<char>)
    requires
        increasing(rows),
        forall|i: int| 0 <= i < rows.len() ==> (#[trigger] rows[i]).0 != key,
    ensures
        0 <= place(rows, key) <= rows.len(),
        forall|i: int| 0 <= i < place(rows, key) ==> text::text_before((#[trigger] rows[i]).0, key),
        forall|i: int|
            place(rows, key) <= i < rows.len() ==> text::text_before(key, (#[trigger] rows[i]).0),
    decreases rows.len(),
{
    if rows.len() > 0 {
        let last = rows.len() - 1;
        if text::text_before(rows.last().0, key) {
            assert forall|i: int| 0 <= i < rows.len() implies text::text_before(
                (#[trigger] rows[i]).0,
                key,
            ) by {
                if i < last {
                    text::lemma_text_before_transitive(rows[i].0, rows[last].0, key);
                }
            }
        } else {
            let head = rows.drop_last();
            assert forall|i: int, j: int| 0 <= i < j < head.len() implies text::text_before(
                (#[trigger] head[i]).0,
                (#[trigger] head[j]).0,
            ) by {
                assert(head[i] == rows[i] && head[j] == rows[j]);
            }
            assert forall|i: int| 0 <= i < head.len() implies (#[trigger] head[i]).0 != key by {
                assert(head[i] == rows[i]);
            }
            lemma_place(head, key);
            assert(rows[last].0 != key);
            text::lemma_text_before_total(rows[last].0, key);
            assert forall|i: int| 0 <= i < place(rows, key) implies text::text_before(
                (#[trigger] rows[i]).0,
                key,
            ) by {
                assert(head[i] == rows[i]);
            }
            assert forall|i: int| place(rows, key) <= i < rows.len() implies text::text_before(
                key,
                (#[trigger] rows[i]).0,
            ) by {
                if i < last {
                    assert(head[i] == rows[i]);
                }
            }
        }
    }
}

/// A finite map has its rows.
pub proof fn lemma_rows_of<V>(map: Map<Seq<char>, V>)
    requires
        map.dom().finite(),
    ensures
        increasing(rows_of(map)),
        map_of(rows_of(map)) == map,
    decreases map.dom().len(),
{
    if map.dom().len() == 0 {
        let none = Seq::<(Seq<char>, V)>::empty();
        assert(map =~= map_of(none));
        assert(increasing(none) && map_of(none) == map);
    } else {
        let key = map.dom().choose();
        let less = map.remove(key);
        lemma_rows_of(less);
        let rows = rows_of(less);
        lemma_map_of(rows);
        assert forall|i: int| 0 <= i < rows.len() implies (#[trigger] rows[i]).0 != key by {
            assert(less.contains_key(rows[i].0));
        }
        lemma_place(rows, key);
        let more = rows.insert(place(rows, key), (key, map[key]));
        lemma_map_of_insert(rows, place(rows, key), key, map[key]);
        assert(less.insert(key, map[key]) =~= map);
        assert(increasing(more) && map_of(more) == map);
    }
}

/// A pair that is put into a map adds its measure, in place of that of the pair that it replaces.
pub proof fn lemma_sum_put<V>(
    map: Map<Seq<char>, V>,
    key: Seq<char>,
    value: V,
    measure: spec_fn(V) -> nat,
)
    requires
        map.dom().finite(),
    ensures
        map.contains_key(key) ==> measure(map[key]) <= sum_over(map, measure),
        sum_over(map.insert(key, value), measure) == sum_over(map, measure) - (
        if map.contains_key(key) {
            measure(map[key])
        } else {
            0
        }) + measure(value),
{
    let rows = rows_of(map);
    let after = map.insert(key, value);
    lemma_rows_of(map);
    lemma_rows_of(after);
    lemma_map_of(rows);
    if map.contains_key(key) {
        let at = choose|at: int| 0 <= at < rows.len() && (#[trigger] rows[at]).0 == key;
        lemma_map_of_update(rows, at, value);
        lemma_rows_unique(rows.update(at, (key, value)), rows_of(after));
        lemma_sum_update(rows, at, (key, value), measure);
    } else {
        assert forall|i: int| 0 <= i < rows.len() implies (#[trigger] rows[i]).0 != key by {
            assert(map.contains_key(rows[i].0));
        }
        lemma_place(rows, key);
        lemma_map_of_insert(rows, place(rows, key), key, value);
        lemma_rows_unique(rows.insert(place(rows, key), (key, value)), rows_of(after));
        lemma_sum_insert(rows, place(rows, key), (key, value), measure);
    }
}

/// A part of a map has no larger sum.
pub proof fn lemma_sum_part<V>(
    part: Map<Seq<char>, V>,
    map: Map<Seq<char>, V>,
    measure: spec_fn(V) -> nat,
)
    requires
        map.dom().finite(),
        forall|key: Seq<char>| #[trigger]
            part.contains_key(key) ==> map.contains_key(key) && part[key] == map[key],
    ensures
        part.dom().finite(),
        sum_over(part, measure) <= sum_over(map, measure),
    decreases map.dom().len(),
{
    if forall|key: Seq<char>| #[trigger] map.contains_key(key) ==> part.contains_key(key) {
        assert(part =~= map);
    } else {
        let key = choose|key: Seq<char>| #[trigger] map.contains_key(key) && !part.contains_key(key);
        let less = map.remove(key);
        lemma_sum_part(part, less, measure);
        lemma_sum_put(less, key, map[key], measure);
        assert(less.insert(key, map[key]) =~= map);
    }
}

} // verus!
