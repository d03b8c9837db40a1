//! What a scan is for: the usage that it publishes for a directory is the sum over everything that
//! lies below it, and what could not be measured is never left unsaid.
use vstd::prelude::*;

use crate::domain::history;
use crate::domain::history::IndexCall;
use crate::domain::index;
use crate::domain::index::{IndexView, KeyView, Origin};
use crate::domain::model::{IssueView, Kind, MeasureView, Reason, ScanState, UsageView};
use crate::runtime::memory::PoolView;
use crate::scan::aggregate;
use crate::scan::aggregate::{AggregateView, Metric, ObservationView, SharedSize, SumView};
use crate::scan::identity;
use crate::scan::identity::FileIdentity;
use crate::scan::usage;
use crate::scan::usage::{
    FrameView, OpeningView, Progress, Quantum, Reply, Round, ScanPhase, ScannerView,
};

verus! {

broadcast use vstd::set::group_set_axioms;

/// An entry that is one of several links to a file.
pub open spec fn is_link(entry: ObservationView) -> bool {
    entry.kind != Kind::Directory && entry.link_count > 1
}

/// Whether an entry counts: it is not another link to a file that came before.
pub open spec fn counts(entries: Seq<ObservationView>, i: int) -> bool {
    is_link(entries[i]) ==> forall|j: int|
        0 <= j < i && is_link(#[trigger] entries[j]) ==> entries[j].identity
            != entries[i].identity
}

/// The logical or the allocated size of an entry, where it is known.
pub open spec fn size_of(entry: ObservationView, logical: bool) -> nat {
    match if logical {
        entry.logical
    } else {
        entry.allocated
    } {
        Metric::Known(value) => value as nat,
        _ => 0,
    }
}

/// The bytes of some entries, logical or allocated: the sum of their sizes, in which the links to
/// one file count once.
pub open spec fn bytes_of(entries: Seq<ObservationView>, logical: bool) -> nat
    decreases entries.len(),
{
    if entries.len() == 0 {
        0
    } else {
        bytes_of(entries.drop_last(), logical) + if counts(entries, entries.len() - 1) {
            size_of(entries.last(), logical)
        } else {
            0
        }
    }
}

/// Whether both sizes of every entry are known, every link tells its file, and all links to one file
/// tell the same sizes.
pub open spec fn is_measurable(entries: Seq<ObservationView>) -> bool {
    &&& forall|e: ObservationView| #[trigger]
        entries.contains(e) ==> e.logical is Known && e.allocated is Known && (is_link(e)
            ==> e.identity is Some)
    &&& forall|a: ObservationView, b: ObservationView| #[trigger]
        entries.contains(a) && #[trigger] entries.contains(b) && is_link(a) && is_link(b)
            && a.identity == b.identity ==> a.logical == b.logical && a.allocated == b.allocated
}

/// Whether the file with this identity is linked among some entries.
spec fn linked(entries: Seq<ObservationView>, key: FileIdentity) -> bool {
    exists|i: int|
        0 <= i < entries.len() && is_link(#[trigger] entries[i]) && entries[i].identity == Some(
            key,
        )
}

/// The files that are linked among some entries, with their sizes.
spec fn links_of(entries: Seq<ObservationView>) -> Map<FileIdentity, SharedSize>
    decreases entries.len(),
{
    if entries.len() == 0 {
        Map::empty()
    } else {
        let head = links_of(entries.drop_last());
        let last = entries.last();
        if is_link(last) {
            head.insert(
                last.identity->0,
                SharedSize { logical: last.logical, allocated: last.allocated },
            )
        } else {
            head
        }
    }
}

/// The bytes of the entries that are no links.
spec fn plain_bytes(entries: Seq<ObservationView>, logical: bool) -> nat
    decreases entries.len(),
{
    if entries.len() == 0 {
        0
    } else {
        plain_bytes(entries.drop_last(), logical) + if is_link(entries.last()) {
            0
        } else {
            size_of(entries.last(), logical)
        }
    }
}

spec fn size_fn(logical: bool) -> spec_fn(SharedSize) -> nat {
    if logical {
        aggregate::logical_size()
    } else {
        aggregate::allocated_size()
    }
}

proof fn lemma_part(entries: Seq<ObservationView>, part: Seq<ObservationView>)
    requires
        is_measurable(entries),
        forall|e: ObservationView| #[trigger] part.contains(e) ==> entries.contains(e),
    ensures
        is_measurable(part),
{
}

proof fn lemma_head_contains(entries: Seq<ObservationView>)
    requires
        entries.len() > 0,
    ensures
        forall|e: ObservationView| #[trigger]
            entries.drop_last().contains(e) ==> entries.contains(e),
        entries.contains(entries.last()),
{
    assert forall|e: ObservationView| #[trigger]
        entries.drop_last().contains(e) implies entries.contains(e) by {
        let i = choose|i: int|
            0 <= i < entries.drop_last().len() && entries.drop_last()[i] == e;
        assert(entries[i] == e);
    }
    assert(entries[entries.len() - 1] == entries.last());
}

/// What is known of the linked files.
proof fn lemma_links_of(entries: Seq<ObservationView>)
    requires
        is_measurable(entries),
    ensures
        links_of(entries).dom().finite(),
        links_of(entries).len() <= link_count(entries),
        forall|key: FileIdentity| #[trigger]
            links_of(entries).contains_key(key) <==> linked(entries, key),
        forall|i: int|
            0 <= i < entries.len() && is_link(#[trigger] entries[i]) ==> links_of(
                entries,
            ).contains_key(entries[i].identity->0) && links_of(entries)[entries[i].identity->0]
                == (SharedSize {
                logical: entries[i].logical,
                allocated: entries[i].allocated,
            }),
    decreases entries.len(),
{
    if entries.len() > 0 {
        let head = entries.drop_last();
        let last = entries.last();
        lemma_head_contains(entries);
        lemma_part(entries, head);
        lemma_links_of(head);
        assert forall|key: FileIdentity| #[trigger]
            links_of(entries).contains_key(key) <==> linked(entries, key) by {
            if linked(entries, key) {
                let i = choose|i: int|
                    0 <= i < entries.len() && is_link(#[trigger] entries[i])
                        && entries[i].identity == Some(key);
                if i < head.len() {
                    assert(head[i] == entries[i]);
                    assert(linked(head, key));
                }
            }
            if links_of(entries).contains_key(key) {
                if links_of(head).contains_key(key) {
                    let i = choose|i: int|
                        0 <= i < head.len() && is_link(#[trigger] head[i]) && head[i].identity
                            == Some(key);
                    assert(entries[i] == head[i]);
                } else {
                    assert(entries[entries.len() - 1] == last);
                }
            }
        }
        assert forall|i: int| 0 <= i < entries.len() && is_link(#[trigger] entries[i]) implies
            links_of(entries).contains_key(entries[i].identity->0) && links_of(
            entries,
        )[entries[i].identity->0] == (SharedSize {
            logical: entries[i].logical,
            allocated: entries[i].allocated,
        }) by {
            assert(entries.contains(entries[i]));
            if i < head.len() {
                assert(head[i] == entries[i]);
            }
        }
    }
}

/// How many links there are among some entries.
pub open spec fn link_count(entries: Seq<ObservationView>) -> nat
    decreases entries.len(),
{
    if entries.len() == 0 {
        0
    } else {
        link_count(entries.drop_last()) + if is_link(entries.last()) {
            1nat
        } else {
            0nat
        }
    }
}

/// The bytes of some entries are those of the plain ones and those of every linked file.
proof fn lemma_bytes(entries: Seq<ObservationView>, logical: bool)
    requires
        is_measurable(entries),
    ensures
        bytes_of(entries, logical) == plain_bytes(entries, logical) + aggregate::shared_total(
            links_of(entries),
            size_fn(logical),
        ),
        bytes_of(entries, logical) <= entries.len() * u64::MAX,
    decreases entries.len(),
{
    if entries.len() == 0 {
        assert(links_of(entries).dom() =~= Set::empty());
    } else {
        let head = entries.drop_last();
        let last = entries.last();
        let n = entries.len() - 1;
        lemma_head_contains(entries);
        lemma_part(entries, head);
        lemma_bytes(head, logical);
        lemma_links_of(head);
        assert(entries.len() * u64::MAX == head.len() * u64::MAX + u64::MAX) by (nonlinear_arith)
            requires
                entries.len() == head.len() + 1,
        ;
        if is_link(last) {
            let key = last.identity->0;
            let size = SharedSize { logical: last.logical, allocated: last.allocated };
            aggregate::lemma_shared_total_insert(links_of(head), size_fn(logical), key, size);
            assert(size_fn(logical)(size) == size_of(last, logical));
            if linked(head, key) {
                let j = choose|j: int|
                    0 <= j < head.len() && is_link(#[trigger] head[j]) && head[j].identity == Some(
                        key,
                    );
                assert(entries[j] == head[j]);
                assert(!counts(entries, n));
                assert(entries.contains(head[j]));
                assert(links_of(head)[key] == size);
            } else {
                assert forall|j: int| 0 <= j < n && is_link(#[trigger] entries[j]) implies
                    entries[j].identity != entries[n].identity by {
                    if entries[j].identity == entries[n].identity {
                        assert(head[j] == entries[j]);
                        assert(linked(head, key));
                    }
                }
                assert(counts(entries, n));
            }
        }
    }
}

/// Sums that hold exactly some entries.
spec fn holds(sums: AggregateView, entries: Seq<ObservationView>) -> bool {
    &&& entries.len() > 0
    &&& sums.shared == links_of(entries)
    &&& sums.logical == (SumView {
        bytes: bytes_of(entries, true),
        known: true,
        reasons: Set::empty(),
    })
    &&& sums.allocated == (SumView {
        bytes: bytes_of(entries, false),
        known: true,
        reasons: Set::empty(),
    })
}

proof fn lemma_push_contains(entries: Seq<ObservationView>, entry: ObservationView)
    ensures
        forall|e: ObservationView| #[trigger]
            entries.contains(e) ==> entries.push(entry).contains(e),
        entries.push(entry).contains(entry),
{
    let more = entries.push(entry);
    assert(more.drop_last() =~= entries);
    lemma_head_contains(more);
}

/// One more entry that is no directory, or is the directory itself.
proof fn lemma_holds_more(sums: AggregateView, entries: Seq<ObservationView>, entry: ObservationView)
    requires
        holds(sums, entries),
        is_measurable(entries.push(entry)),
        entries.len() + 1 <= u64::MAX,
        entry.kind != Kind::Directory,
    ensures
        holds(sums.with_file(entry, true), entries.push(entry)),
{
    let more = entries.push(entry);
    lemma_push_contains(entries, entry);
    lemma_part(more, entries);
    assert(more.drop_last() =~= entries);
    lemma_links_of(entries);
    lemma_links_of(more);
    lemma_bytes(more, true);
    lemma_bytes(more, false);
    lemma_bytes(entries, true);
    lemma_bytes(entries, false);
    assert(more.len() * u64::MAX <= u128::MAX) by (nonlinear_arith)
        requires
            more.len() <= u64::MAX,
    ;
    let after = sums.with_file(entry, true);
    if is_link(entry) {
        let key = entry.identity->0;
        let size = SharedSize { logical: entry.logical, allocated: entry.allocated };
        if links_of(entries).contains_key(key) {
            let j = choose|j: int|
                0 <= j < entries.len() && is_link(#[trigger] entries[j]) && entries[j].identity
                    == Some(key);
            assert(more[j] == entries[j]);
            assert(entries.contains(entries[j]));
            assert(more.contains(entries[j]));
            assert(links_of(entries)[key] == size);
            assert(!counts(more, more.len() - 1));
            assert(after.shared =~= links_of(more));
        } else {
            assert(counts(more, more.len() - 1)) by {
                assert forall|j: int| 0 <= j < more.len() - 1 && is_link(#[trigger] more[j]) implies
                    more[j].identity != entry.identity by {
                    if more[j].identity == entry.identity {
                        assert(entries[j] == more[j]);
                        assert(linked(entries, key));
                    }
                }
            }
            assert(after.shared =~= links_of(more));
        }
    }
    assert(after.logical =~= (SumView {
        bytes: bytes_of(more, true),
        known: true,
        reasons: Set::empty(),
    }));
    assert(after.allocated =~= (SumView {
        bytes: bytes_of(more, false),
        known: true,
        reasons: Set::empty(),
    }));
}

/// The directory itself.
proof fn lemma_holds_own(entry: ObservationView)
    requires
        is_measurable(seq![entry]),
        entry.kind == Kind::Directory,
    ensures
        holds(AggregateView::zero().with_own(entry), seq![entry]),
{
    let one = seq![entry];
    assert(one[0] == entry);
    assert(one.contains(entry));
    assert(one.drop_last() =~= Seq::<ObservationView>::empty());
    let sums = AggregateView::zero().with_own(entry);
    assert(bytes_of(one.drop_last(), true) == 0);
    assert(bytes_of(one.drop_last(), false) == 0);
    assert(links_of(one.drop_last()) =~= Map::empty());
    assert(sums.logical =~= (SumView {
        bytes: bytes_of(one, true),
        known: true,
        reasons: Set::empty(),
    }));
    assert(sums.allocated =~= (SumView {
        bytes: bytes_of(one, false),
        known: true,
        reasons: Set::empty(),
    }));
    assert(sums.shared =~= links_of(one));
}

/// Taking over linked files of which nothing else was known only removes what is counted twice.
proof fn lemma_absorbing(sums: AggregateView, rows: Seq<(FileIdentity, SharedSize)>)
    requires
        identity::ascending(rows),
        forall|i: int|
            0 <= i < rows.len() && sums.shared.contains_key((#[trigger] rows[i]).0)
                ==> sums.shared[rows[i].0] == rows[i].1,
    ensures
        sums.absorbing(rows).shared == sums.shared.union_prefer_right(identity::identity_map(rows)),
        sums.absorbing(rows).logical.reasons == sums.logical.reasons,
        sums.absorbing(rows).logical.known == sums.logical.known,
        sums.absorbing(rows).allocated.reasons == sums.allocated.reasons,
        sums.absorbing(rows).allocated.known == sums.allocated.known,
    decreases rows.len(),
{
    if rows.len() == 0 {
        assert(sums.shared.union_prefer_right(identity::identity_map(rows)) =~= sums.shared);
    } else {
        let head = rows.drop_last();
        let last = rows.last();
        assert forall|i: int, j: int| 0 <= i < j < head.len() implies (#[trigger] head[i]).0.before(
            (#[trigger] head[j]).0,
        ) by {
            assert(head[i] == rows[i]);
            assert(head[j] == rows[j]);
        }
        assert forall|i: int|
            0 <= i < head.len() && sums.shared.contains_key((#[trigger] head[i]).0) implies
            sums.shared[head[i].0] == head[i].1 by {
            assert(head[i] == rows[i]);
        }
        lemma_absorbing(sums, head);
        identity::lemma_identity_map(head);
        let before = sums.absorbing(head);
        assert(rows[rows.len() - 1] == last);
        if before.shared.contains_key(last.0) {
            assert(!identity::identity_map(head).contains_key(last.0)) by {
                if identity::identity_map(head).contains_key(last.0) {
                    let i = choose|i: int|
                        0 <= i < head.len() && (#[trigger] head[i]).0 == last.0;
                    assert(rows[i].0.before(rows[rows.len() - 1].0));
                }
            }
            assert(before.shared[last.0] == last.1);
        }
        assert(sums.absorbing(rows).shared =~= sums.shared.union_prefer_right(
            identity::identity_map(rows),
        ));
    }
}

/// What two runs of entries come to together.
proof fn lemma_joined(a: Seq<ObservationView>, b: Seq<ObservationView>, logical: bool)
    requires
        is_measurable(a + b),
    ensures
        is_measurable(a),
        is_measurable(b),
        plain_bytes(a + b, logical) == plain_bytes(a, logical) + plain_bytes(b, logical),
        links_of(a + b) == links_of(a).union_prefer_right(links_of(b)),
        forall|key: FileIdentity| #[trigger]
            links_of(a).contains_key(key) && links_of(b).contains_key(key) ==> links_of(a)[key]
                == links_of(b)[key],
    decreases b.len(),
{
    assert forall|e: ObservationView| #[trigger] a.contains(e) implies (a + b).contains(e) by {
        let i = choose|i: int| 0 <= i < a.len() && a[i] == e;
        assert((a + b)[i] == e);
    }
    assert forall|e: ObservationView| #[trigger] b.contains(e) implies (a + b).contains(e) by {
        let i = choose|i: int| 0 <= i < b.len() && b[i] == e;
        assert((a + b)[a.len() + i] == e);
    }
    lemma_part(a + b, a);
    lemma_part(a + b, b);
    lemma_links_of(a);
    lemma_links_of(b);
    assert forall|key: FileIdentity| #[trigger]
        links_of(a).contains_key(key) && links_of(b).contains_key(key) implies links_of(a)[key]
        == links_of(b)[key] by {
        let i = choose|i: int|
            0 <= i < a.len() && is_link(#[trigger] a[i]) && a[i].identity == Some(key);
        let j = choose|j: int|
            0 <= j < b.len() && is_link(#[trigger] b[j]) && b[j].identity == Some(key);
        assert(a.contains(a[i]) && b.contains(b[j]));
        assert((a + b).contains(a[i]) && (a + b).contains(b[j]));
    }
    if b.len() == 0 {
        assert(a + b =~= a);
        assert(links_of(a).union_prefer_right(links_of(b)) =~= links_of(a));
    } else {
        let head = b.drop_last();
        assert((a + b).drop_last() =~= a + head);
        lemma_head_contains(a + b);
        lemma_part(a + b, a + head);
        lemma_joined(a, head, logical);
        assert((a + b).last() == b.last());
        assert(links_of(a + b) =~= links_of(a).union_prefer_right(links_of(b)));
    }
}

/// The sums of a directory and of one below it hold together what both held.
proof fn lemma_holds_merged(
    parent: AggregateView,
    above: Seq<ObservationView>,
    child: AggregateView,
    below: Seq<ObservationView>,
)
    requires
        holds(parent, above),
        holds(child, below),
        is_measurable(above + below),
        above.len() + below.len() <= u64::MAX,
    ensures
        holds(parent.merged(child), above + below),
{
    let all = above + below;
    lemma_joined(above, below, true);
    lemma_joined(above, below, false);
    lemma_links_of(above);
    lemma_links_of(below);
    lemma_bytes(above, true);
    lemma_bytes(above, false);
    lemma_bytes(below, true);
    lemma_bytes(below, false);
    lemma_bytes(all, true);
    lemma_bytes(all, false);
    let rows = identity::identity_rows(child.shared);
    identity::lemma_identity_rows(child.shared);
    identity::lemma_identity_map(rows);
    assert(above.len() * u64::MAX + below.len() * u64::MAX <= u128::MAX) by (nonlinear_arith)
        requires
            above.len() + below.len() <= u64::MAX,
    ;
    let both = AggregateView {
        logical: parent.logical.merged(child.logical),
        allocated: parent.allocated.merged(child.allocated),
        ..parent
    };
    assert forall|i: int|
        0 <= i < rows.len() && both.shared.contains_key((#[trigger] rows[i]).0) implies
        both.shared[rows[i].0] == rows[i].1 by {
        assert(links_of(below).contains_key(rows[i].0));
        assert(links_of(above).contains_key(rows[i].0));
    }
    lemma_absorbing(both, rows);
    aggregate::hard_links_count_once_in_a_common_parent(
        parent,
        child,
        plain_bytes(above, true),
        plain_bytes(above, false),
        plain_bytes(below, true),
        plain_bytes(below, false),
        rows,
    );
    let sums = parent.merged(child);
    assert(both.logical.reasons =~= Set::<Reason>::empty());
    assert(both.allocated.reasons =~= Set::<Reason>::empty());
    assert(sums.logical =~= (SumView {
        bytes: bytes_of(all, true),
        known: true,
        reasons: Set::empty(),
    }));
    assert(sums.allocated =~= (SumView {
        bytes: bytes_of(all, false),
        known: true,
        reasons: Set::empty(),
    }));
}

/// Runs of entries, one after the other.
spec fn flat(runs: Seq<Seq<ObservationView>>) -> Seq<ObservationView>
    decreases runs.len(),
{
    if runs.len() == 0 {
        Seq::empty()
    } else {
        flat(runs.drop_last()) + runs.last()
    }
}

/// How many directories there are among some entries.
pub open spec fn directory_count(entries: Seq<ObservationView>) -> nat
    decreases entries.len(),
{
    if entries.len() == 0 {
        0
    } else {
        directory_count(entries.drop_last()) + if entries.last().kind == Kind::Directory {
            1nat
        } else {
            0nat
        }
    }
}

/// What lies below each directory that is being read, from the root down, after one more reply: an
/// entry belongs to the directory that is being read, a directory is read next itself, and at its
/// end everything below it belongs to its parent too.
pub open spec fn after_reply(
    below: Seq<Seq<ObservationView>>,
    reply: Reply,
) -> Seq<Seq<ObservationView>> {
    match reply {
        Reply::Entry(entry) => if entry.kind == Kind::Directory {
            below.push(seq![entry])
        } else {
            below.drop_last().push(below.last().push(entry))
        },
        Reply::End => if below.len() >= 2 {
            below.drop_last().drop_last().push(below[below.len() - 2] + below.last())
        } else {
            Seq::empty()
        },
        Reply::Failed(_) => below,
    }
}

/// What lies below each directory that is being read, after some replies.
pub open spec fn after_replies(
    below: Seq<Seq<ObservationView>>,
    replies: Seq<Reply>,
) -> Seq<Seq<ObservationView>>
    decreases replies.len(),
{
    if replies.len() == 0 {
        below
    } else {
        after_reply(after_replies(below, replies.drop_last()), replies.last())
    }
}

/// The entries that some replies brought, behind some others.
pub open spec fn after_entries(entries: Seq<ObservationView>, replies: Seq<Reply>) -> Seq<
    ObservationView,
>
    decreases replies.len(),
{
    if replies.len() == 0 {
        entries
    } else {
        let head = after_entries(entries, replies.drop_last());
        match replies.last() {
            Reply::Entry(entry) => head.push(entry),
            _ => head,
        }
    }
}

/// What a scan met: a round at a time of day, or the end of a quantum, when what is still being read
/// is shown.
pub enum Beat {
    Round { round: Round, at: Seq<char> },
    Show { at: Seq<char> },
}

/// The replies that were heard in some beats.
pub open spec fn replies_in(beats: Seq<Beat>) -> Seq<Reply>
    decreases beats.len(),
{
    if beats.len() == 0 {
        Seq::empty()
    } else {
        let head = replies_in(beats.drop_last());
        match beats.last() {
            Beat::Round { round: Round::Heard { reply, .. }, .. } => head.push(reply),
            _ => head,
        }
    }
}

impl Quantum {
    /// The scan after a beat.
    pub open spec fn beaten(self, beat: Beat) -> Quantum {
        match beat {
            Beat::Round { round, at } => self.after(round, at),
            Beat::Show { at } => self.shown(at),
        }
    }

    /// The scan after some beats.
    pub open spec fn beaten_all(self, beats: Seq<Beat>) -> Quantum
        decreases beats.len(),
    {
        if beats.len() == 0 {
            self
        } else {
            self.beaten_all(beats.drop_last()).beaten(beats.last())
        }
    }

    /// Whether a scan that knows these entries can take in another one as it is. A directory is on
    /// the root's mount, was not met before, has a place in the index, and the directories on the
    /// way down to it and all that were met are within the limits; so are the links.
    pub open spec fn takes_in(
        self,
        root: ObservationView,
        below: Seq<Seq<ObservationView>>,
        known: Seq<ObservationView>,
        entry: ObservationView,
        cost: nat,
    ) -> bool {
        let scan = self.progress.scan;
        if entry.kind == Kind::Directory {
            &&& entry.mount == root.mount
            &&& entry.identity is Some
            &&& forall|i: int|
                0 <= i < known.len() && (#[trigger] known[i]).kind == Kind::Directory
                    ==> known[i].identity != entry.identity
            &&& below.len() < scan.limits.max_open_directories
            &&& (below.len() + 1) * 2048 + (directory_count(known) + 1) * 96
                <= scan.limits.working_bytes
            &&& self.progress.index.register_answer(
                self.pool,
                KeyView {
                    parent_id: Some(scan.stack.last().id),
                    raw_name: entry.raw_name,
                },
                Origin::Background,
                cost,
            ) is Ok
        } else {
            is_link(entry) ==> 160 * (link_count(known) + 1) <= scan.limits.hardlink_bytes
        }
    }

    /// Whether a beat went without a stop, a failure or an obstacle.
    pub open spec fn is_smooth(
        self,
        root: ObservationView,
        below: Seq<Seq<ObservationView>>,
        known: Seq<ObservationView>,
        beat: Beat,
    ) -> bool {
        match beat {
            Beat::Show { .. } => true,
            Beat::Round { round, .. } => {
                &&& self.allows(round)
                &&& match round {
                    Round::Stop => false,
                    Round::Heard { reply, cost, opened, cancelled } => {
                        &&& opened is Ok
                        &&& !cancelled
                        &&& match reply {
                            Reply::Entry(entry) => self.takes_in(root, below, known, entry, cost),
                            Reply::End => true,
                            Reply::Failed(_) => false,
                        }
                    },
                }
            },
        }
    }

    /// Whether all beats went without a stop, a failure or an obstacle.
    pub open spec fn runs_smoothly(self, root: ObservationView, beats: Seq<Beat>) -> bool
        decreases beats.len(),
    {
        beats.len() == 0 || {
            let replies = replies_in(beats.drop_last());
            &&& self.runs_smoothly(root, beats.drop_last())
            &&& self.beaten_all(beats.drop_last()).is_smooth(
                root,
                after_replies(seq![seq![root]], replies),
                after_entries(seq![root], replies),
                beats.last(),
            )
        }
    }

    /// Whether a scan of a root is about to begin: the root was opened and has its place in the
    /// index, and no usage that is known is newer than the scan's.
    pub open spec fn begins_at(self, root: ObservationView) -> bool {
        let scan = self.progress.scan;
        let index = self.progress.index;
        &&& root.kind == Kind::Directory
        &&& scan == ScannerView::begun(
            root,
            scan.root_id,
            scan.limits,
            OpeningView::Opened,
        )
        &&& index.wf()
        &&& index.records.dom().finite()
        &&& index.records.contains_key(scan.root_id)
        &&& index.records[scan.root_id].key.raw_name == root.raw_name
        &&& forall|id: Seq<char>| #[trigger]
            index.records.contains_key(id) ==> index.records[id].usage is None
    }
}

/// A frame holds what lies below its directory, which is the one that the index knows by its id.
spec fn frame_sound(
    progress: Progress,
    below: Seq<Seq<ObservationView>>,
    k: int,
) -> bool {
    let frame = progress.scan.stack[k];
    &&& holds(frame.aggregate, below[k])
    &&& frame.open
    &&& below[k][0].kind == Kind::Directory
    &&& progress.index.records.contains_key(frame.id)
    &&& progress.index.records[frame.id].key.raw_name == below[k][0].raw_name
    &&& k > 0 ==> progress.index.records[frame.id].key.parent_id == Some(
        progress.scan.stack[k - 1].id,
    )
}

/// No usage in the index is newer than the scan's last.
spec fn up_to_date(progress: Progress) -> bool {
    forall|id: Seq<char>| #[trigger]
        progress.index.records.contains_key(id) && progress.index.records[id].usage is Some
            ==> progress.index.records[id].usage->0.usage_revision <= progress.scan.revision
}

/// The directories that were entered are those that are known.
spec fn visits(visited: Set<FileIdentity>, known: Seq<ObservationView>) -> bool {
    &&& visited.finite()
    &&& visited.len() <= directory_count(known)
    &&& forall|key: FileIdentity| #[trigger]
        visited.contains(key) ==> exists|i: int|
            0 <= i < known.len() && (#[trigger] known[i]).kind == Kind::Directory
                && known[i].identity == Some(key)
}

/// A scan that went without a stop, a failure or an obstacle so far.
spec fn sound(
    progress: Progress,
    root: ObservationView,
    below: Seq<Seq<ObservationView>>,
    known: Seq<ObservationView>,
) -> bool {
    let scan = progress.scan;
    &&& scan.stack.len() == below.len()
    &&& forall|k: int| 0 <= k < below.len() ==> #[trigger] frame_sound(progress, below, k)
    &&& below.len() > 0 ==> flat(below) == known
    &&& below.len() > 0 ==> scan.phase is Running && scan.stack[0].id == scan.root_id
    &&& below.len() == 0 ==> scan.phase is Completed
    &&& !scan.root_open_failed
    &&& scan.root_mount == root.mount
    &&& visits(scan.visited, known)
    &&& up_to_date(progress)
    &&& progress.index.wf()
    &&& progress.index.records.dom().finite()
}

proof fn lemma_flat_part(runs: Seq<Seq<ObservationView>>, k: int)
    requires
        0 <= k < runs.len(),
    ensures
        forall|e: ObservationView| #[trigger] runs[k].contains(e) ==> flat(runs).contains(e),
        runs[k].len() <= flat(runs).len(),
    decreases runs.len(),
{
    let head = flat(runs.drop_last());
    let all = flat(runs);
    if k == runs.len() - 1 {
        assert forall|e: ObservationView| #[trigger] runs[k].contains(e) implies all.contains(e) by {
            let i = choose|i: int| 0 <= i < runs[k].len() && runs[k][i] == e;
            assert(all[head.len() + i] == e);
        }
    } else {
        lemma_flat_part(runs.drop_last(), k);
        assert forall|e: ObservationView| #[trigger] runs[k].contains(e) implies all.contains(e) by {
            assert(runs.drop_last()[k].contains(e));
            let i = choose|i: int| 0 <= i < head.len() && head[i] == e;
            assert(all[i] == e);
        }
    }
}

proof fn lemma_flat_replaced(
    runs: Seq<Seq<ObservationView>>,
    last: Seq<ObservationView>,
    more: Seq<ObservationView>,
)
    requires
        runs.len() > 0,
        last == runs.last() + more,
    ensures
        flat(runs.drop_last().push(last)) == flat(runs) + more,
{
    assert(runs.drop_last().push(last).drop_last() =~= runs.drop_last());
    assert(flat(runs.drop_last()) + (runs.last() + more) =~= flat(runs.drop_last()) + runs.last()
        + more);
}

proof fn lemma_flat_merged(runs: Seq<Seq<ObservationView>>)
    requires
        runs.len() >= 2,
    ensures
        flat(runs.drop_last().drop_last().push(runs[runs.len() - 2] + runs.last())) == flat(runs),
        flat(runs) == flat(runs.drop_last().drop_last()) + (runs[runs.len() - 2] + runs.last()),
{
    let rest = runs.drop_last().drop_last();
    let both = runs[runs.len() - 2] + runs.last();
    assert(rest.push(both).drop_last() =~= rest);
    assert(flat(runs.drop_last()) == flat(rest) + runs.drop_last().last());
    assert(flat(rest) + runs[runs.len() - 2] + runs.last() =~= flat(rest) + both);
}

proof fn lemma_count_more(entries: Seq<ObservationView>, entry: ObservationView)
    ensures
        directory_count(entries.push(entry)) == directory_count(entries) + if entry.kind
            == Kind::Directory {
            1nat
        } else {
            0nat
        },
        link_count(entries.push(entry)) == link_count(entries) + if is_link(entry) {
            1nat
        } else {
            0nat
        },
{
    assert(entries.push(entry).drop_last() =~= entries);
}

proof fn lemma_link_count_joined(a: Seq<ObservationView>, b: Seq<ObservationView>)
    ensures
        link_count(a + b) == link_count(a) + link_count(b),
    decreases b.len(),
{
    if b.len() == 0 {
        assert(a + b =~= a);
    } else {
        assert((a + b).drop_last() =~= a + b.drop_last());
        lemma_link_count_joined(a, b.drop_last());
    }
}

/// The frames remember no more files than there are links.
proof fn lemma_shared_count(stack: Seq<FrameView>, below: Seq<Seq<ObservationView>>)
    requires
        stack.len() == below.len(),
        forall|k: int|
            0 <= k < below.len() ==> holds((#[trigger] stack[k]).aggregate, below[k])
                && is_measurable(below[k]),
    ensures
        usage::shared_count(stack) <= link_count(flat(below)),
    decreases stack.len(),
{
    if stack.len() > 0 {
        let rest = stack.drop_last();
        assert forall|k: int| 0 <= k < below.drop_last().len() implies holds(
            (#[trigger] rest[k]).aggregate,
            below.drop_last()[k],
        ) && is_measurable(below.drop_last()[k]) by {
            assert(rest[k] == stack[k]);
        }
        lemma_shared_count(rest, below.drop_last());
        let last = stack.len() - 1;
        assert(holds(stack[last].aggregate, below[last]));
        lemma_links_of(below.last());
        lemma_link_count_joined(flat(below.drop_last()), below.last());
    }
}

/// Whether an index has the same directories as another.
spec fn same_directories(before: IndexView, after: IndexView) -> bool {
    forall|id: Seq<char>| #[trigger]
        before.records.contains_key(id) ==> after.records.contains_key(id)
            && after.records[id].key == before.records[id].key
}

/// What publishing a summary changes.
proof fn lemma_published(progress: Progress, frame: FrameView, running: bool, at: Seq<char>)
    requires
        up_to_date(progress),
        progress.index.wf(),
        progress.index.records.dom().finite(),
        progress.index.records.contains_key(frame.id),
    ensures
        ({
            let after = progress.published(frame, running, at);
            &&& after.index.wf()
            &&& after.index.records.dom().finite()
            &&& after.scan == (ScannerView {
                revision: after.scan.revision,
                unfit: after.scan.unfit,
                ..progress.scan
            })
            &&& same_directories(progress.index, after.index)
            &&& up_to_date(after)
            &&& progress.scan.unfit ==> after.scan.unfit
            &&& progress.scan.revision <= after.scan.revision
            &&& progress.scan.revision < u64::MAX && !after.scan.unfit
                ==> after.index.records[frame.id].usage == Some(
                progress.summary(frame, running, at),
            )
            &&& forall|id: Seq<char>|
                id != frame.id && progress.index.records.contains_key(id) ==> (
                #[trigger] after.index.records[id]) == progress.index.records[id]
        }),
{
    history::lemma_index_call(
        progress.index,
        IndexCall::Measure { usage: progress.summary(frame, running, at) },
    );
}

proof fn lemma_announced(progress: Progress, n: nat, at: Seq<char>)
    requires
        up_to_date(progress),
        progress.index.wf(),
        progress.index.records.dom().finite(),
        n <= progress.scan.stack.len(),
        forall|k: int|
            0 <= k < progress.scan.stack.len() ==> progress.index.records.contains_key(
                (#[trigger] progress.scan.stack[k]).id,
            ),
    ensures
        ({
            let after = progress.announced(n, at);
            &&& after.index.wf()
            &&& after.index.records.dom().finite()
            &&& after.scan == (ScannerView {
                revision: after.scan.revision,
                unfit: after.scan.unfit,
                ..progress.scan
            })
            &&& same_directories(progress.index, after.index)
            &&& up_to_date(after)
            &&& forall|id: Seq<char>|
                progress.index.records.contains_key(id) && (forall|k: int|
                    0 <= k < progress.scan.stack.len() ==> (
                    #[trigger] progress.scan.stack[k]).id != id) ==> (
                #[trigger] after.index.records[id]) == progress.index.records[id]
        }),
    decreases n,
{
    if n > 0 {
        lemma_announced(progress, (n - 1) as nat, at);
        let middle = progress.announced((n - 1) as nat, at);
        assert(progress.index.records.contains_key(progress.scan.stack[n - 1].id));
        lemma_published(middle, progress.scan.stack[n - 1], true, at);
    }
}

/// What is not about the frames, nor about which directories there are, leaves a scan sound.
proof fn lemma_still_sound(
    progress: Progress,
    after: Progress,
    root: ObservationView,
    below: Seq<Seq<ObservationView>>,
    known: Seq<ObservationView>,
)
    requires
        sound(progress, root, below, known),
        after.scan.stack == progress.scan.stack,
        after.scan.phase == progress.scan.phase,
        after.scan.root_open_failed == progress.scan.root_open_failed,
        after.scan.root_mount == progress.scan.root_mount,
        after.scan.root_id == progress.scan.root_id,
        after.scan.visited == progress.scan.visited,
        same_directories(progress.index, after.index),
        up_to_date(after),
        after.index.wf(),
        after.index.records.dom().finite(),
    ensures
        sound(after, root, below, known),
{
    assert forall|k: int| 0 <= k < below.len() implies #[trigger] frame_sound(after, below, k) by {
        assert(frame_sound(progress, below, k));
    }
}

proof fn lemma_show(
    quantum: Quantum,
    root: ObservationView,
    below: Seq<Seq<ObservationView>>,
    known: Seq<ObservationView>,
    at: Seq<char>,
)
    requires
        sound(quantum.progress, root, below, known),
    ensures
        sound(quantum.shown(at).progress, root, below, known),
        quantum.shown(at).progress.scan.root_id == quantum.progress.scan.root_id,
{
    reveal(Quantum::shown);
    let progress = quantum.progress;
    if progress.scan.going() {
        assert forall|k: int| 0 <= k < progress.scan.stack.len() implies
            progress.index.records.contains_key((#[trigger] progress.scan.stack[k]).id) by {
            assert(frame_sound(progress, below, k));
        }
        lemma_announced(progress, progress.scan.stack.len(), at);
        lemma_still_sound(
            progress,
            progress.announced(progress.scan.stack.len(), at),
            root,
            below,
            known,
        );
    }
}

proof fn lemma_measurable_parts(
    below: Seq<Seq<ObservationView>>,
    known: Seq<ObservationView>,
)
    requires
        is_measurable(known),
        below.len() > 0 ==> flat(below) == known,
    ensures
        forall|k: int|
            0 <= k < below.len() ==> is_measurable(#[trigger] below[k]) && below[k].len()
                <= known.len(),
{
    assert forall|k: int| 0 <= k < below.len() implies is_measurable(#[trigger] below[k])
        && below[k].len() <= known.len() by {
        lemma_flat_part(below, k);
        lemma_part(known, below[k]);
    }
}

/// An entry that is no directory.
#[verifier::spinoff_prover]
proof fn lemma_file_reply(
    progress: Progress,
    root: ObservationView,
    below: Seq<Seq<ObservationView>>,
    known: Seq<ObservationView>,
    entry: ObservationView,
    at: Seq<char>,
)
    requires
        sound(progress, root, below, known),
        below.len() > 0,
        entry.kind != Kind::Directory,
        is_link(entry) ==> 160 * (link_count(known) + 1) <= progress.scan.limits.hardlink_bytes,
        is_measurable(known.push(entry)),
        known.len() + 1 <= u64::MAX,
    ensures
        sound(
            progress.with_file(entry, at),
            root,
            after_reply(below, Reply::Entry(entry)),
            known.push(entry),
        ),
        progress.with_file(entry, at).scan.root_id == progress.scan.root_id,
        progress.with_file(entry, at).index == progress.index,
{
    let last = below.len() - 1;
    let next = after_reply(below, Reply::Entry(entry));
    let after = progress.with_file(entry, at);
    let top = progress.scan.stack.last();
    lemma_push_contains(known, entry);
    lemma_part(known.push(entry), known);
    lemma_measurable_parts(below, known);
    assert(frame_sound(progress, below, last));
    assert forall|k: int| 0 <= k < below.len() implies holds(
        (#[trigger] progress.scan.stack[k]).aggregate,
        below[k],
    ) && is_measurable(below[k]) by {
        assert(frame_sound(progress, below, k));
    }
    lemma_shared_count(progress.scan.stack, below);
    assert forall|e: ObservationView| #[trigger]
        below.last().push(entry).contains(e) implies known.push(entry).contains(e) by {
        let more = below.last().push(entry);
        let i = choose|i: int| 0 <= i < more.len() && more[i] == e;
        if i < below.last().len() {
            lemma_flat_part(below, last);
            assert(below.last()[i] == e);
            assert(below[last].contains(e));
            assert(known.contains(e));
        }
    }
    lemma_part(known.push(entry), below.last().push(entry));
    lemma_holds_more(top.aggregate, below.last(), entry);
    lemma_links_of(below.last());
    let room = progress.has_link_room();
    if is_link(entry) {
        assert(room);
    } else {
        assert(top.aggregate.with_file(entry, room) == top.aggregate.with_file(entry, true));
    }
    assert(after.scan.stack =~= progress.scan.stack.drop_last().push(
        FrameView { aggregate: top.aggregate.with_file(entry, true), ..top },
    ));
    assert forall|k: int| 0 <= k < next.len() implies #[trigger] frame_sound(after, next, k) by {
        assert(frame_sound(progress, below, k));
        if k == last {
            assert(next[k] == below.last().push(entry));
            assert(next[k][0] == below[k][0]);
        } else {
            assert(next[k] == below[k]);
            assert(after.scan.stack[k] == progress.scan.stack[k]);
        }
        if k > 0 {
            assert(after.scan.stack[k - 1].id == progress.scan.stack[k - 1].id);
        }
    }
    assert(below.last().push(entry) =~= below.last() + seq![entry]);
    lemma_flat_replaced(below, below.last().push(entry), seq![entry]);
    assert(known.push(entry) =~= known + seq![entry]);
    lemma_visits_more(progress.scan.visited, known, entry);
}

proof fn lemma_visits_more(
    visited: Set<FileIdentity>,
    known: Seq<ObservationView>,
    entry: ObservationView,
)
    requires
        visits(visited, known),
    ensures
        entry.kind != Kind::Directory ==> visits(visited, known.push(entry)),
        entry.kind == Kind::Directory && entry.identity is Some ==> visits(
            visited.insert(entry.identity->0),
            known.push(entry),
        ),
{
    let more = known.push(entry);
    lemma_count_more(known, entry);
    assert forall|key: FileIdentity| #[trigger] visited.contains(key) implies exists|i: int|
        0 <= i < more.len() && (#[trigger] more[i]).kind == Kind::Directory && more[i].identity
            == Some(key) by {
        let i = choose|i: int|
            0 <= i < known.len() && (#[trigger] known[i]).kind == Kind::Directory
                && known[i].identity == Some(key);
        assert(more[i] == known[i]);
    }
    if entry.kind == Kind::Directory && entry.identity is Some {
        let grown = visited.insert(entry.identity->0);
        assert forall|key: FileIdentity| #[trigger] grown.contains(key) implies exists|i: int|
            0 <= i < more.len() && (#[trigger] more[i]).kind == Kind::Directory
                && more[i].identity == Some(key) by {
            if key == entry.identity->0 {
                assert(more[known.len() as int] == entry);
            } else {
                assert(visited.contains(key));
            }
        }
    }
}

/// What registering a directory changes.
proof fn lemma_registered(
    index: IndexView,
    pool: PoolView,
    key: KeyView,
    cost: nat,
)
    requires
        index.wf(),
        index.records.dom().finite(),
        index.register_answer(pool, key, Origin::Background, cost) is Ok,
    ensures
        ({
            let after = index.registered(pool, key, Origin::Background, cost);
            let id = index.register_answer(pool, key, Origin::Background, cost)->Ok_0;
            &&& after.wf()
            &&& after.records.dom().finite()
            &&& same_directories(index, after)
            &&& after.records.contains_key(id)
            &&& after.records[id].key == key
            &&& forall|other: Seq<char>| #[trigger]
                after.records.contains_key(other) && after.records[other].usage is Some
                    ==> index.records.contains_key(other) && after.records[other]
                    == index.records[other]
            &&& forall|other: Seq<char>|
                index.records.contains_key(other) ==> (#[trigger] after.records[other])
                    == index.records[other]
        }),
{
    history::lemma_index_call(
        index,
        IndexCall::Register { pool, key, origin: Origin::Background, cost },
    );
    let after = index.registered(pool, key, Origin::Background, cost);
    if index.registers(pool, key, Origin::Background, cost) {
        index::registering_adds_one_directory(
            index,
            pool,
            key,
            Origin::Background,
            cost,
        );
    } else {
        assert(after == index);
        let id = choose|id: Seq<char>| index.has_key(key, id);
        assert(index.has_key(key, id));
    }
}

/// A directory that is entered.
#[verifier::spinoff_prover]
#[verifier::rlimit(40)]
proof fn lemma_directory_reply(
    quantum: Quantum,
    root: ObservationView,
    below: Seq<Seq<ObservationView>>,
    known: Seq<ObservationView>,
    entry: ObservationView,
    cost: nat,
    opened: Result<(), IssueView>,
    at: Seq<char>,
)
    requires
        sound(quantum.progress, root, below, known),
        below.len() > 0,
        entry.kind == Kind::Directory,
        opened is Ok,
        quantum.takes_in(root, below, known, entry, cost),
        is_measurable(known.push(entry)),
    ensures
        ({
            let after = quantum.heard(Reply::Entry(entry), cost, opened, false, at);
            &&& sound(
                after,
                root,
                after_reply(below, Reply::Entry(entry)),
                known.push(entry),
            )
            &&& after.scan.root_id == quantum.progress.scan.root_id
        }),
{
    let progress = quantum.progress;
    let key = progress.key_below(entry);
    let id = progress.index.register_answer(
        quantum.pool,
        key,
        Origin::Background,
        cost,
    )->Ok_0;
    let next = after_reply(below, Reply::Entry(entry));
    let after = quantum.heard(Reply::Entry(entry), cost, opened, false, at);
    lemma_registered(progress.index, quantum.pool, key, cost);
    assert(!progress.scan.visited.contains(entry.identity->0)) by {
        if progress.scan.visited.contains(entry.identity->0) {
            let i = choose|i: int|
                0 <= i < known.len() && (#[trigger] known[i]).kind == Kind::Directory
                    && known[i].identity == Some(entry.identity->0);
            assert(known[i].identity != entry.identity);
        }
    }
    assert(progress.working() <= progress.scan.limits.working_bytes) by {
        assert((progress.scan.visited.len() + 1) * 96 <= (directory_count(known) + 1) * 96)
            by (nonlinear_arith)
            requires
                progress.scan.visited.len() <= directory_count(known),
        ;
    }
    assert(progress.obstacle(entry) is None);
    assert(progress.wants_open(quantum.pool, entry, cost));
    lemma_push_contains(known, entry);
    assert forall|e: ObservationView| #[trigger]
        seq![entry].contains(e) implies known.push(entry).contains(e) by {
        assert(e == entry);
    }
    lemma_part(known.push(entry), seq![entry]);
    lemma_holds_own(entry);
    assert(after.scan.stack =~= progress.scan.stack.push(
        FrameView { id, open: true, aggregate: AggregateView::zero().with_own(entry) },
    ));
    assert forall|k: int| 0 <= k < next.len() implies #[trigger] frame_sound(after, next, k) by {
        if k < below.len() {
            assert(frame_sound(progress, below, k));
            assert(next[k] == below[k]);
            assert(after.scan.stack[k] == progress.scan.stack[k]);
            if k > 0 {
                assert(after.scan.stack[k - 1] == progress.scan.stack[k - 1]);
            }
        } else {
            assert(next[k] == seq![entry]);
            assert(frame_sound(progress, below, below.len() - 1));
            assert(after.scan.stack[k - 1] == progress.scan.stack.last());
        }
    }
    assert(next.drop_last() =~= below);
    assert(known.push(entry) =~= known + seq![entry]);
    lemma_visits_more(progress.scan.visited, known, entry);
}

/// The end of a directory.
#[verifier::spinoff_prover]
#[verifier::rlimit(40)]
proof fn lemma_end_reply(
    progress: Progress,
    root: ObservationView,
    below: Seq<Seq<ObservationView>>,
    known: Seq<ObservationView>,
    at: Seq<char>,
)
    requires
        sound(progress, root, below, known),
        below.len() > 0,
        is_measurable(known),
        known.len() <= u64::MAX,
    ensures
        ({
            let after = progress.popped(at);
            let id = progress.scan.stack.last().id;
            &&& sound(after, root, after_reply(below, Reply::End), known)
            &&& after.scan.root_id == progress.scan.root_id
            &&& progress.scan.revision < u64::MAX && !after.scan.unfit ==> {
                &&& after.index.records.contains_key(id)
                &&& after.index.records[id].key.raw_name == below.last()[0].raw_name
                &&& after.index.records[id].usage is Some
                &&& after.index.records[id].usage->0 == (UsageView {
                    directory_id: id,
                    usage_revision: (progress.scan.revision + 1) as u64,
                    scan_state: ScanState::Settled,
                    logical: MeasureView::Complete { bytes: bytes_of(below.last(), true) },
                    allocated: MeasureView::Complete { bytes: bytes_of(below.last(), false) },
                    observed_at: at,
                })
            }
        }),
{
    let stack = progress.scan.stack;
    let frame = stack.last();
    let rest = stack.drop_last();
    let after = progress.popped(at);
    let next = after_reply(below, Reply::End);
    let last = below.len() - 1;
    assert(frame_sound(progress, below, last));
    let closed = Progress { scan: ScannerView { stack: rest, ..progress.scan }, ..progress };
    assert(up_to_date(closed));
    lemma_published(closed, frame, false, at);
    let shown = closed.published(frame, false, at);
    if below.len() >= 2 {
        let parent = rest.last();
        assert(frame_sound(progress, below, last - 1));
        lemma_flat_merged(below);
        let both = below[last - 1] + below.last();
        assert forall|e: ObservationView| #[trigger] both.contains(e) implies known.contains(e) by {
            let i = choose|i: int| 0 <= i < both.len() && both[i] == e;
            if i < below[last - 1].len() {
                assert(below[last - 1][i] == e);
                assert(below[last - 1].contains(e));
                lemma_flat_part(below, last - 1);
            } else {
                assert(below[last][i - below[last - 1].len()] == e);
                assert(below[last].contains(e));
                lemma_flat_part(below, last);
            }
        }
        lemma_part(known, both);
        assert(both.len() <= known.len());
        lemma_holds_merged(parent.aggregate, below[last - 1], frame.aggregate, below.last());
        assert(after.scan.stack =~= rest.drop_last().push(
            FrameView { aggregate: parent.aggregate.merged(frame.aggregate), ..parent },
        ));
        assert forall|k: int| 0 <= k < next.len() implies #[trigger] frame_sound(after, next, k) by {
            assert(frame_sound(progress, below, k));
            if k == last - 1 {
                assert(next[k] == both);
                assert(next[k][0] == below[k][0]);
                assert(after.scan.stack[k].id == stack[k].id);
            } else {
                assert(next[k] == below[k]);
                assert(after.scan.stack[k] == stack[k]);
            }
            if k > 0 {
                assert(after.scan.stack[k - 1].id == stack[k - 1].id);
            }
        }
        assert(next.len() == after.scan.stack.len());
    }
    lemma_measured(frame.aggregate.logical);
    lemma_measured(frame.aggregate.allocated);
}

/// A sum without reasons is published as complete.
proof fn lemma_measured(sum: SumView)
    requires
        sum.reasons == Set::<Reason>::empty(),
    ensures
        sum.measured(false) == (MeasureView::Complete { bytes: sum.bytes }),
{
    aggregate::complete_means_without_reasons(sum, false);
    assert(!sum.reasons.contains(Reason::Unsupported));
}

/// What lies below each directory that is being read after some beats of a scan of a root, the
/// directory itself first.
pub open spec fn below_after(root: ObservationView, beats: Seq<Beat>) -> Seq<Seq<ObservationView>> {
    after_replies(seq![seq![root]], replies_in(beats))
}

/// All entries that are known after some beats of a scan of a root, the root first.
pub open spec fn known_after(root: ObservationView, beats: Seq<Beat>) -> Seq<ObservationView> {
    after_entries(seq![root], replies_in(beats))
}

proof fn lemma_replies_head(root: ObservationView, beats: Seq<Beat>)
    requires
        beats.len() > 0,
    ensures
        match beats.last() {
            Beat::Round { round: Round::Heard { reply, .. }, .. } => {
                &&& below_after(root, beats) == after_reply(
                    below_after(root, beats.drop_last()),
                    reply,
                )
                &&& known_after(root, beats) == (match reply {
                    Reply::Entry(entry) => known_after(root, beats.drop_last()).push(entry),
                    _ => known_after(root, beats.drop_last()),
                })
            },
            _ => {
                &&& below_after(root, beats) == below_after(root, beats.drop_last())
                &&& known_after(root, beats) == known_after(root, beats.drop_last())
            },
        },
{
    let head = replies_in(beats.drop_last());
    if let Beat::Round { round: Round::Heard { reply, .. }, .. } = beats.last() {
        assert(head.push(reply).drop_last() =~= head);
    }
}

proof fn lemma_begun(start: Quantum, root: ObservationView)
    requires
        start.begins_at(root),
        is_measurable(seq![root]),
    ensures
        sound(start.progress, root, seq![seq![root]], seq![root]),
{
    let scan = start.progress.scan;
    let below = seq![seq![root]];
    let known = seq![root];
    lemma_holds_own(root);
    assert(scan.stack.len() == 1);
    assert(below.drop_last() =~= Seq::<Seq<ObservationView>>::empty());
    assert(flat(below.drop_last()) =~= Seq::<ObservationView>::empty());
    assert(below.last() == known);
    assert(flat(below) =~= known);
    assert(frame_sound(start.progress, below, 0));
    assert(known.drop_last() =~= Seq::<ObservationView>::empty());
    assert(directory_count(known.drop_last()) == 0);
    assert(directory_count(known) == 1);
    assert(known[0] == root);
}

/// Without a stop, a failure or an obstacle every directory that is being read holds exactly what
/// was met below it.
#[verifier::spinoff_prover]
proof fn lemma_smooth(start: Quantum, root: ObservationView, beats: Seq<Beat>)
    requires
        start.begins_at(root),
        start.runs_smoothly(root, beats),
        is_measurable(known_after(root, beats)),
        known_after(root, beats).len() <= u64::MAX,
    ensures
        sound(
            start.beaten_all(beats).progress,
            root,
            below_after(root, beats),
            known_after(root, beats),
        ),
        start.beaten_all(beats).progress.scan.root_id == start.progress.scan.root_id,
    decreases beats.len(),
{
    if beats.len() == 0 {
        assert(known_after(root, beats) == seq![root]);
        assert(below_after(root, beats) == seq![seq![root]]);
        lemma_begun(start, root);
    } else {
        let head = beats.drop_last();
        let now = start.beaten_all(head);
        let below = below_after(root, head);
        let known = known_after(root, head);
        lemma_replies_head(root, beats);
        assert forall|e: ObservationView| #[trigger] known.contains(e) implies known_after(
            root,
            beats,
        ).contains(e) by {
            if let Beat::Round { round: Round::Heard { reply: Reply::Entry(entry), .. }, .. } =
                beats.last() {
                lemma_push_contains(known, entry);
            }
        }
        lemma_part(known_after(root, beats), known);
        lemma_smooth(start, root, head);
        match beats.last() {
            Beat::Show { at } => {
                lemma_show(now, root, below, known, at);
            },
            Beat::Round { round, at } => {
                reveal(Quantum::after);
                if let Round::Heard { reply, cost, opened, cancelled } = round {
                    assert(below.len() > 0);
                    match reply {
                        Reply::Entry(entry) => {
                            if entry.kind == Kind::Directory {
                                lemma_directory_reply(
                                    now,
                                    root,
                                    below,
                                    known,
                                    entry,
                                    cost,
                                    opened,
                                    at,
                                );
                            } else {
                                lemma_file_reply(now.progress, root, below, known, entry, at);
                            }
                        },
                        Reply::End => {
                            lemma_end_reply(now.progress, root, below, known, at);
                        },
                        Reply::Failed(_) => {},
                    }
                }
            },
        }
    }
}

/// The usage of a directory is the sum over everything that lies below it. In a scan that meets no
/// stop, no failure and no obstacle, whatever the sizes and however deep the directory, the end of
/// the directory publishes it as settled and complete: with the directory's own bytes and those of
/// every entry that was met below it, at any depth, in which the links to one file count once. The
/// directory is the one that the index knows by the name that was met. The summary has to fit its
/// room, and there has to be another revision.
#[verifier::spinoff_prover]
#[verifier::rlimit(40)]
pub proof fn a_directory_is_the_sum_of_what_lies_below(
    start: Quantum,
    root: ObservationView,
    beats: Seq<Beat>,
    cost: nat,
    opened: Result<(), IssueView>,
    cancelled: bool,
    at: Seq<char>,
)
    requires
        start.begins_at(root),
        start.runs_smoothly(root, beats),
        is_measurable(known_after(root, beats)),
        known_after(root, beats).len() <= u64::MAX,
        ({
            let now = start.beaten_all(beats);
            let end = Round::Heard { reply: Reply::End, cost, opened, cancelled };
            &&& now.allows(end)
            &&& now.progress.scan.revision < u64::MAX
            &&& !now.after(end, at).progress.scan.unfit
        }),
    ensures
        ({
            let now = start.beaten_all(beats);
            let end = Round::Heard { reply: Reply::End, cost, opened, cancelled };
            let after = now.after(end, at);
            let below = below_after(root, beats).last();
            let id = now.progress.scan.stack.last().id;
            let record = after.progress.index.records[id];
            &&& after.progress.index.records.contains_key(id)
            &&& record.key.raw_name == below[0].raw_name
            &&& record.usage is Some
            &&& record.usage->0.directory_id == id
            &&& record.usage->0.scan_state is Settled
            &&& record.usage->0.logical == (MeasureView::Complete { bytes: bytes_of(below, true) })
            &&& record.usage->0.allocated == (MeasureView::Complete {
                bytes: bytes_of(below, false),
            })
            &&& record.usage->0.observed_at == at
            &&& below_after(root, beats).len() == 1 ==> {
                &&& after.progress.scan.phase is Completed
                &&& id == start.progress.scan.root_id
                &&& below == known_after(root, beats)
            }
        }),
{
    let now = start.beaten_all(beats);
    let below = below_after(root, beats);
    let known = known_after(root, beats);
    lemma_smooth(start, root, beats);
    lemma_after_end(now, cost, opened, cancelled, at);
    lemma_end_reply(now.progress, root, below, known, at);
    if below.len() == 1 {
        lemma_flat_one(below);
    }
}

proof fn lemma_after_end(
    now: Quantum,
    cost: nat,
    opened: Result<(), IssueView>,
    cancelled: bool,
    at: Seq<char>,
)
    ensures
        now.after(
            Round::Heard { reply: Reply::End, cost, opened, cancelled },
            at,
        ).progress == now.progress.popped(at),
{
    reveal(Quantum::after);
}

proof fn lemma_flat_one(runs: Seq<Seq<ObservationView>>)
    requires
        runs.len() == 1,
    ensures
        flat(runs) == runs[0],
{
    assert(runs.drop_last() =~= Seq::<Seq<ObservationView>>::empty());
    assert(flat(runs.drop_last()) =~= Seq::<ObservationView>::empty());
    assert(flat(runs) =~= runs[0]);
}

/// A directory tree: an entry, and what lies below it where it is a directory.
pub enum Tree {
    Leaf { entry: ObservationView },
    Branch { entry: ObservationView, children: Seq<Tree> },
}

/// Everything in a tree, the entry itself first.
pub open spec fn entries_of(tree: Tree) -> Seq<ObservationView>
    decreases tree, 0nat,
{
    match tree {
        Tree::Leaf { entry } => seq![entry],
        Tree::Branch { entry, children } => seq![entry] + entries_of_first(children, children.len()),
    }
}

/// Everything in the first `n` of some trees.
pub open spec fn entries_of_first(trees: Seq<Tree>, n: nat) -> Seq<ObservationView>
    decreases trees, n,
{
    if n == 0 || n > trees.len() {
        Seq::empty()
    } else {
        entries_of_first(trees, (n - 1) as nat) + entries_of(trees[n - 1])
    }
}

/// What a source replies that is asked for a tree: the entry, and for a directory then what lies
/// below it and the end.
pub open spec fn replies_for(tree: Tree) -> Seq<Reply>
    decreases tree, 0nat,
{
    match tree {
        Tree::Leaf { entry } => seq![Reply::Entry(entry)],
        Tree::Branch { entry, children } => seq![Reply::Entry(entry)] + replies_for_first(
            children,
            children.len(),
        ) + seq![Reply::End],
    }
}

/// What a source replies that is asked for the first `n` of some trees.
pub open spec fn replies_for_first(trees: Seq<Tree>, n: nat) -> Seq<Reply>
    decreases trees, n,
{
    if n == 0 || n > trees.len() {
        Seq::empty()
    } else {
        replies_for_first(trees, (n - 1) as nat) + replies_for(trees[n - 1])
    }
}

/// Whether directories are branches and nothing else is.
pub open spec fn is_tree(tree: Tree) -> bool
    decreases tree, 0nat,
{
    match tree {
        Tree::Leaf { entry } => entry.kind != Kind::Directory,
        Tree::Branch { entry, children } => entry.kind == Kind::Directory && are_trees(
            children,
            children.len(),
        ),
    }
}

/// Whether in the first `n` of some trees directories are branches and nothing else is.
pub open spec fn are_trees(trees: Seq<Tree>, n: nat) -> bool
    decreases trees, n,
{
    n == 0 || n <= trees.len() && are_trees(trees, (n - 1) as nat) && is_tree(trees[n - 1])
}

proof fn lemma_replies_join(below: Seq<Seq<ObservationView>>, a: Seq<Reply>, b: Seq<Reply>)
    ensures
        after_replies(below, a + b) == after_replies(after_replies(below, a), b),
    decreases b.len(),
{
    if b.len() == 0 {
        assert(a + b =~= a);
    } else {
        assert((a + b).drop_last() =~= a + b.drop_last());
        lemma_replies_join(below, a, b.drop_last());
    }
}

proof fn lemma_one_reply(below: Seq<Seq<ObservationView>>, reply: Reply)
    ensures
        after_replies(below, seq![reply]) == after_reply(below, reply),
{
    assert(seq![reply].drop_last() =~= Seq::<Reply>::empty());
    assert(after_replies(below, Seq::<Reply>::empty()) == below);
}

/// The replies for a tree put everything in it below the directory that is being read.
proof fn lemma_tree_replies(below: Seq<Seq<ObservationView>>, tree: Tree)
    requires
        below.len() > 0,
        is_tree(tree),
    ensures
        after_replies(below, replies_for(tree)) == below.drop_last().push(
            below.last() + entries_of(tree),
        ),
    decreases tree, 0nat,
{
    match tree {
        Tree::Leaf { entry } => {
            lemma_one_reply(below, Reply::Entry(entry));
            assert(below.last().push(entry) =~= below.last() + entries_of(tree));
        },
        Tree::Branch { entry, children } => {
            let first = seq![Reply::Entry(entry)];
            let inner = replies_for_first(children, children.len());
            let opened = below.push(seq![entry]);
            lemma_replies_join(below, first + inner, seq![Reply::End]);
            lemma_replies_join(below, first, inner);
            lemma_one_reply(below, Reply::Entry(entry));
            lemma_trees_replies(opened, children, children.len());
            let full = opened.drop_last().push(opened.last() + entries_of_first(
                children,
                children.len(),
            ));
            lemma_one_reply(full, Reply::End);
            assert(opened.drop_last() =~= below);
            assert(full.drop_last() =~= below);
            assert(full[full.len() - 2] == below.last());
        },
    }
}

proof fn lemma_trees_replies(below: Seq<Seq<ObservationView>>, trees: Seq<Tree>, n: nat)
    requires
        below.len() > 0,
        n <= trees.len(),
        are_trees(trees, n),
    ensures
        after_replies(below, replies_for_first(trees, n)) == below.drop_last().push(
            below.last() + entries_of_first(trees, n),
        ),
    decreases trees, n,
{
    if n == 0 {
        assert(after_replies(below, Seq::<Reply>::empty()) == below);
        assert(below.last() + Seq::<ObservationView>::empty() =~= below.last());
        assert(below.drop_last().push(below.last()) =~= below);
    } else {
        let head = replies_for_first(trees, (n - 1) as nat);
        lemma_trees_replies(below, trees, (n - 1) as nat);
        let middle = below.drop_last().push(
            below.last() + entries_of_first(trees, (n - 1) as nat),
        );
        lemma_replies_join(below, head, replies_for(trees[n - 1]));
        lemma_tree_replies(middle, trees[n - 1]);
        assert(middle.drop_last() =~= below.drop_last());
        assert(middle.last() + entries_of(trees[n - 1]) =~= below.last() + entries_of_first(
            trees,
            n,
        ));
    }
}

/// A scan measures a whole tree. Where a source gives what lies in a tree, without a stop, a failure
/// or an obstacle, the usage that is published for the root at its end is complete, and it is the
/// sum over everything in the tree, at any depth, in which the links to one file count once.
pub proof fn a_scan_measures_the_whole_tree(
    start: Quantum,
    root: ObservationView,
    children: Seq<Tree>,
    beats: Seq<Beat>,
    cost: nat,
    opened: Result<(), IssueView>,
    cancelled: bool,
    at: Seq<char>,
)
    requires
        is_tree(Tree::Branch { entry: root, children }),
        replies_in(beats) == replies_for_first(children, children.len()),
        start.begins_at(root),
        start.runs_smoothly(root, beats),
        is_measurable(known_after(root, beats)),
        known_after(root, beats).len() <= u64::MAX,
        ({
            let now = start.beaten_all(beats);
            let end = Round::Heard { reply: Reply::End, cost, opened, cancelled };
            &&& now.allows(end)
            &&& now.progress.scan.revision < u64::MAX
            &&& !now.after(end, at).progress.scan.unfit
        }),
    ensures
        ({
            let now = start.beaten_all(beats);
            let end = Round::Heard { reply: Reply::End, cost, opened, cancelled };
            let after = now.after(end, at);
            let all = entries_of(Tree::Branch { entry: root, children });
            let usage = after.progress.index.records[start.progress.scan.root_id].usage;
            &&& after.progress.scan.phase is Completed
            &&& usage is Some
            &&& usage->0.scan_state is Settled
            &&& usage->0.logical == (MeasureView::Complete { bytes: bytes_of(all, true) })
            &&& usage->0.allocated == (MeasureView::Complete { bytes: bytes_of(all, false) })
        }),
{
    let first = seq![seq![root]];
    lemma_trees_replies(first, children, children.len());
    assert(first.drop_last() =~= Seq::<Seq<ObservationView>>::empty());
    assert(below_after(root, beats).len() == 1);
    a_directory_is_the_sum_of_what_lies_below(start, root, beats, cost, opened, cancelled, at);
}

/// A scan measures every directory of a tree. When everything below a directory was given behind
/// whatever came before, the end of the directory publishes the sum over the directory and all
/// that lies below it, at any depth, in which the links to one file count once.
pub proof fn a_scan_measures_every_directory(
    start: Quantum,
    root: ObservationView,
    before: Seq<Reply>,
    directory: ObservationView,
    children: Seq<Tree>,
    beats: Seq<Beat>,
    cost: nat,
    opened: Result<(), IssueView>,
    cancelled: bool,
    at: Seq<char>,
)
    requires
        is_tree(Tree::Branch { entry: directory, children }),
        replies_in(beats) == before + (seq![Reply::Entry(directory)] + replies_for_first(
            children,
            children.len(),
        )),
        start.begins_at(root),
        start.runs_smoothly(root, beats),
        is_measurable(known_after(root, beats)),
        known_after(root, beats).len() <= u64::MAX,
        ({
            let now = start.beaten_all(beats);
            let end = Round::Heard { reply: Reply::End, cost, opened, cancelled };
            &&& now.allows(end)
            &&& now.progress.scan.revision < u64::MAX
            &&& !now.after(end, at).progress.scan.unfit
        }),
    ensures
        ({
            let now = start.beaten_all(beats);
            let end = Round::Heard { reply: Reply::End, cost, opened, cancelled };
            let after = now.after(end, at);
            let all = entries_of(Tree::Branch { entry: directory, children });
            let id = now.progress.scan.stack.last().id;
            let record = after.progress.index.records[id];
            &&& record.key.raw_name == directory.raw_name
            &&& record.usage is Some
            &&& record.usage->0.scan_state is Settled
            &&& record.usage->0.logical == (MeasureView::Complete { bytes: bytes_of(all, true) })
            &&& record.usage->0.allocated == (MeasureView::Complete {
                bytes: bytes_of(all, false),
            })
        }),
{
    let first = seq![seq![root]];
    let known = after_replies(first, before);
    let inner = replies_for_first(children, children.len());
    lemma_replies_join(first, before, seq![Reply::Entry(directory)] + inner);
    lemma_replies_join(known, seq![Reply::Entry(directory)], inner);
    lemma_one_reply(known, Reply::Entry(directory));
    let entered = known.push(seq![directory]);
    lemma_trees_replies(entered, children, children.len());
    assert(below_after(root, beats).last() == entries_of(
        Tree::Branch { entry: directory, children },
    ));
    assert(below_after(root, beats).last()[0] == directory);
    a_directory_is_the_sum_of_what_lies_below(start, root, beats, cost, opened, cancelled, at);
}

/// A usage that was published stays: as long as its directory is neither being read nor met again,
/// no round and no end of a quantum changes it.
#[verifier::spinoff_prover]
#[verifier::rlimit(40)]
pub proof fn a_settled_usage_stays(
    quantum: Quantum,
    reply: Reply,
    cost: nat,
    opened: Result<(), IssueView>,
    cancelled: bool,
    at: Seq<char>,
    id: Seq<char>,
)
    requires
        quantum.progress.index.wf(),
        quantum.progress.index.records.dom().finite(),
        quantum.progress.index.records.contains_key(id),
        quantum.progress.scan.on(quantum.progress.index),
        quantum.progress.scan.stack.len() > 0,
        forall|k: int|
            0 <= k < quantum.progress.scan.stack.len() ==> (
            #[trigger] quantum.progress.scan.stack[k]).id != id,
        reply matches Reply::Entry(entry) ==> {
            &&& quantum.progress.index.register_answer(
                quantum.pool,
                quantum.progress.key_below(entry),
                Origin::Background,
                cost,
            ) is Ok
            &&& quantum.progress.index.register_answer(
                quantum.pool,
                quantum.progress.key_below(entry),
                Origin::Background,
                cost,
            )->Ok_0 != id
            &&& !is_link(entry)
        },
    ensures
        quantum.after(
            Round::Heard { reply, cost, opened, cancelled },
            at,
        ).progress.index.records[id].usage == quantum.progress.index.records[id].usage,
        quantum.shown(at).progress.index.records[id].usage
            == quantum.progress.index.records[id].usage,
{
    reveal(Quantum::after);
    reveal(Quantum::shown);
    let progress = quantum.progress;
    lemma_announced_stays(progress, progress.scan.stack.len(), at, id);
    if let Reply::Entry(entry) = reply {
        if entry.kind == Kind::Directory {
            lemma_registered(progress.index, quantum.pool, progress.key_below(entry), cost);
        } else {
            assert(progress.with_file(entry, at).index == progress.index);
        }
    }
}

proof fn lemma_announced_stays(progress: Progress, n: nat, at: Seq<char>, id: Seq<char>)
    requires
        n <= progress.scan.stack.len(),
        progress.index.records.contains_key(id),
        forall|k: int|
            0 <= k < progress.scan.stack.len() ==> (#[trigger] progress.scan.stack[k]).id != id,
    ensures
        progress.announced(n, at).index.records[id] == progress.index.records[id],
    decreases n,
{
    if n > 0 {
        lemma_announced_stays(progress, (n - 1) as nat, at, id);
        assert(progress.scan.stack[n - 1].id != id);
    }
}

/// The reason that a failure of a source is known by.
pub open spec fn reason_for(code: Seq<char>) -> Reason {
    if code == "RESOURCE_LIMIT"@ {
        Reason::ResourceLimit
    } else {
        Reason::ReadError
    }
}

/// Whether both sums of a directory give a reason why they may be too small.
pub open spec fn gives(sums: AggregateView, reason: Reason) -> bool {
    sums.logical.reasons.contains(reason) && sums.allocated.reasons.contains(reason)
}

/// Whether a measurement gives a reason why it is not complete.
pub open spec fn names(measure: MeasureView, reason: Reason) -> bool {
    match measure {
        MeasureView::Partial { reasons, .. } => reasons.contains(reason),
        MeasureView::Unavailable { reason: only } => only == reason,
        _ => false,
    }
}

/// Whether one sum gives all reasons that another gives.
spec fn covers(after: AggregateView, before: AggregateView) -> bool {
    &&& before.logical.reasons.subset_of(after.logical.reasons)
    &&& before.allocated.reasons.subset_of(after.allocated.reasons)
}

proof fn lemma_reconciled_covers(sum: SumView, previous: Metric, current: Metric)
    ensures
        sum.reasons.subset_of(sum.reconciled(previous, current).reasons),
{
}

proof fn lemma_absorbing_covers(sums: AggregateView, rows: Seq<(FileIdentity, SharedSize)>)
    ensures
        covers(sums.absorbing(rows), sums),
    decreases rows.len(),
{
    if rows.len() > 0 {
        lemma_absorbing_covers(sums, rows.drop_last());
        let before = sums.absorbing(rows.drop_last());
        let last = rows.last();
        if before.shared.contains_key(last.0) {
            let known = before.shared[last.0];
            lemma_reconciled_covers(
                before.logical.minus(last.1.logical.value()),
                known.logical,
                last.1.logical,
            );
            lemma_reconciled_covers(
                before.allocated.minus(last.1.allocated.value()),
                known.allocated,
                last.1.allocated,
            );
        }
    }
}

proof fn lemma_merged_covers(parent: AggregateView, child: AggregateView)
    ensures
        covers(parent.merged(child), parent),
        covers(parent.merged(child), child),
{
    let both = AggregateView {
        logical: parent.logical.merged(child.logical),
        allocated: parent.allocated.merged(child.allocated),
        ..parent
    };
    lemma_absorbing_covers(both, identity::identity_rows(child.shared));
}

proof fn lemma_file_covers(sums: AggregateView, entry: ObservationView, room: bool)
    ensures
        covers(sums.with_file(entry, room), sums),
{
    if entry.link_count > 1 && entry.identity is Some && sums.shared.contains_key(
        entry.identity->0,
    ) {
        let known = sums.shared[entry.identity->0];
        lemma_reconciled_covers(sums.logical, known.logical, entry.logical);
        lemma_reconciled_covers(sums.allocated, known.allocated, entry.allocated);
    }
}

/// A sum that gives a reason is never published as complete: it names the reason.
pub proof fn a_reason_is_named(sum: SumView, reason: Reason, running: bool)
    requires
        sum.reasons.contains(reason),
    ensures
        names(sum.measured(running), reason),
        sum.measured(running) is Partial ==> sum.measured(running)->observed_bytes == sum.bytes,
{
    let reasons = if running {
        sum.reasons.insert(Reason::Scanning)
    } else {
        sum.reasons
    };
    aggregate::lemma_ordered(reasons);
    assert(reasons.contains(reason));
    if reasons == Set::<Reason>::empty().insert(Reason::Unsupported) {
        assert(reason == Reason::Unsupported);
    }
    assert(reasons != Set::<Reason>::empty());
    assert(aggregate::ordered(reasons).contains(reason));
}

/// What is still being read is shown as running: its sums so far, and that they are not complete
/// because the scan goes on.
pub proof fn what_is_being_read_is_not_complete(
    progress: Progress,
    frame: FrameView,
    at: Seq<char>,
)
    ensures
        ({
            let shown = progress.summary(frame, true, at);
            &&& shown.directory_id == frame.id
            &&& shown.scan_state is Running
            &&& shown.logical is Partial
            &&& shown.logical->observed_bytes == frame.aggregate.logical.bytes
            &&& shown.logical->reasons.contains(Reason::Scanning)
            &&& shown.allocated is Partial
            &&& shown.allocated->observed_bytes == frame.aggregate.allocated.bytes
            &&& shown.allocated->reasons.contains(Reason::Scanning)
        }),
{
    let logical = frame.aggregate.logical.reasons.insert(Reason::Scanning);
    let allocated = frame.aggregate.allocated.reasons.insert(Reason::Scanning);
    aggregate::lemma_ordered(logical);
    aggregate::lemma_ordered(allocated);
    assert(logical.contains(Reason::Scanning));
    assert(allocated.contains(Reason::Scanning));
    assert(aggregate::ordered(logical).contains(Reason::Scanning));
    assert(aggregate::ordered(allocated).contains(Reason::Scanning));
}

/// A failure of the source is said of the directory that was being read, in both sums; its bytes so
/// far stay, it is not read on, and nothing else changes.
pub proof fn a_failure_is_said(
    quantum: Quantum,
    issue: IssueView,
    cost: nat,
    opened: Result<(), IssueView>,
    cancelled: bool,
    at: Seq<char>,
)
    requires
        quantum.progress.scan.stack.len() > 0,
    ensures
        ({
            let round = Round::Heard { reply: Reply::Failed(issue), cost, opened, cancelled };
            let after = quantum.after(round, at).progress;
            let before = quantum.progress.scan.stack;
            let top = after.scan.stack.last();
            &&& after.scan.stack.len() == before.len()
            &&& after.scan.stack.drop_last() == before.drop_last()
            &&& gives(top.aggregate, reason_for(issue.code))
            &&& !top.open
            &&& top.id == before.last().id
            &&& top.aggregate.logical.bytes == before.last().aggregate.logical.bytes
            &&& top.aggregate.allocated.bytes == before.last().aggregate.allocated.bytes
            &&& after.index == quantum.progress.index
            &&& after.scan.phase == quantum.progress.scan.phase
        }),
{
    reveal(Quantum::after);
    let stack = quantum.progress.scan.stack;
    let top = stack.last();
    let next = FrameView {
        open: false,
        aggregate: top.aggregate.because(reason_for(issue.code)),
        ..top
    };
    assert(stack.drop_last().push(next).drop_last() =~= stack.drop_last());
}

/// A size that could not be read is said: the sum that lacks it gives the reason and keeps its
/// bytes, and a file that is linked elsewhere without telling its identity is left out and said so.
pub proof fn an_unknown_size_is_said(sums: AggregateView, entry: ObservationView, room: bool)
    ensures
        ({
            let after = sums.with_file(entry, room);
            &&& entry.link_count <= 1 && entry.logical is Error ==> after.logical.reasons.contains(
                Reason::ReadError,
            ) && after.logical.bytes == sums.logical.bytes
            &&& entry.link_count <= 1 && entry.logical is Unsupported
                ==> after.logical.reasons.contains(Reason::Unsupported) && after.logical.bytes
                == sums.logical.bytes
            &&& entry.link_count <= 1 && entry.allocated is Error
                ==> after.allocated.reasons.contains(Reason::ReadError) && after.allocated.bytes
                == sums.allocated.bytes
            &&& entry.link_count <= 1 && entry.allocated is Unsupported
                ==> after.allocated.reasons.contains(Reason::Unsupported) && after.allocated.bytes
                == sums.allocated.bytes
            &&& entry.link_count > 1 && entry.identity is None ==> gives(
                after,
                Reason::Unsupported,
            ) && after.logical.bytes == sums.logical.bytes && after.allocated.bytes
                == sums.allocated.bytes
        }),
{
}

/// A directory that is not entered is said: one on another mount or one that was entered before is
/// excluded by policy, one that is too deep or for which there is no room is left out for want of
/// resources, and one that tells no identity is unsupported. It is published at once with its own
/// bytes and the reason, and the directory that was being read gives the reason too; nothing below
/// it is read.
#[verifier::spinoff_prover]
#[verifier::rlimit(40)]
pub proof fn a_directory_left_out_is_said(
    quantum: Quantum,
    entry: ObservationView,
    cost: nat,
    opened: Result<(), IssueView>,
    cancelled: bool,
    at: Seq<char>,
    reason: Reason,
)
    requires
        quantum.progress.scan.stack.len() > 0,
        entry.kind == Kind::Directory,
        quantum.progress.index.register_answer(
            quantum.pool,
            KeyView {
                parent_id: Some(quantum.progress.scan.stack.last().id),
                raw_name: entry.raw_name,
            },
            Origin::Background,
            cost,
        ) is Ok,
        ({
            let scan = quantum.progress.scan;
            let excluded = entry.mount != scan.root_mount || entry.identity is Some
                && scan.visited.contains(entry.identity->0);
            let full = scan.stack.len() >= scan.limits.max_open_directories || (scan.stack.len()
                + 1) * 2048 + (scan.visited.len() + 1) * 96 > scan.limits.working_bytes;
            ||| excluded && reason == Reason::ExcludedByPolicy
            ||| !excluded && full && reason == Reason::ResourceLimit
            ||| !excluded && !full && entry.identity is None && reason == Reason::Unsupported
        }),
    ensures
        ({
            let round = Round::Heard { reply: Reply::Entry(entry), cost, opened, cancelled };
            let after = quantum.after(round, at).progress;
            let before = quantum.progress.scan.stack;
            let id = quantum.progress.index.register_answer(
                quantum.pool,
                KeyView { parent_id: Some(before.last().id), raw_name: entry.raw_name },
                Origin::Background,
                cost,
            )->Ok_0;
            let known = quantum.progress.index.registered(
                quantum.pool,
                KeyView { parent_id: Some(before.last().id), raw_name: entry.raw_name },
                Origin::Background,
                cost,
            );
            &&& after.scan.stack.len() == before.len()
            &&& after.scan.stack.drop_last() == before.drop_last()
            &&& after.scan.stack.last().id == before.last().id
            &&& gives(after.scan.stack.last().aggregate, reason)
            &&& after.scan.visited == quantum.progress.scan.visited
            &&& exists|usage: UsageView|
                {
                    &&& after.index == #[trigger] known.with_usage(usage)
                    &&& usage.directory_id == id
                    &&& names(usage.logical, reason)
                    &&& names(usage.allocated, reason)
                    &&& usage.observed_at == at
                }
        }),
{
    reveal(Quantum::after);
    let progress = quantum.progress;
    let stack = progress.scan.stack;
    assert(progress.obstacle(entry) == Some(reason));
    let id = progress.index.register_answer(
        quantum.pool,
        progress.key_below(entry),
        Origin::Background,
        cost,
    )->Ok_0;
    let own = AggregateView::zero().with_own(entry).because(reason);
    let frame = FrameView { id, open: false, aggregate: own };
    a_reason_is_named(own.logical, reason, false);
    a_reason_is_named(own.allocated, reason, false);
    lemma_merged_covers(stack.last().aggregate, own);
    let known = Progress {
        index: progress.index.registered(
            quantum.pool,
            progress.key_below(entry),
            Origin::Background,
            cost,
        ),
        ..progress.counted()
    };
    let usage = known.summary(frame, false, at);
    let round = Round::Heard { reply: Reply::Entry(entry), cost, opened, cancelled };
    let after = quantum.after(round, at).progress;
    assert(after.index == known.index.with_usage(usage));
    assert(after.scan.stack.drop_last() =~= stack.drop_last());
}

/// What is wrong below a directory is wrong with the directory: at the end of a directory that gives
/// a reason its usage names the reason, and so does its parent from then on. What was wrong with the
/// parent stays so.
#[verifier::spinoff_prover]
pub proof fn a_reason_goes_to_the_parent(progress: Progress, at: Seq<char>, reason: Reason)
    requires
        progress.scan.stack.len() > 0,
    ensures
        ({
            let after = progress.popped(at);
            let frame = progress.scan.stack.last();
            let n = progress.scan.stack.len() - 2;
            &&& frame.aggregate.logical.reasons.contains(reason) ==> names(
                progress.summary(frame, false, at).logical,
                reason,
            )
            &&& frame.aggregate.allocated.reasons.contains(reason) ==> names(
                progress.summary(frame, false, at).allocated,
                reason,
            )
            &&& after.index == progress.index.with_usage(
                Progress {
                    scan: ScannerView {
                        stack: progress.scan.stack.drop_last(),
                        ..progress.scan
                    },
                    ..progress
                }.summary(frame, false, at),
            )
            &&& n >= 0 ==> {
                &&& after.scan.stack.len() == n + 1
                &&& covers_open(after.scan.stack[n].aggregate, frame.aggregate)
                &&& covers_open(
                    after.scan.stack[n].aggregate,
                    progress.scan.stack[n].aggregate,
                )
                &&& forall|k: int|
                    0 <= k < n ==> #[trigger] after.scan.stack[k] == progress.scan.stack[k]
            }
        }),
{
    let frame = progress.scan.stack.last();
    if frame.aggregate.logical.reasons.contains(reason) {
        a_reason_is_named(frame.aggregate.logical, reason, false);
    }
    if frame.aggregate.allocated.reasons.contains(reason) {
        a_reason_is_named(frame.aggregate.allocated, reason, false);
    }
    if progress.scan.stack.len() >= 2 {
        lemma_merged_covers(
            progress.scan.stack[progress.scan.stack.len() - 2].aggregate,
            frame.aggregate,
        );
    }
}

/// Whether some sums give every reason that others give.
pub open spec fn covers_open(after: AggregateView, before: AggregateView) -> bool {
    &&& forall|reason: Reason| #[trigger]
        before.logical.reasons.contains(reason) ==> after.logical.reasons.contains(reason)
    &&& forall|reason: Reason| #[trigger]
        before.allocated.reasons.contains(reason) ==> after.allocated.reasons.contains(reason)
}

/// Whether some directory that is being read gives a reason.
pub open spec fn is_said(stack: Seq<FrameView>, reason: Reason) -> bool {
    exists|k: int| 0 <= k < stack.len() && gives((#[trigger] stack[k]).aggregate, reason)
}

/// What went wrong is never forgotten: once a directory that is being read gives a reason, some
/// directory that is being read gives it until the scan is over, whatever is met.
#[verifier::spinoff_prover]
#[verifier::rlimit(40)]
pub proof fn a_reason_is_never_forgotten(
    quantum: Quantum,
    round: Round,
    at: Seq<char>,
    reason: Reason,
)
    requires
        quantum.progress.scan.stack.len() > 0,
        is_said(quantum.progress.scan.stack, reason),
    ensures
        quantum.after(round, at).progress.scan.stack.len() > 0 ==> is_said(
            quantum.after(round, at).progress.scan.stack,
            reason,
        ),
{
    reveal(Quantum::after);
    let progress = quantum.progress;
    let stack = progress.scan.stack;
    let k = choose|k: int| 0 <= k < stack.len() && gives((#[trigger] stack[k]).aggregate, reason);
    let after = quantum.after(round, at).progress.scan.stack;
    match round {
        Round::Stop => {
            usage::stopping_leaves_nothing(progress, Reason::Cancelled, at);
        },
        Round::Heard { reply, cost, opened, cancelled } => match reply {
            Reply::End => {
                a_reason_goes_to_the_parent(progress, at, reason);
                if after.len() > 0 {
                    let n = stack.len() - 2;
                    if k < n {
                        assert(after[k] == stack[k]);
                    } else {
                        assert(gives(after[n].aggregate, reason));
                    }
                }
            },
            Reply::Failed(issue) => {
                if k < stack.len() - 1 {
                    assert(after[k] == stack[k]);
                } else {
                    assert(gives(after[k].aggregate, reason));
                }
            },
            Reply::Entry(entry) => {
                if entry.kind == Kind::Directory {
                    let known = Progress {
                        index: progress.index.registered(
                            quantum.pool,
                            progress.key_below(entry),
                            Origin::Background,
                            cost,
                        ),
                        ..progress.counted()
                    };
                    usage::stopping_leaves_nothing(known, Reason::ResourceLimit, at);
                    if progress.obstacle(entry) is Some {
                        let own = AggregateView::zero().with_own(entry).because(
                            progress.obstacle(entry)->0,
                        );
                        lemma_merged_covers(stack.last().aggregate, own);
                    }
                } else {
                    let room = progress.has_link_room();
                    lemma_file_covers(stack.last().aggregate, entry, room);
                    let top = stack.last();
                    let summed = progress.counted().with_top(
                        FrameView { aggregate: top.aggregate.with_file(entry, room), ..top },
                    );
                    usage::stopping_leaves_nothing(summed, Reason::ResourceLimit, at);
                }
                if after.len() > 0 {
                    assert(after.len() >= stack.len());
                    if k < stack.len() - 1 {
                        assert(after[k] == stack[k]);
                    } else {
                        assert(gives(after[k].aggregate, reason));
                    }
                }
            },
        },
    }
}

/// A stop is said: every directory that was being read is published as cancelled, and names it; the
/// scan is over.
pub proof fn a_stop_is_said(quantum: Quantum, at: Seq<char>)
    requires
        quantum.progress.scan.stack.len() > 0,
    ensures
        ({
            let after = quantum.after(Round::Stop, at).progress;
            let stack = quantum.progress.scan.stack;
            let told = Seq::new(
                stack.len(),
                |i: int|
                    FrameView {
                        aggregate: stack[i].aggregate.because(Reason::Cancelled),
                        ..stack[i]
                    },
            );
            let stopped = Progress {
                scan: ScannerView {
                    phase: ScanPhase::Cancelled,
                    stack: told,
                    ..quantum.progress.scan
                },
                ..quantum.progress
            };
            &&& after.scan.stack.len() == 0
            &&& after.scan.phase is Cancelled
            &&& after == stopped.drained(at)
            &&& stopped.summary(told.last(), false, at).scan_state is Cancelled
            &&& names(stopped.summary(told.last(), false, at).logical, Reason::Cancelled)
            &&& names(stopped.summary(told.last(), false, at).allocated, Reason::Cancelled)
        }),
{
    reveal(Quantum::after);
    usage::stopping_leaves_nothing(quantum.progress, Reason::Cancelled, at);
    let top = quantum.progress.scan.stack.last().aggregate.because(Reason::Cancelled);
    a_reason_is_named(top.logical, Reason::Cancelled, false);
    a_reason_is_named(top.allocated, Reason::Cancelled, false);
}

/// How far a scan has come is counted: every entry that the source gives is one more, every
/// directory that is entered is one more, and nothing else is.
#[verifier::spinoff_prover]
pub proof fn progress_is_counted(quantum: Quantum, round: Round, at: Seq<char>)
    requires
        quantum.progress.scan.stack.len() > 0,
        quantum.progress.scan.stats.processed_entries < u64::MAX,
        quantum.progress.scan.stats.processed_directories < u64::MAX,
    ensures
        ({
            let before = quantum.progress.scan;
            let after = quantum.after(round, at).progress.scan;
            let entry = round is Heard && round->reply is Entry;
            &&& after.stats.processed_entries == before.stats.processed_entries + (if entry {
                1int
            } else {
                0int
            })
            &&& after.stack.len() > before.stack.len() ==> after.stats.processed_directories
                == before.stats.processed_directories + 1
            &&& after.stack.len() <= before.stack.len() ==> after.stats.processed_directories
                == before.stats.processed_directories
        }),
{
    reveal(Quantum::after);
    let progress = quantum.progress;
    match round {
        Round::Stop => {
            usage::stopping_leaves_nothing(progress, Reason::Cancelled, at);
        },
        Round::Heard { reply, cost, .. } => {
            if let Reply::Entry(entry) = reply {
                if entry.kind == Kind::Directory {
                    let known = Progress {
                        index: progress.index.registered(
                            quantum.pool,
                            progress.key_below(entry),
                            Origin::Background,
                            cost,
                        ),
                        ..progress.counted()
                    };
                    usage::stopping_leaves_nothing(known, Reason::ResourceLimit, at);
                } else {
                    let top = progress.scan.stack.last();
                    let summed = progress.counted().with_top(
                        FrameView {
                            aggregate: top.aggregate.with_file(entry, progress.has_link_room()),
                            ..top
                        },
                    );
                    usage::stopping_leaves_nothing(summed, Reason::ResourceLimit, at);
                }
            }
        },
    }
}

} // verus!
