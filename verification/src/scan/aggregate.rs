//! Sums over a directory tree in which a hard-linked file counts once.
use vstd::prelude::*;

use crate::domain::index::copy_bytes;
use crate::domain::model::{Bytes, Kind, Measure, MeasureView, Reason};
use crate::scan::identity;
use crate::scan::identity::{FileIdentity, IdentityMap};

verus! {

broadcast use vstd::set::group_set_axioms;

/// A size, as far as it could be read.
#[derive(Debug, Clone, Copy, PartialEq, Eq, Structural)]
pub enum Metric {
    Known(u64),
    Unsupported,
    Error,
}

impl Metric {
    /// The size, or nothing.
    pub open spec fn value(self) -> nat {
        match self {
            Metric::Known(value) => value as nat,
            _ => 0,
        }
    }
}

/// One entry, as a source observed it.
#[derive(Debug)]
pub struct Observation {
    /// Source-owned opaque node token. Never accepted from IPC as a path.
    pub node: u64,
    pub raw_name: Vec<u8>,
    pub kind: Kind,
    pub identity: Option<FileIdentity>,
    pub link_count: u64,
    pub mount: u64,
    pub logical: Metric,
    pub allocated: Metric,
}

/// What an observation says.
#[verifier::ext_equal]
pub struct ObservationView {
    pub node: u64,
    pub raw_name: Seq<u8>,
    pub kind: Kind,
    pub identity: Option<FileIdentity>,
    pub link_count: u64,
    pub mount: u64,
    pub logical: Metric,
    pub allocated: Metric,
}

impl View for Observation {
    type V = ObservationView;

    open spec fn view(&self) -> ObservationView {
        ObservationView {
            node: self.node,
            raw_name: self.raw_name@,
            kind: self.kind,
            identity: self.identity,
            link_count: self.link_count,
            mount: self.mount,
            logical: self.logical,
            allocated: self.allocated,
        }
    }
}

impl Clone for Observation {
    fn clone(&self) -> (other: Self)
        ensures
            other@ == self@,
    {
        Observation {
            node: self.node,
            raw_name: copy_bytes(&self.raw_name),
            kind: self.kind,
            identity: self.identity,
            link_count: self.link_count,
            mount: self.mount,
            logical: self.logical,
            allocated: self.allocated,
        }
    }
}

/// A running sum: the bytes so far, whether any size was known, and why it may be too small.
#[derive(Debug)]
pub struct Sum {
    pub bytes: u128,
    pub known: bool,
    pub reasons: Vec<Reason>,
}

/// What a running sum says.
#[verifier::ext_equal]
pub struct SumView {
    pub bytes: nat,
    pub known: bool,
    pub reasons: Set<Reason>,
}

impl View for Sum {
    type V = SumView;

    open spec fn view(&self) -> SumView {
        SumView { bytes: self.bytes as nat, known: self.known, reasons: self.reasons@.to_set() }
    }
}

/// All reasons in their order.
pub open spec fn reason_order() -> Seq<Reason> {
    seq![
        Reason::Scanning,
        Reason::ReadError,
        Reason::Cancelled,
        Reason::Unsupported,
        Reason::ChangedDuringScan,
        Reason::Overflow,
        Reason::ResourceLimit,
        Reason::ExcludedByPolicy,
    ]
}

/// The reasons of a set, from the `n`th on, in their order.
pub open spec fn ordered_from(reasons: Set<Reason>, n: int) -> Seq<Reason>
    decreases 8 - n,
{
    if n < 0 || n >= 8 {
        Seq::empty()
    } else if reasons.contains(reason_order()[n]) {
        seq![reason_order()[n]] + ordered_from(reasons, n + 1)
    } else {
        ordered_from(reasons, n + 1)
    }
}

/// The reasons of a set in their order.
pub open spec fn ordered(reasons: Set<Reason>) -> Seq<Reason> {
    ordered_from(reasons, 0)
}

/// Whether a list holds a reason.
pub fn holds_reason(reasons: &Vec<Reason>, reason: Reason) -> (found: bool)
    ensures
        found == reasons@.contains(reason),
{
    let mut i: usize = 0;
    while i < reasons.len()
        invariant
            i <= reasons.len(),
            forall|j: int| 0 <= j < i ==> reasons@[j] != reason,
        decreases reasons.len() - i,
    {
        if reasons[i] == reason {
            assert(reasons@[i as int] == reason);
            return true;
        }
        i = i + 1;
    }
    false
}

/// The reasons of a list, each once, in their order.
pub fn in_order(reasons: &Vec<Reason>) -> (sorted: Vec<Reason>)
    ensures
        sorted@ == ordered(reasons@.to_set()),
{
    let all = [
        Reason::Scanning,
        Reason::ReadError,
        Reason::Cancelled,
        Reason::Unsupported,
        Reason::ChangedDuringScan,
        Reason::Overflow,
        Reason::ResourceLimit,
        Reason::ExcludedByPolicy,
    ];
    let ghost set = reasons@.to_set();
    let mut sorted: Vec<Reason> = Vec::new();
    let mut i: usize = 0;
    assert(ordered(set) =~= sorted@ + ordered_from(set, 0));
    while i < 8
        invariant
            i <= 8,
            all@ == reason_order(),
            set == reasons@.to_set(),
            ordered(set) == sorted@ + ordered_from(set, i as int),
        decreases 8 - i,
    {
        let reason = all[i];
        let ghost done = sorted@;
        if holds_reason(reasons, reason) {
            sorted.push(reason);
            assert(done + ordered_from(set, i as int) =~= sorted@ + ordered_from(set, i + 1));
        }
        i = i + 1;
    }
    assert(sorted@ + ordered_from(set, 8) =~= sorted@);
    sorted
}

impl SumView {
    /// An empty sum.
    pub open spec fn zero() -> SumView {
        SumView { bytes: 0, known: false, reasons: Set::empty() }
    }

    /// The sum with one more reason.
    pub open spec fn because(self, reason: Reason) -> SumView {
        SumView { reasons: self.reasons.insert(reason), ..self }
    }

    /// The sum with `value` more bytes. What 128 bits cannot hold is left out and said so.
    pub open spec fn plus(self, value: nat) -> SumView {
        if self.bytes + value <= u128::MAX {
            SumView { bytes: self.bytes + value, ..self }
        } else {
            self.because(Reason::Overflow)
        }
    }

    /// The sum without `value` bytes.
    pub open spec fn minus(self, value: nat) -> SumView {
        SumView {
            bytes: if self.bytes >= value {
                (self.bytes - value) as nat
            } else {
                0
            },
            ..self
        }
    }

    /// The sum with one more size.
    pub open spec fn with(self, metric: Metric) -> SumView {
        match metric {
            Metric::Known(value) => SumView { known: true, ..self }.plus(value as nat),
            Metric::Unsupported => self.because(Reason::Unsupported),
            Metric::Error => self.because(Reason::ReadError),
        }
    }

    /// The sum of two parts.
    pub open spec fn merged(self, other: SumView) -> SumView {
        let sum = self.plus(other.bytes);
        SumView {
            bytes: sum.bytes,
            known: sum.known || other.known,
            reasons: sum.reasons.union(other.reasons),
        }
    }

    /// What the sum is published as: complete without a reason, else partial; unavailable when
    /// nothing was known because nothing is supported.
    pub open spec fn measured(self, running: bool) -> MeasureView {
        let reasons = if running {
            self.reasons.insert(Reason::Scanning)
        } else {
            self.reasons
        };
        if !self.known && !running && reasons == Set::<Reason>::empty().insert(
            Reason::Unsupported,
        ) {
            MeasureView::Unavailable { reason: Reason::Unsupported }
        } else if reasons == Set::<Reason>::empty() {
            MeasureView::Complete { bytes: self.bytes }
        } else {
            MeasureView::Partial { observed_bytes: self.bytes, reasons: ordered(reasons) }
        }
    }
}

impl Sum {
    /// An empty sum.
    pub fn new() -> (sum: Self)
        ensures
            sum@ == SumView::zero(),
    {
        let sum = Sum { bytes: 0, known: false, reasons: Vec::new() };
        assert(sum@ =~= SumView::zero());
        sum
    }

    /// Adds a reason.
    pub fn reason(&mut self, reason: Reason)
        ensures
            final(self)@ == old(self)@.because(reason),
            final(self).bytes == old(self).bytes,
            final(self).known == old(self).known,
    {
        let ghost before = self@;
        if !holds_reason(&self.reasons, reason) {
            let ghost reasons = self.reasons@;
            self.reasons.push(reason);
            proof {
                let next = self.reasons@;
                assert(next.to_set() =~= reasons.to_set().insert(reason)) by {
                    assert forall|r: Reason| next.contains(r) <==> (reasons.contains(r) || r
                        == reason) by {
                        if reasons.contains(r) {
                            let i = choose|i: int| 0 <= i < reasons.len() && reasons[i] == r;
                            assert(next[i] == r);
                        }
                        if r == reason {
                            assert(next[reasons.len() as int] == r);
                        }
                    }
                }
            }
        }
        assert(self@ =~= before.because(reason));
    }

    /// Adds a number of bytes.
    pub fn add_number(&mut self, value: u128)
        ensures
            final(self)@ == old(self)@.plus(value as nat),
    {
        match self.bytes.checked_add(value) {
            Some(sum) => {
                self.bytes = sum;
            },
            None => {
                self.reason(Reason::Overflow);
            },
        }
    }

    /// Takes a number of bytes off.
    fn take_off(&mut self, metric: Metric)
        ensures
            final(self)@ == old(self)@.minus(metric.value()),
    {
        if let Metric::Known(value) = metric {
            self.bytes = self.bytes.saturating_sub(value as u128);
        }
    }

    /// Adds a size.
    pub fn add_metric(&mut self, metric: Metric)
        ensures
            final(self)@ == old(self)@.with(metric),
    {
        match metric {
            Metric::Known(value) => {
                self.known = true;
                self.add_number(value as u128);
            },
            Metric::Unsupported => {
                self.reason(Reason::Unsupported);
            },
            Metric::Error => {
                self.reason(Reason::ReadError);
            },
        }
    }

    /// Adds another sum.
    pub fn merge(&mut self, other: &Self)
        ensures
            final(self)@ == old(self)@.merged(other@),
    {
        let ghost before = self@;
        self.add_number(other.bytes);
        self.known = self.known || other.known;
        let ghost middle = self@;
        let mut i: usize = 0;
        assert(other.reasons@.take(0).to_set() =~= Set::<Reason>::empty());
        assert(middle.reasons.union(other.reasons@.take(0).to_set()) =~= middle.reasons);
        while i < other.reasons.len()
            invariant
                i <= other.reasons.len(),
                self@.bytes == middle.bytes,
                self@.known == middle.known,
                self@.reasons == middle.reasons.union(other.reasons@.take(i as int).to_set()),
            decreases other.reasons.len() - i,
        {
            let ghost taken = other.reasons@.take(i as int);
            let ghost next = other.reasons@.take(i + 1);
            self.reason(other.reasons[i]);
            proof {
                assert(next =~= taken.push(other.reasons@[i as int]));
                assert(next.to_set() =~= taken.to_set().insert(other.reasons@[i as int])) by {
                    assert forall|r: Reason| next.contains(r) <==> (taken.contains(r) || r
                        == other.reasons@[i as int]) by {
                        if taken.contains(r) {
                            let j = choose|j: int| 0 <= j < taken.len() && taken[j] == r;
                            assert(next[j] == r);
                        }
                        if r == other.reasons@[i as int] {
                            assert(next[i as int] == r);
                        }
                    }
                }
                assert(self@.reasons =~= middle.reasons.union(next.to_set()));
            }
            i = i + 1;
        }
        assert(other.reasons@.take(i as int) =~= other.reasons@);
        assert(self@ =~= before.merged(other@));
    }

    /// What the sum is published as.
    pub fn measure(&self, running: bool) -> (measure: Measure)
        ensures
            measure@ == self@.measured(running),
    {
        let mut reasons = crate::domain::model::copy_reasons(&self.reasons);
        let ghost set = if running {
            self@.reasons.insert(Reason::Scanning)
        } else {
            self@.reasons
        };
        if running {
            let ghost before = reasons@;
            reasons.push(Reason::Scanning);
            proof {
                assert(reasons@.to_set() =~= before.to_set().insert(Reason::Scanning)) by {
                    assert forall|r: Reason| reasons@.contains(r) <==> (before.contains(r) || r
                        == Reason::Scanning) by {
                        if before.contains(r) {
                            let j = choose|j: int| 0 <= j < before.len() && before[j] == r;
                            assert(reasons@[j] == r);
                        }
                        if r == Reason::Scanning {
                            assert(reasons@[before.len() as int] == r);
                        }
                    }
                }
            }
        }
        assert(reasons@.to_set() =~= set);
        let sorted = in_order(&reasons);
        proof {
            lemma_ordered(set);
        }
        if !self.known && !running && sorted.len() == 1 && sorted[0] == Reason::Unsupported {
            return Measure::Unavailable { reason: Reason::Unsupported };
        }
        if sorted.len() == 0 {
            Measure::Complete { bytes: Bytes::of(self.bytes) }
        } else {
            Measure::Partial { observed_bytes: Bytes::of(self.bytes), reasons: sorted }
        }
    }
}

proof fn lemma_ordered_from(reasons: Set<Reason>, n: int)
    requires
        0 <= n <= 8,
    ensures
        forall|i: int|
            0 <= i < ordered_from(reasons, n).len() ==> reasons.contains(
                #[trigger] ordered_from(reasons, n)[i],
            ) && n <= ordered_from(reasons, n)[i].rank(),
        forall|r: Reason|
            reasons.contains(r) && r.rank() >= n ==> #[trigger] ordered_from(reasons, n).contains(
                r,
            ),
        forall|i: int, j: int|
            0 <= i < j < ordered_from(reasons, n).len() ==> (#[trigger] ordered_from(
                reasons,
                n,
            )[i]).rank() < (#[trigger] ordered_from(reasons, n)[j]).rank(),
        ordered_from(reasons, n).len() <= 8 - n,
    decreases 8 - n,
{
    if n < 8 {
        lemma_ordered_from(reasons, n + 1);
        let here = reason_order()[n];
        let rest = ordered_from(reasons, n + 1);
        let all = ordered_from(reasons, n);
        assert(here.rank() == n);
        assert forall|r: Reason| reasons.contains(r) && r.rank() >= n implies #[trigger] all.contains(
            r,
        ) by {
            if r.rank() == n {
                assert(r == here);
                assert(all[0] == r);
            } else {
                assert(rest.contains(r));
                let i = choose|i: int| 0 <= i < rest.len() && rest[i] == r;
                if reasons.contains(here) {
                    assert(all[i + 1] == r);
                } else {
                    assert(all[i] == r);
                }
            }
        }
        assert forall|i: int| 0 <= i < all.len() implies reasons.contains(#[trigger] all[i]) && n
            <= all[i].rank() by {
            if reasons.contains(here) {
                if i > 0 {
                    assert(all[i] == rest[i - 1]);
                }
            } else {
                assert(all[i] == rest[i]);
            }
        }
        assert forall|i: int, j: int| 0 <= i < j < all.len() implies (#[trigger] all[i]).rank() < (
        #[trigger] all[j]).rank() by {
            if reasons.contains(here) {
                assert(all[j] == rest[j - 1]);
                if i > 0 {
                    assert(all[i] == rest[i - 1]);
                }
            } else {
                assert(all[i] == rest[i]);
                assert(all[j] == rest[j]);
            }
        }
    }
}

/// The list of a set's reasons holds each of them once, in increasing order, and nothing else.
pub proof fn lemma_ordered(reasons: Set<Reason>)
    ensures
        ordered(reasons).len() <= 8,
        forall|r: Reason| reasons.contains(r) <==> #[trigger] ordered(reasons).contains(r),
        forall|i: int, j: int|
            0 <= i < j < ordered(reasons).len() ==> (#[trigger] ordered(reasons)[i]).rank() < (
            #[trigger] ordered(reasons)[j]).rank(),
        ordered(reasons).len() == 0 <==> reasons == Set::<Reason>::empty(),
        (ordered(reasons).len() == 1 && ordered(reasons)[0] == Reason::Unsupported) <==> reasons
            == Set::<Reason>::empty().insert(Reason::Unsupported),
{
    lemma_ordered_from(reasons, 0);
    let list = ordered(reasons);
    if list.len() == 0 {
        assert(reasons =~= Set::<Reason>::empty()) by {
            assert forall|r: Reason| !reasons.contains(r) by {
                if reasons.contains(r) {
                    assert(r.rank() >= 0);
                    assert(list.contains(r));
                }
            }
        }
    }
    if list.len() == 1 && list[0] == Reason::Unsupported {
        assert(reasons =~= Set::<Reason>::empty().insert(Reason::Unsupported)) by {
            assert forall|r: Reason| reasons.contains(r) <==> r == Reason::Unsupported by {
                if reasons.contains(r) {
                    assert(r.rank() >= 0);
                    assert(list.contains(r));
                }
            }
        }
    }
    if reasons == Set::<Reason>::empty().insert(Reason::Unsupported) {
        assert(list.contains(Reason::Unsupported)) by {
            assert(reasons.contains(Reason::Unsupported));
            assert(Reason::Unsupported.rank() >= 0);
        }
        let at = choose|at: int| 0 <= at < list.len() && list[at] == Reason::Unsupported;
        if list.len() > 1 {
            let other = if at == 0 { 1int } else { 0 };
            assert(reasons.contains(list[other]));
            if at == 0 {
                assert(list[0].rank() < list[1].rank());
            } else {
                assert(list[0].rank() < list[at].rank());
            }
        }
    }
    assert forall|r: Reason| reasons.contains(r) <==> #[trigger] list.contains(r) by {
        if reasons.contains(r) {
            assert(r.rank() >= 0);
        }
        if list.contains(r) {
            let i = choose|i: int| 0 <= i < list.len() && list[i] == r;
            assert(reasons.contains(list[i]));
        }
    }
}

/// The two sizes of a hard-linked file.
#[derive(Debug, Clone, Copy, PartialEq, Eq, Structural)]
pub struct SharedSize {
    pub logical: Metric,
    pub allocated: Metric,
}

/// What one hard-linked file is charged: a map node, the identity and two tagged sizes.
pub const SHARED_BYTES: usize = 160;

/// What two observations of one file come to: the smaller of two known sizes, the known one of
/// two, and an error where neither is known and they differ.
pub open spec fn joined(a: Metric, b: Metric) -> Metric {
    match (a, b) {
        (Metric::Known(x), Metric::Known(y)) => Metric::Known(
            if x <= y {
                x
            } else {
                y
            },
        ),
        (Metric::Known(x), _) => Metric::Known(x),
        (_, Metric::Known(y)) => Metric::Known(y),
        (Metric::Unsupported, Metric::Unsupported) => Metric::Unsupported,
        _ => Metric::Error,
    }
}

impl SumView {
    /// The sum after a file that it holds as `previous` was observed again as `current`.
    pub open spec fn reconciled(self, previous: Metric, current: Metric) -> SumView {
        if previous == current {
            self
        } else {
            let noted = match (previous, current) {
                (Metric::Known(_), Metric::Known(_)) => self.because(Reason::ChangedDuringScan),
                (Metric::Known(_), Metric::Unsupported) => self.because(Reason::Unsupported),
                (Metric::Unsupported, Metric::Known(_)) => self.because(Reason::Unsupported),
                (Metric::Known(_), Metric::Error) => self.because(Reason::ReadError),
                (Metric::Error, Metric::Known(_)) => self.because(Reason::ReadError),
                _ => self.because(Reason::ReadError).because(Reason::Unsupported),
            };
            noted.minus(previous.value()).with(joined(previous, current))
        }
    }
}

fn reconcile(sum: &mut Sum, previous: Metric, current: Metric) -> (merged: Metric)
    ensures
        merged == joined(previous, current),
        final(sum)@ == old(sum)@.reconciled(previous, current),
{
    if previous == current {
        return previous;
    }
    let merged = match (previous, current) {
        (Metric::Known(a), Metric::Known(b)) => {
            sum.reason(Reason::ChangedDuringScan);
            Metric::Known(
                if a <= b {
                    a
                } else {
                    b
                },
            )
        },
        (Metric::Known(value), Metric::Unsupported) => {
            sum.reason(Reason::Unsupported);
            Metric::Known(value)
        },
        (Metric::Unsupported, Metric::Known(value)) => {
            sum.reason(Reason::Unsupported);
            Metric::Known(value)
        },
        (Metric::Known(value), Metric::Error) => {
            sum.reason(Reason::ReadError);
            Metric::Known(value)
        },
        (Metric::Error, Metric::Known(value)) => {
            sum.reason(Reason::ReadError);
            Metric::Known(value)
        },
        _ => {
            sum.reason(Reason::ReadError);
            sum.reason(Reason::Unsupported);
            Metric::Error
        },
    };
    sum.take_off(previous);
    sum.add_metric(merged);
    merged
}

/// The sums of one directory tree and the hard-linked files in it.
pub struct Aggregate {
    pub logical: Sum,
    pub allocated: Sum,
    pub shared: IdentityMap<SharedSize>,
}

/// What the sums of a directory tree say.
#[verifier::ext_equal]
pub struct AggregateView {
    pub logical: SumView,
    pub allocated: SumView,
    pub shared: Map<FileIdentity, SharedSize>,
}

impl View for Aggregate {
    type V = AggregateView;

    open spec fn view(&self) -> AggregateView {
        AggregateView {
            logical: self.logical@,
            allocated: self.allocated@,
            shared: self.shared@,
        }
    }
}

impl AggregateView {
    /// Nothing summed yet.
    pub open spec fn zero() -> AggregateView {
        AggregateView {
            logical: SumView::zero(),
            allocated: SumView::zero(),
            shared: Map::empty(),
        }
    }

    /// Both sums with one more reason.
    pub open spec fn because(self, reason: Reason) -> AggregateView {
        AggregateView {
            logical: self.logical.because(reason),
            allocated: self.allocated.because(reason),
            ..self
        }
    }

    /// Both sums with the entry's own sizes.
    pub open spec fn with_own(self, observation: ObservationView) -> AggregateView {
        AggregateView {
            logical: self.logical.with(observation.logical),
            allocated: self.allocated.with(observation.allocated),
            ..self
        }
    }

    /// The sums after a hard-linked file in them was observed again.
    pub open spec fn with_again(self, key: FileIdentity, size: SharedSize) -> AggregateView {
        let known = self.shared[key];
        AggregateView {
            logical: self.logical.reconciled(known.logical, size.logical),
            allocated: self.allocated.reconciled(known.allocated, size.allocated),
            shared: self.shared.insert(
                key,
                SharedSize {
                    logical: joined(known.logical, size.logical),
                    allocated: joined(known.allocated, size.allocated),
                },
            ),
        }
    }

    /// Whether a file is hard-linked under an identity that is not in the sums yet.
    pub open spec fn is_new_link(self, observation: ObservationView) -> bool {
        observation.link_count > 1 && observation.identity is Some && !self.shared.contains_key(
            observation.identity->0,
        )
    }

    /// The sums with a file that is not a directory: a file with one link adds its sizes, a
    /// hard-linked one adds them once, and one without an identity cannot be told apart. `room`
    /// says whether one more hard-linked file can be remembered.
    pub open spec fn with_file(self, observation: ObservationView, room: bool) -> AggregateView {
        if observation.link_count <= 1 {
            self.with_own(observation)
        } else if observation.identity is None {
            self.because(Reason::Unsupported)
        } else {
            let key = observation.identity->0;
            let size = SharedSize {
                logical: observation.logical,
                allocated: observation.allocated,
            };
            if self.shared.contains_key(key) {
                self.with_again(key, size)
            } else if room {
                let own = self.with_own(observation);
                AggregateView { shared: self.shared.insert(key, size), ..own }
            } else {
                self.because(Reason::ResourceLimit)
            }
        }
    }

    /// The sums after one hard-linked file of a subtree, whose sizes both sums already hold.
    pub open spec fn absorbed(self, key: FileIdentity, size: SharedSize) -> AggregateView {
        if self.shared.contains_key(key) {
            AggregateView {
                logical: self.logical.minus(size.logical.value()),
                allocated: self.allocated.minus(size.allocated.value()),
                ..self
            }.with_again(key, size)
        } else {
            AggregateView { shared: self.shared.insert(key, size), ..self }
        }
    }

    /// The sums after the hard-linked files of a subtree, in this order.
    pub open spec fn absorbing(self, rows: Seq<(FileIdentity, SharedSize)>) -> AggregateView
        decreases rows.len(),
    {
        if rows.len() == 0 {
            self
        } else {
            self.absorbing(rows.drop_last()).absorbed(rows.last().0, rows.last().1)
        }
    }

    /// The sums of two trees: ordinary and shared sizes are added, then what both trees hold
    /// of one hard-linked file is counted once.
    pub open spec fn merged(self, child: AggregateView) -> AggregateView {
        AggregateView {
            logical: self.logical.merged(child.logical),
            allocated: self.allocated.merged(child.allocated),
            ..self
        }.absorbing(identity::identity_rows(child.shared))
    }
}

impl Aggregate {
    /// The remembered files are in order.
    pub open spec fn wf(&self) -> bool {
        self.shared.wf()
    }

    /// Nothing summed yet.
    pub fn new() -> (aggregate: Self)
        ensures
            aggregate.wf(),
            aggregate@ == AggregateView::zero(),
    {
        Aggregate { logical: Sum::new(), allocated: Sum::new(), shared: IdentityMap::new() }
    }

    /// Adds a reason to both sums.
    pub fn reason(&mut self, reason: Reason)
        requires
            old(self).wf(),
        ensures
            final(self).wf(),
            final(self)@ == old(self)@.because(reason),
    {
        self.logical.reason(reason);
        self.allocated.reason(reason);
    }

    /// Adds the entry's own sizes.
    pub fn add_own(&mut self, observation: &Observation)
        requires
            old(self).wf(),
        ensures
            final(self).wf(),
            final(self)@ == old(self)@.with_own(observation@),
    {
        self.logical.add_metric(observation.logical);
        self.allocated.add_metric(observation.allocated);
    }

    fn again(&mut self, key: FileIdentity, known: SharedSize, size: SharedSize)
        requires
            old(self).wf(),
            old(self)@.shared.contains_key(key),
            old(self)@.shared[key] == known,
        ensures
            final(self).wf(),
            final(self)@ == old(self)@.with_again(key, size),
    {
        let ghost before = self@;
        let logical = reconcile(&mut self.logical, known.logical, size.logical);
        let allocated = reconcile(&mut self.allocated, known.allocated, size.allocated);
        self.shared.insert(key, SharedSize { logical, allocated });
        assert(self@ =~= before.with_again(key, size));
    }

    /// Adds a file that is not a directory. False means that a hard-linked file could not be
    /// remembered within the limit.
    pub fn file(&mut self, observation: &Observation, shared_bytes: &mut usize, limit: usize) -> (
    counted: bool)
        requires
            old(self).wf(),
        ensures
            final(self).wf(),
            ({
                let room = *old(shared_bytes) + SHARED_BYTES <= limit;
                &&& final(self)@ == old(self)@.with_file(observation@, room)
                &&& counted == (room || !old(self)@.is_new_link(observation@))
                &&& *final(shared_bytes) == (if room && old(self)@.is_new_link(observation@) {
                    *old(shared_bytes) + SHARED_BYTES
                } else {
                    *old(shared_bytes) as int
                })
            }),
    {
        if observation.link_count <= 1 {
            self.add_own(observation);
            return true;
        }
        let key = match observation.identity {
            Some(key) => key,
            None => {
                self.reason(Reason::Unsupported);
                return true;
            },
        };
        let size = SharedSize { logical: observation.logical, allocated: observation.allocated };
        if let Some(known) = self.shared.get(key) {
            self.again(key, known, size);
            return true;
        }
        if limit < SHARED_BYTES || *shared_bytes > limit - SHARED_BYTES {
            self.reason(Reason::ResourceLimit);
            return false;
        }
        *shared_bytes = *shared_bytes + SHARED_BYTES;
        self.shared.insert(key, size);
        self.add_own(observation);
        true
    }

    /// Adds the sums of a subtree. A hard-linked file that both sides hold is counted once and
    /// gives the room of one back.
    pub fn merge(&mut self, child: Self, shared_bytes: &mut usize)
        requires
            old(self).wf(),
            child.wf(),
            *old(shared_bytes) >= SHARED_BYTES * child@.shared.len(),
        ensures
            final(self).wf(),
            final(self)@ == old(self)@.merged(child@),
            *final(shared_bytes) == *old(shared_bytes) - SHARED_BYTES * (old(self)@.shared.len()
                + child@.shared.len() - final(self)@.shared.len()),
            final(self)@.shared.len() <= old(self)@.shared.len() + child@.shared.len(),
    {
        let ghost before = self@;
        let ghost given = child@;
        self.logical.merge(&child.logical);
        self.allocated.merge(&child.allocated);
        let own: usize = self.shared.len();
        let rows = child.shared.into_rows();
        let ghost start = self@;
        let ghost room = *shared_bytes;
        let mut i: usize = 0;
        proof {
            assert(rows@.take(0) =~= Seq::<(FileIdentity, SharedSize)>::empty());
        }
        while i < rows.len()
            invariant
                i <= rows.len(),
                self.wf(),
                identity::ascending(rows@),
                start.shared.dom().finite(),
                self@ == start.absorbing(rows@.take(i as int)),
                self@.shared.dom().finite(),
                room >= SHARED_BYTES * rows@.len(),
                *shared_bytes == room - SHARED_BYTES * (start.shared.len() + i
                    - self@.shared.len()),
                self@.shared.len() <= start.shared.len() + i,
                self@.shared.len() >= start.shared.len(),
            decreases rows.len() - i,
        {
            let key = rows[i].0;
            let size = rows[i].1;
            let ghost middle = self@;
            proof {
                let next = rows@.take(i + 1);
                assert(next.drop_last() =~= rows@.take(i as int));
                assert(next.last() == rows@[i as int]);
            }
            match self.shared.get(key) {
                Some(known) => {
                    self.logical.take_off(size.logical);
                    self.allocated.take_off(size.allocated);
                    self.again(key, known, size);
                    proof {
                        assert(self@.shared.dom() =~= middle.shared.dom());
                        assert(self@ == middle.absorbed(key, size));
                    }
                    *shared_bytes = *shared_bytes - SHARED_BYTES;
                },
                None => {
                    self.shared.insert(key, size);
                    assert(self@ == middle.absorbed(key, size));
                },
            }
            i = i + 1;
        }
        assert(rows@.take(i as int) =~= rows@);
    }
}

/// What repeated observations of one file come to.
pub open spec fn seen(metrics: Seq<Metric>) -> Metric
    decreases metrics.len(),
{
    if metrics.len() <= 1 {
        metrics[0]
    } else {
        joined(seen(metrics.drop_last()), metrics.last())
    }
}

/// A sum after repeated observations of one file that it did not hold before.
pub open spec fn summed(sum: SumView, metrics: Seq<Metric>) -> SumView
    decreases metrics.len(),
{
    if metrics.len() <= 1 {
        sum.with(metrics[0])
    } else {
        summed(sum, metrics.drop_last()).reconciled(seen(metrics.drop_last()), metrics.last())
    }
}

/// Whether this size was observed.
pub open spec fn observed(metrics: Seq<Metric>, value: u64) -> bool {
    metrics.contains(Metric::Known(value))
}

/// The reasons that repeated observations of one file give.
pub open spec fn reasons_of(metrics: Seq<Metric>) -> Set<Reason> {
    Set::new(
        |reason: Reason|
            {
                ||| reason is Unsupported && metrics.contains(Metric::Unsupported)
                ||| reason is ReadError && metrics.contains(Metric::Error)
                ||| reason is ChangedDuringScan && exists|a: u64, b: u64|
                    a != b && #[trigger] observed(metrics, a) && #[trigger] observed(metrics, b)
            },
    )
}

/// What the observations come to is one of them, and no known size is smaller.
pub open spec fn is_seen(metrics: Seq<Metric>, metric: Metric) -> bool {
    match metric {
        Metric::Known(value) => observed(metrics, value) && forall|other: u64| #[trigger]
            observed(metrics, other) ==> value <= other,
        Metric::Unsupported => (forall|other: u64| !#[trigger] observed(metrics, other))
            && !metrics.contains(Metric::Error),
        Metric::Error => (forall|other: u64| !#[trigger] observed(metrics, other))
            && metrics.contains(Metric::Error),
    }
}

proof fn lemma_push_contains(metrics: Seq<Metric>)
    requires
        metrics.len() > 1,
    ensures
        forall|m: Metric| #[trigger]
            metrics.contains(m) <==> metrics.drop_last().contains(m) || m == metrics.last(),
{
    let head = metrics.drop_last();
    assert forall|m: Metric| #[trigger] metrics.contains(m) <==> head.contains(m) || m
        == metrics.last() by {
        if metrics.contains(m) {
            let i = choose|i: int| 0 <= i < metrics.len() && metrics[i] == m;
            if i < head.len() {
                assert(head[i] == m);
            }
        }
        if head.contains(m) {
            let i = choose|i: int| 0 <= i < head.len() && head[i] == m;
            assert(metrics[i] == m);
        }
        if m == metrics.last() {
            assert(metrics[metrics.len() - 1] == m);
        }
    }
}

/// A file adds the smallest of its known sizes, however often and in whatever order it is
/// observed, and the sum says what was wrong with the observations.
pub proof fn repeated_observations(sum: SumView, metrics: Seq<Metric>)
    requires
        metrics.len() > 0,
        sum.bytes + u64::MAX <= u128::MAX,
    ensures
        is_seen(metrics, seen(metrics)),
        summed(sum, metrics).bytes == sum.bytes + seen(metrics).value(),
        summed(sum, metrics).known == (sum.known || seen(metrics) is Known),
        summed(sum, metrics).reasons == sum.reasons.union(reasons_of(metrics)),
    decreases metrics.len(),
{
    let last = metrics.last();
    if metrics.len() == 1 {
        assert(metrics[0] == last);
        assert forall|m: Metric| #[trigger] metrics.contains(m) <==> m == last by {
            if metrics.contains(m) {
                let i = choose|i: int| 0 <= i < metrics.len() && metrics[i] == m;
            }
            if m == last {
                assert(metrics[0] == m);
            }
        }
        assert(summed(sum, metrics).reasons =~= sum.reasons.union(reasons_of(metrics)));
    } else {
        let head = metrics.drop_last();
        repeated_observations(sum, head);
        lemma_push_contains(metrics);
        let before = seen(head);
        let after = summed(sum, metrics);
        assert forall|v: u64| #[trigger] observed(metrics, v) <==> observed(head, v) || last
            == Metric::Known(v) by {}
        if let Metric::Known(a) = before {
            assert(observed(head, a));
            assert(observed(metrics, a));
        }
        if let Metric::Known(b) = last {
            assert(observed(metrics, b));
        }
        assert(after.reasons =~= sum.reasons.union(reasons_of(metrics))) by {
            assert forall|r: Reason| after.reasons.contains(r) <==> sum.reasons.union(
                reasons_of(metrics),
            ).contains(r) by {
                lemma_changed(head, metrics, before, last);
            }
        }
    }
}

proof fn lemma_changed(head: Seq<Metric>, metrics: Seq<Metric>, before: Metric, last: Metric)
    requires
        is_seen(head, before),
        forall|v: u64| #[trigger]
            observed(metrics, v) <==> observed(head, v) || last == Metric::Known(v),
    ensures
        (exists|a: u64, b: u64|
            a != b && #[trigger] observed(metrics, a) && #[trigger] observed(metrics, b)) <==> (
        exists|a: u64, b: u64|
            a != b && #[trigger] observed(head, a) && #[trigger] observed(head, b)) || (
        before is Known && last is Known && before != last),
{
    if exists|a: u64, b: u64|
        a != b && #[trigger] observed(head, a) && #[trigger] observed(head, b) {
        let (a, b) = choose|a: u64, b: u64|
            a != b && #[trigger] observed(head, a) && #[trigger] observed(head, b);
        assert(observed(metrics, a) && observed(metrics, b));
    }
    if before is Known && last is Known && before != last {
        let a = before->Known_0;
        let b = last->Known_0;
        assert(observed(head, a));
        assert(observed(metrics, a) && observed(metrics, b));
    }
    if exists|a: u64, b: u64|
        a != b && #[trigger] observed(metrics, a) && #[trigger] observed(metrics, b) {
        let (a, b) = choose|a: u64, b: u64|
            a != b && #[trigger] observed(metrics, a) && #[trigger] observed(metrics, b);
        if observed(head, a) && observed(head, b) {
        } else if observed(head, a) {
            assert(last == Metric::Known(b));
            if before == last {
                assert(observed(head, b));
            }
        } else {
            assert(last == Metric::Known(a));
            assert(observed(head, b));
            if before == last {
                assert(observed(head, a));
            }
        }
    }
}

/// The totals of a hard-linked file do not depend on the order in which its links are visited,
/// nor on how often the same is observed.
pub proof fn visit_order_does_not_matter(sum: SumView, a: Seq<Metric>, b: Seq<Metric>)
    requires
        a.len() > 0,
        b.len() > 0,
        sum.bytes + u64::MAX <= u128::MAX,
        forall|m: Metric| #[trigger] a.contains(m) <==> b.contains(m),
    ensures
        seen(a) == seen(b),
        summed(sum, a) == summed(sum, b),
{
    repeated_observations(sum, a);
    repeated_observations(sum, b);
    assert forall|v: u64| #[trigger] observed(a, v) <==> observed(b, v) by {}
    if let Metric::Known(x) = seen(a) {
        assert(observed(b, x));
    }
    if let Metric::Known(y) = seen(b) {
        assert(observed(a, y));
    }
    assert(reasons_of(a) =~= reasons_of(b)) by {
        assert forall|r: Reason| reasons_of(a).contains(r) <==> reasons_of(b).contains(r) by {
            if exists|x: u64, y: u64|
                x != y && #[trigger] observed(a, x) && #[trigger] observed(a, y) {
                let (x, y) = choose|x: u64, y: u64|
                    x != y && #[trigger] observed(a, x) && #[trigger] observed(a, y);
                assert(observed(b, x) && observed(b, y));
            }
            if exists|x: u64, y: u64|
                x != y && #[trigger] observed(b, x) && #[trigger] observed(b, y) {
                let (x, y) = choose|x: u64, y: u64|
                    x != y && #[trigger] observed(b, x) && #[trigger] observed(b, y);
                assert(observed(a, x) && observed(a, y));
            }
        }
    }
    assert(summed(sum, a) =~= summed(sum, b));
}

/// The sum of one size over all remembered files.
pub open spec fn shared_total(
    shared: Map<FileIdentity, SharedSize>,
    size: spec_fn(SharedSize) -> nat,
) -> nat
    decreases shared.len(),
{
    if !shared.dom().finite() || shared.dom().is_empty() {
        0
    } else {
        let key = shared.dom().choose();
        size(shared[key]) + shared_total(shared.remove(key), size)
    }
}

proof fn lemma_shared_total_remove(
    shared: Map<FileIdentity, SharedSize>,
    size: spec_fn(SharedSize) -> nat,
    key: FileIdentity,
)
    requires
        shared.dom().finite(),
        shared.contains_key(key),
    ensures
        shared_total(shared, size) == size(shared[key]) + shared_total(shared.remove(key), size),
    decreases shared.len(),
{
    let first = shared.dom().choose();
    assert(shared.dom().contains(first));
    if first != key {
        lemma_shared_total_remove(shared.remove(first), size, key);
        lemma_shared_total_remove(shared.remove(key), size, first);
        assert(shared.remove(first).remove(key) =~= shared.remove(key).remove(first));
    }
}

pub proof fn lemma_shared_total_insert(
    shared: Map<FileIdentity, SharedSize>,
    size: spec_fn(SharedSize) -> nat,
    key: FileIdentity,
    value: SharedSize,
)
    requires
        shared.dom().finite(),
    ensures
        shared_total(shared.insert(key, value), size) == size(value) + shared_total(
            shared.remove(key),
            size,
        ),
        shared.contains_key(key) ==> shared_total(shared, size) == size(shared[key])
            + shared_total(shared.remove(key), size),
        !shared.contains_key(key) ==> shared_total(shared, size) == shared_total(
            shared.remove(key),
            size,
        ),
{
    lemma_shared_total_remove(shared.insert(key, value), size, key);
    assert(shared.insert(key, value).remove(key) =~= shared.remove(key));
    if shared.contains_key(key) {
        lemma_shared_total_remove(shared, size, key);
    } else {
        assert(shared.remove(key) =~= shared);
    }
}

/// The logical size of a remembered file.
pub open spec fn logical_size() -> spec_fn(SharedSize) -> nat {
    |size: SharedSize| size.logical.value()
}

/// The allocated size of a remembered file.
pub open spec fn allocated_size() -> spec_fn(SharedSize) -> nat {
    |size: SharedSize| size.allocated.value()
}

impl AggregateView {
    /// Both sums hold the given ordinary bytes and each remembered file once.
    pub open spec fn counts_once(self, logical: nat, allocated: nat) -> bool {
        &&& self.shared.dom().finite()
        &&& self.logical.bytes == logical + shared_total(self.shared, logical_size())
        &&& self.allocated.bytes == allocated + shared_total(self.shared, allocated_size())
    }
}

proof fn lemma_absorbed_once(
    aggregate: AggregateView,
    key: FileIdentity,
    size: SharedSize,
    logical: nat,
    allocated: nat,
)
    requires
        aggregate.shared.dom().finite(),
        aggregate.logical.bytes == logical + size.logical.value() + shared_total(
            aggregate.shared,
            logical_size(),
        ),
        aggregate.allocated.bytes == allocated + size.allocated.value() + shared_total(
            aggregate.shared,
            allocated_size(),
        ),
        aggregate.logical.bytes <= u128::MAX,
        aggregate.allocated.bytes <= u128::MAX,
    ensures
        aggregate.absorbed(key, size).counts_once(logical, allocated),
        aggregate.absorbed(key, size).logical.bytes <= aggregate.logical.bytes,
        aggregate.absorbed(key, size).allocated.bytes <= aggregate.allocated.bytes,
{
    let shared = aggregate.shared;
    let after = aggregate.absorbed(key, size).shared[key];
    lemma_shared_total_insert(shared, logical_size(), key, after);
    lemma_shared_total_insert(shared, allocated_size(), key, after);
    if shared.contains_key(key) {
        assert(aggregate.absorbed(key, size).shared =~= shared.insert(key, after));
    }
}

proof fn lemma_absorbing_once(
    aggregate: AggregateView,
    rows: Seq<(FileIdentity, SharedSize)>,
    logical: nat,
    allocated: nat,
)
    requires
        identity::ascending(rows),
        aggregate.shared.dom().finite(),
        aggregate.logical.bytes == logical + shared_total(aggregate.shared, logical_size())
            + shared_total(identity::identity_map(rows), logical_size()),
        aggregate.allocated.bytes == allocated + shared_total(aggregate.shared, allocated_size())
            + shared_total(identity::identity_map(rows), allocated_size()),
        aggregate.logical.bytes <= u128::MAX,
        aggregate.allocated.bytes <= u128::MAX,
    ensures
        aggregate.absorbing(rows).counts_once(logical, allocated),
        aggregate.absorbing(rows).logical.bytes <= aggregate.logical.bytes,
        aggregate.absorbing(rows).allocated.bytes <= aggregate.allocated.bytes,
    decreases rows.len(),
{
    identity::lemma_identity_map(rows);
    if rows.len() > 0 {
        let head = rows.drop_last();
        let last = rows.last();
        assert(identity::ascending(head)) by {
            assert forall|i: int, j: int| 0 <= i < j < head.len() implies (
            #[trigger] head[i]).0.before((#[trigger] head[j]).0) by {
                assert(head[i] == rows[i]);
                assert(head[j] == rows[j]);
            }
        }
        identity::lemma_identity_map(head);
        let map = identity::identity_map(head);
        assert(!map.contains_key(last.0)) by {
            if map.contains_key(last.0) {
                let i = choose|i: int| 0 <= i < head.len() && (#[trigger] head[i]).0 == last.0;
                assert(rows[i].0.before(rows[rows.len() - 1].0));
            }
        }
        lemma_shared_total_insert(map, logical_size(), last.0, last.1);
        lemma_shared_total_insert(map, allocated_size(), last.0, last.1);
        lemma_absorbing_once(
            aggregate,
            head,
            logical + last.1.logical.value(),
            allocated + last.1.allocated.value(),
        );
        lemma_absorbed_once(aggregate.absorbing(head), last.0, last.1, logical, allocated);
    }
}

/// Hard-linked files count once in each tree: a tree that is made of two trees holds the
/// ordinary bytes of both, and each hard-linked file once, however many of its links lie on
/// either side.
pub proof fn hard_links_count_once_in_a_common_parent(
    parent: AggregateView,
    child: AggregateView,
    parent_logical: nat,
    parent_allocated: nat,
    child_logical: nat,
    child_allocated: nat,
    rows: Seq<(FileIdentity, SharedSize)>,
)
    requires
        parent.counts_once(parent_logical, parent_allocated),
        child.counts_once(child_logical, child_allocated),
        parent.logical.bytes + child.logical.bytes <= u128::MAX,
        parent.allocated.bytes + child.allocated.bytes <= u128::MAX,
        identity::ascending(rows),
        identity::identity_map(rows) == child.shared,
    ensures
        parent.merged(child).counts_once(
            parent_logical + child_logical,
            parent_allocated + child_allocated,
        ),
{
    identity::lemma_identity_rows_unique(rows, identity::identity_rows(child.shared));
    let both = AggregateView {
        logical: parent.logical.merged(child.logical),
        allocated: parent.allocated.merged(child.allocated),
        ..parent
    };
    lemma_absorbing_once(
        both,
        rows,
        parent_logical + child_logical,
        parent_allocated + child_allocated,
    );
}

/// A hard-linked file counts once in its own directory too, whichever of its links comes first.
pub proof fn hard_links_count_once_in_one_directory(
    aggregate: AggregateView,
    observation: ObservationView,
    logical: nat,
    allocated: nat,
)
    requires
        aggregate.counts_once(logical, allocated),
        observation.link_count > 1,
        observation.identity is Some,
        aggregate.logical.bytes + u64::MAX <= u128::MAX,
        aggregate.allocated.bytes + u64::MAX <= u128::MAX,
    ensures
        aggregate.with_file(observation, true).counts_once(logical, allocated),
{
    let key = observation.identity->0;
    let after = aggregate.with_file(observation, true).shared[key];
    lemma_shared_total_insert(aggregate.shared, logical_size(), key, after);
    lemma_shared_total_insert(aggregate.shared, allocated_size(), key, after);
    assert(aggregate.with_file(observation, true).shared =~= aggregate.shared.insert(key, after));
}

/// A file with one link adds its own sizes to the ordinary bytes.
pub proof fn single_links_add_their_sizes(
    aggregate: AggregateView,
    observation: ObservationView,
    room: bool,
    logical: nat,
    allocated: nat,
)
    requires
        aggregate.counts_once(logical, allocated),
        observation.link_count <= 1,
        aggregate.logical.bytes + u64::MAX <= u128::MAX,
        aggregate.allocated.bytes + u64::MAX <= u128::MAX,
    ensures
        aggregate.with_file(observation, room).counts_once(
            logical + observation.logical.value(),
            allocated + observation.allocated.value(),
        ),
{
}

/// An overflow never goes unsaid: a sum that cannot hold a number says so.
pub proof fn overflow_is_explicit(sum: SumView, value: nat)
    requires
        sum.bytes + value > u128::MAX,
    ensures
        sum.plus(value).reasons.contains(Reason::Overflow),
        sum.plus(value).bytes == sum.bytes,
        !(sum.plus(value).measured(false) is Complete),
{
}

/// A sum is published as complete only when nothing was wrong and the scan is over.
pub proof fn complete_means_without_reasons(sum: SumView, running: bool)
    ensures
        sum.measured(running) is Complete <==> !running && sum.reasons == Set::<Reason>::empty(),
{
    if running {
        assert(sum.reasons.insert(Reason::Scanning).contains(Reason::Scanning));
    }
    if sum.reasons == Set::<Reason>::empty() {
        assert(!sum.reasons.contains(Reason::Unsupported));
    }
}

} // verus!
