//! Iterative, resumable aggregation over a typed observation source. No OS paths.
use std::time::Instant;

use vstd::prelude::*;

use crate::domain::controller;
use crate::domain::controller::Cancellation;
use crate::domain::index::{
    DirectoryIndex, DirectoryKey, IndexError, IndexPools, IndexView, KeyView, Origin,
};
use crate::domain::model::{
    DirectoryUsage, FsIssue, IssueView, Issues, IssuesView, Kind, Reason, ScanState, UsageView,
};
use crate::domain::summary;
use crate::runtime::clock;
use crate::runtime::clock::quantum_is_over;
use crate::runtime::memory::PoolView;
use crate::scan::aggregate;
use crate::scan::aggregate::{Aggregate, AggregateView, ObservationView, SHARED_BYTES};
use crate::scan::identity::IdentityMap;
use crate::text;
use crate::text::same_text;

pub use crate::scan::aggregate::{Metric, Observation};
pub use crate::scan::identity::FileIdentity;

verus! {

broadcast use vstd::set::group_set_axioms;

/// Where observations come from. A source may say more of its answers than that they are its own.
pub trait ObservationSource {
    type Cursor;

    /// Whether opening a directory can lead from one state of the source to another with this
    /// answer.
    open spec fn opens(
        before: &Self,
        directory: ObservationView,
        after: &Self,
        opened: Result<Self::Cursor, FsIssue>,
    ) -> bool {
        true
    }

    /// Whether reading on can lead from one state of the source and a cursor to another with this
    /// answer.
    open spec fn gives(
        before: &Self,
        from: &Self::Cursor,
        after: &Self,
        to: &Self::Cursor,
        next: Result<Option<Observation>, FsIssue>,
    ) -> bool {
        true
    }

    fn open(&mut self, directory: &Observation) -> (opened: Result<Self::Cursor, FsIssue>)
        ensures
            Self::opens(old(self), directory@, final(self), opened),
    ;

    fn next(&mut self, cursor: &mut Self::Cursor) -> (next: Result<Option<Observation>, FsIssue>)
        ensures
            Self::gives(old(self), old(cursor), final(self), final(cursor), next),
    ;
}

/// The reason that a failure of a source gives.
pub open spec fn failure_reason(code: Seq<char>) -> Reason {
    if code == "RESOURCE_LIMIT"@ {
        Reason::ResourceLimit
    } else {
        Reason::ReadError
    }
}

fn source_error_reason(issue: &FsIssue) -> (reason: Reason)
    ensures
        reason == failure_reason(issue@.code),
{
    if same_text(issue.code.as_str(), "RESOURCE_LIMIT") {
        Reason::ResourceLimit
    } else {
        Reason::ReadError
    }
}

/// What a scan may use at once.
#[derive(Debug, Clone, Copy, PartialEq, Eq, Structural)]
pub struct ScanLimits {
    pub max_open_directories: usize,
    pub hardlink_bytes: usize,
    pub working_bytes: usize,
}

impl Default for ScanLimits {
    fn default() -> (limits: Self)
        ensures
            limits.max_open_directories == 128,
            limits.hardlink_bytes == 12 * 1024 * 1024,
            limits.working_bytes == 4 * 1024 * 1024,
    {
        ScanLimits {
            max_open_directories: 128,
            hardlink_bytes: 12 * 1024 * 1024,
            working_bytes: 4 * 1024 * 1024,
        }
    }
}

/// How far a scan has come.
#[derive(Debug, Clone, Copy, PartialEq, Eq, Structural)]
pub enum ScanPhase {
    Running,
    Completed,
    Cancelled,
}

/// What a scan has done and used so far.
#[derive(Debug, Clone, Copy, PartialEq, Eq, Structural)]
pub struct ScanStats {
    pub processed_entries: u64,
    pub processed_directories: u64,
    pub peak_open_directories: usize,
    pub peak_hardlink_bytes: usize,
    pub peak_working_bytes: usize,
}

impl Default for ScanStats {
    fn default() -> (stats: Self)
        ensures
            stats == (ScanStats {
                processed_entries: 0,
                processed_directories: 0,
                peak_open_directories: 0,
                peak_hardlink_bytes: 0,
                peak_working_bytes: 0,
            }),
    {
        ScanStats {
            processed_entries: 0,
            processed_directories: 0,
            peak_open_directories: 0,
            peak_hardlink_bytes: 0,
            peak_working_bytes: 0,
        }
    }
}

/// What one visited directory is charged.
pub const VISITED_BYTES: usize = 96;

/// What one directory on the stack is charged.
pub const FRAME_BYTES: usize = 2048;

struct Frame<C> {
    id: String,
    cursor: Option<C>,
    aggregate: Aggregate,
}

/// A directory whose entries are being summed: its id, whether it can be read on, and the sums.
#[verifier::ext_equal]
pub struct FrameView {
    pub id: Seq<char>,
    pub open: bool,
    pub aggregate: AggregateView,
}

impl<C> View for Frame<C> {
    type V = FrameView;

    closed spec fn view(&self) -> FrameView {
        FrameView { id: self.id@, open: self.cursor is Some, aggregate: self.aggregate@ }
    }
}

/// The frames by what they show.
spec fn frames<C>(stack: Seq<Frame<C>>) -> Seq<FrameView> {
    Seq::new(stack.len(), |i: int| stack[i]@)
}

/// The number of hard-linked files that the frames remember.
pub open spec fn shared_count(stack: Seq<FrameView>) -> nat
    decreases stack.len(),
{
    if stack.len() == 0 {
        0
    } else {
        shared_count(stack.drop_last()) + stack.last().aggregate.shared.len()
    }
}

/// The number of frames that can be read on.
pub open spec fn open_count(stack: Seq<FrameView>) -> nat
    decreases stack.len(),
{
    if stack.len() == 0 {
        0
    } else {
        open_count(stack.drop_last()) + if stack.last().open {
            1nat
        } else {
            0
        }
    }
}

/// The state of a scan: the directories from the root down to the one that is being read, and
/// those that were entered.
#[verifier::ext_equal]
pub struct ScannerView {
    pub stack: Seq<FrameView>,
    pub visited: Set<FileIdentity>,
    pub root_id: Seq<char>,
    pub root_mount: u64,
    pub root_open_failed: bool,
    pub limits: ScanLimits,
    pub phase: ScanPhase,
    pub revision: u64,
    /// Whether a summary did not fit its room. Then the scan does not go on.
    pub unfit: bool,
    pub stats: ScanStats,
    pub issues: IssuesView,
}

/// A scan and the index that it publishes to.
#[verifier::ext_equal]
pub struct Progress {
    pub scan: ScannerView,
    pub index: IndexView,
}

/// What a source gave: an entry, the end of the directory, or a failure.
pub enum Reply {
    Entry(ObservationView),
    End,
    Failed(IssueView),
}

/// What a source gave, by what it shows.
pub open spec fn reply_of(next: Result<Option<Observation>, FsIssue>) -> Reply {
    match next {
        Ok(Some(observation)) => Reply::Entry(observation@),
        Ok(None) => Reply::End,
        Err(issue) => Reply::Failed(issue@),
    }
}

/// The larger of two numbers.
pub open spec fn larger(a: usize, b: nat) -> usize {
    if b > a {
        b as usize
    } else {
        a
    }
}

impl Progress {
    /// The summary of a frame under the next revision.
    pub open spec fn summary(self, frame: FrameView, running: bool, at: Seq<char>) -> UsageView {
        UsageView {
            directory_id: frame.id,
            usage_revision: controller::next_serial(self.scan.revision),
            scan_state: if running {
                ScanState::Running
            } else if self.scan.phase is Cancelled {
                ScanState::Cancelled
            } else if self.scan.root_open_failed && frame.id == self.scan.root_id {
                ScanState::Failed
            } else {
                ScanState::Settled
            },
            logical: frame.aggregate.logical.measured(running),
            allocated: frame.aggregate.allocated.measured(running),
            observed_at: at,
        }
    }

    /// The progress after the summary of a frame was published, if it fits its room.
    pub open spec fn published(self, frame: FrameView, running: bool, at: Seq<char>) -> Progress {
        Progress {
            scan: ScannerView {
                revision: controller::next_serial(self.scan.revision),
                unfit: self.scan.unfit || self.index.usage_answer(
                    self.summary(frame, running, at),
                ) is Err,
                ..self.scan
            },
            index: self.index.with_usage(self.summary(frame, running, at)),
        }
    }

    /// The progress after the directory that is being read is done: its summary is published
    /// and its sums go to its parent. With the root the scan is over.
    pub open spec fn popped(self, at: Seq<char>) -> Progress {
        let frame = self.scan.stack.last();
        let rest = self.scan.stack.drop_last();
        let next = Progress { scan: ScannerView { stack: rest, ..self.scan }, ..self }.published(
            frame,
            false,
            at,
        );
        if rest.len() > 0 {
            let parent = rest.last();
            Progress {
                scan: ScannerView {
                    stack: rest.drop_last().push(
                        FrameView {
                            aggregate: parent.aggregate.merged(frame.aggregate),
                            ..parent
                        },
                    ),
                    ..next.scan
                },
                ..next
            }
        } else {
            Progress {
                scan: ScannerView {
                    phase: if self.scan.phase is Cancelled {
                        ScanPhase::Cancelled
                    } else {
                        ScanPhase::Completed
                    },
                    ..next.scan
                },
                ..next
            }
        }
    }

    /// The progress after every directory on the stack is done.
    pub open spec fn drained(self, at: Seq<char>) -> Progress
        decreases self.scan.stack.len(),
    {
        if self.scan.stack.len() == 0 {
            self
        } else {
            self.popped(at).drained(at)
        }
    }

    /// The progress after the scan was ended early for a reason, which every open directory
    /// then gives. What was summed so far is published.
    pub open spec fn stopped(self, reason: Reason, at: Seq<char>) -> Progress {
        let stack = Seq::new(
            self.scan.stack.len(),
            |i: int|
                FrameView {
                    aggregate: self.scan.stack[i].aggregate.because(reason),
                    ..self.scan.stack[i]
                },
        );
        Progress {
            scan: ScannerView {
                phase: if reason is Cancelled {
                    ScanPhase::Cancelled
                } else {
                    self.scan.phase
                },
                stack,
                ..self.scan
            },
            ..self
        }.drained(at)
    }

    /// The progress with other sums for the directory that is being read.
    pub open spec fn with_top(self, frame: FrameView) -> Progress {
        Progress {
            scan: ScannerView {
                stack: self.scan.stack.drop_last().push(frame),
                ..self.scan
            },
            ..self
        }
    }

    /// The key of a directory below the one that is being read.
    pub open spec fn key_below(self, observation: ObservationView) -> KeyView {
        KeyView {
            parent_id: Some(self.scan.stack.last().id),
            raw_name: observation.raw_name,
        }
    }

    /// What one more directory on the stack would take.
    pub open spec fn working(self) -> nat {
        (self.scan.stack.len() + 1) * FRAME_BYTES as nat + (self.scan.visited.len() + 1)
            * VISITED_BYTES as nat
    }

    /// A directory on another mount, or one that was entered before.
    pub open spec fn excludes(self, observation: ObservationView) -> bool {
        observation.mount != self.scan.root_mount || (observation.identity is Some
            && self.scan.visited.contains(observation.identity->0))
    }

    /// No room for one more directory on the stack.
    pub open spec fn full(self) -> bool {
        self.scan.stack.len() >= self.scan.limits.max_open_directories || self.working()
            > self.scan.limits.working_bytes
    }

    /// Why a directory is not entered.
    pub open spec fn obstacle(self, observation: ObservationView) -> Option<Reason> {
        if self.excludes(observation) {
            Some(Reason::ExcludedByPolicy)
        } else if self.full() {
            Some(Reason::ResourceLimit)
        } else if observation.identity is None {
            Some(Reason::Unsupported)
        } else {
            None
        }
    }

    /// One more entry was processed.
    pub open spec fn counted(self) -> Progress {
        Progress {
            scan: ScannerView {
                stats: ScanStats {
                    processed_entries: controller::next_serial(self.scan.stats.processed_entries),
                    ..self.scan.stats
                },
                ..self.scan
            },
            ..self
        }
    }

    /// Whether one more hard-linked file can be remembered.
    pub open spec fn has_link_room(self) -> bool {
        SHARED_BYTES * (shared_count(self.scan.stack) + 1) <= self.scan.limits.hardlink_bytes
    }

    /// The progress after an entry that is not a directory.
    pub open spec fn with_file(self, observation: ObservationView, at: Seq<char>) -> Progress {
        let counted = self.counted();
        let top = counted.scan.stack.last();
        let room = self.has_link_room();
        let summed = counted.with_top(
            FrameView { aggregate: top.aggregate.with_file(observation, room), ..top },
        );
        if room || !top.aggregate.is_new_link(observation) {
            Progress {
                scan: ScannerView {
                    stats: ScanStats {
                        peak_hardlink_bytes: larger(
                            summed.scan.stats.peak_hardlink_bytes,
                            SHARED_BYTES as nat * shared_count(summed.scan.stack),
                        ),
                        ..summed.scan.stats
                    },
                    ..summed.scan
                },
                ..summed
            }
        } else {
            summed.stopped(Reason::ResourceLimit, at)
        }
    }

    /// The progress after a directory was found, before it is opened. One that cannot be
    /// registered ends the scan; one that is not entered is published with its own sizes alone.
    pub open spec fn with_directory(
        self,
        pool: PoolView,
        observation: ObservationView,
        cost: nat,
        at: Seq<char>,
    ) -> Progress {
        let counted = self.counted();
        let key = self.key_below(observation);
        let index = self.index.registered(pool, key, Origin::Background, cost);
        let known = Progress { index, ..counted };
        match self.index.register_answer(pool, key, Origin::Background, cost) {
            Err(_) => known.stopped(Reason::ResourceLimit, at),
            Ok(id) => match self.obstacle(observation) {
                Some(reason) => {
                    let own = AggregateView::zero().with_own(observation).because(reason);
                    let frame = FrameView { id, open: false, aggregate: own };
                    let shown = known.published(frame, false, at);
                    let top = shown.scan.stack.last();
                    shown.with_top(
                        FrameView { aggregate: top.aggregate.merged(own), ..top },
                    )
                },
                None => Progress {
                    scan: ScannerView {
                        visited: known.scan.visited.insert(observation.identity->0),
                        ..known.scan
                    },
                    ..known
                },
            },
        }
    }

    /// Whether the directory that was found is to be opened.
    pub open spec fn wants_open(
        self,
        pool: PoolView,
        observation: ObservationView,
        cost: nat,
    ) -> bool {
        &&& observation.kind is Directory
        &&& self.index.register_answer(
            pool,
            self.key_below(observation),
            Origin::Background,
            cost,
        ) is Ok
        &&& self.obstacle(observation) is None
    }

    /// The progress after a reply of the source.
    pub open spec fn received(
        self,
        pool: PoolView,
        reply: Reply,
        cost: nat,
        at: Seq<char>,
    ) -> Progress {
        match reply {
            Reply::End => self.popped(at),
            Reply::Failed(issue) => {
                let top = self.scan.stack.last();
                let failed = self.with_top(
                    FrameView {
                        open: false,
                        aggregate: top.aggregate.because(failure_reason(issue.code)),
                        ..top
                    },
                );
                Progress {
                    scan: ScannerView { issues: failed.scan.issues.with(issue), ..failed.scan },
                    ..failed
                }
            },
            Reply::Entry(observation) => if observation.kind is Directory {
                self.with_directory(pool, observation, cost, at)
            } else {
                self.with_file(observation, at)
            },
        }
    }

    /// The progress after a directory was opened, or could not be.
    pub open spec fn entered(
        self,
        id: Seq<char>,
        observation: ObservationView,
        working: nat,
        opened: Result<(), IssueView>,
        cancelled: bool,
    ) -> Progress {
        let own = AggregateView::zero().with_own(observation);
        let read = match opened {
            Ok(_) => own,
            Err(issue) => own.because(failure_reason(issue.code)),
        };
        let frame = FrameView {
            id,
            open: opened is Ok,
            aggregate: if cancelled {
                read.because(Reason::Cancelled)
            } else {
                read
            },
        };
        let stack = self.scan.stack.push(frame);
        Progress {
            scan: ScannerView {
                stack,
                stats: ScanStats {
                    processed_directories: controller::next_serial(
                        self.scan.stats.processed_directories,
                    ),
                    peak_open_directories: larger(
                        self.scan.stats.peak_open_directories,
                        open_count(stack),
                    ),
                    peak_working_bytes: larger(self.scan.stats.peak_working_bytes, working),
                    ..self.scan.stats
                },
                issues: match opened {
                    Ok(_) => self.scan.issues,
                    Err(issue) => self.scan.issues.with(issue),
                },
                ..self.scan
            },
            ..self
        }
    }

    /// The progress after the first `n` directories on the stack were published as running.
    pub open spec fn announced(self, n: nat, at: Seq<char>) -> Progress
        decreases n,
    {
        if n == 0 {
            self
        } else {
            self.announced((n - 1) as nat, at).published(self.scan.stack[n - 1], true, at)
        }
    }
}

impl ScannerView {
    /// A scan runs while there is a directory on the stack. Below the root it opens no more
    /// directories at once than it may, and it remembers no more hard-linked files.
    pub open spec fn wf(self) -> bool {
        &&& self.phase is Running <==> self.stack.len() > 0
        &&& self.stack.len() > 1 ==> self.stack.len() <= self.limits.max_open_directories
        &&& SHARED_BYTES * shared_count(self.stack) <= self.limits.hardlink_bytes
        &&& self.visited.finite()
        &&& forall|i: int|
            0 <= i < self.stack.len() ==> (
            #[trigger] self.stack[i]).aggregate.shared.dom().finite()
    }

    /// The scan runs, and every summary so far fitted its room.
    pub open spec fn going(self) -> bool {
        self.phase is Running && !self.unfit
    }

    /// Every directory on the stack is in the index.
    pub open spec fn on(self, index: IndexView) -> bool {
        forall|i: int|
            0 <= i < self.stack.len() ==> index.records.contains_key(
                (#[trigger] self.stack[i]).id,
            )
    }
}

/// A resumable scan.
pub struct UsageScanner<S: ObservationSource> {
    source: S,
    stack: Vec<Frame<S::Cursor>>,
    visited: IdentityMap<()>,
    root_id: String,
    root_mount: u64,
    root_open_failed: bool,
    limits: ScanLimits,
    cancellation: Cancellation,
    phase: ScanPhase,
    shared_bytes: usize,
    revision: u64,
    unfit: bool,
    pub stats: ScanStats,
    pub issues: Issues,
}

impl<S: ObservationSource> View for UsageScanner<S> {
    type V = ScannerView;

    closed spec fn view(&self) -> ScannerView {
        ScannerView {
            stack: frames(self.stack@),
            visited: self.visited@.dom(),
            root_id: self.root_id@,
            root_mount: self.root_mount,
            root_open_failed: self.root_open_failed,
            limits: self.limits,
            phase: self.phase,
            revision: self.revision,
            unfit: self.unfit,
            stats: self.stats,
            issues: self.issues@,
        }
    }
}

/// What a scan reads with: the source, the token, and the cursors of the directories on the stack.
#[verifier::ext_equal]
pub struct Reader<S: ObservationSource> {
    pub source: S,
    pub token: Cancellation,
    pub cursors: Seq<Option<S::Cursor>>,
}

/// The cursors of the frames.
spec fn cursors<C>(stack: Seq<Frame<C>>) -> Seq<Option<C>> {
    Seq::new(stack.len(), |i: int| stack[i].cursor)
}

impl<S: ObservationSource> Reader<S> {
    /// Whether asking the source comes to this: where the directory that is being read has a
    /// cursor, the answer is what the source gives on it, and nothing else changes; one that
    /// cannot be read on is at its end, and the source is not called.
    pub open spec fn asks(
        self,
        after: Reader<S>,
        next: Result<Option<Observation>, FsIssue>,
    ) -> bool {
        match self.cursors.last() {
            Some(from) => {
                &&& after.token == self.token
                &&& after.cursors.len() == self.cursors.len()
                &&& after.cursors.drop_last() == self.cursors.drop_last()
                &&& after.cursors.last() is Some
                &&& S::gives(&self.source, &from, &after.source, &after.cursors.last()->0, next)
            },
            None => next == Ok::<Option<Observation>, FsIssue>(None) && after == self,
        }
    }

    /// The same with the first `n` directories alone.
    pub open spec fn kept(self, n: nat) -> Reader<S> {
        Reader { cursors: self.cursors.take(n as int), ..self }
    }

    /// The same after a reply that leaves `n` directories. One that failed is not read on.
    pub open spec fn after_reply(self, reply: Reply, n: nat) -> Reader<S> {
        if reply is Failed {
            Reader { cursors: self.cursors.drop_last().push(None), ..self }
        } else {
            self.kept(n)
        }
    }

    /// The same with one more directory, with the cursor that was opened for it.
    pub open spec fn with(self, opened: Result<S::Cursor, FsIssue>) -> Reader<S> {
        Reader {
            cursors: self.cursors.push(
                match opened {
                    Ok(cursor) => Some(cursor),
                    Err(_) => None,
                },
            ),
            ..self
        }
    }
}

proof fn lemma_shared_top(stack: Seq<FrameView>, frame: FrameView)
    requires
        stack.len() > 0,
    ensures
        shared_count(stack.drop_last().push(frame)) == shared_count(stack)
            - stack.last().aggregate.shared.len() + frame.aggregate.shared.len(),
        stack.last().aggregate.shared.len() <= shared_count(stack),
{
    assert(stack.drop_last().push(frame).drop_last() =~= stack.drop_last());
}

proof fn lemma_shared_same(a: Seq<FrameView>, b: Seq<FrameView>)
    requires
        a.len() == b.len(),
        forall|i: int|
            0 <= i < a.len() ==> (#[trigger] a[i]).aggregate.shared == b[i].aggregate.shared,
    ensures
        shared_count(a) == shared_count(b),
    decreases a.len(),
{
    if a.len() > 0 {
        assert forall|i: int| 0 <= i < a.drop_last().len() implies (
        #[trigger] a.drop_last()[i]).aggregate.shared == b.drop_last()[i].aggregate.shared by {
            assert(a[i].aggregate.shared == b[i].aggregate.shared);
        }
        lemma_shared_same(a.drop_last(), b.drop_last());
        assert(a[a.len() - 1].aggregate.shared == b[b.len() - 1].aggregate.shared);
    }
}

/// A sum is published with a number of at most 128 bits and with its reasons in order.
proof fn lemma_measured(sum: aggregate::SumView, running: bool)
    requires
        sum.bytes <= u128::MAX,
    ensures
        summary::is_measured(sum.measured(running)),
{
    let reasons = if running {
        sum.reasons.insert(Reason::Scanning)
    } else {
        sum.reasons
    };
    aggregate::lemma_ordered(reasons);
}

impl<S: ObservationSource> UsageScanner<S> {
    /// The directories on the stack are in order, and the room for hard-linked files is what
    /// they remember.
    pub closed spec fn inv(&self) -> bool {
        &&& self.visited.wf()
        &&& self@.visited.finite()
        &&& forall|i: int| 0 <= i < self.stack@.len() ==> (#[trigger] self.stack@[i]).aggregate.wf()
        &&& forall|i: int|
            0 <= i < self@.stack.len() ==> (
            #[trigger] self@.stack[i]).aggregate.shared.dom().finite()
        &&& self.shared_bytes == SHARED_BYTES * shared_count(self@.stack)
        &&& self.shared_bytes <= self.limits.hardlink_bytes
    }

    /// What the scan reads with.
    pub closed spec fn reader(&self) -> Reader<S> {
        Reader { source: self.source, token: self.cancellation, cursors: cursors(self.stack@) }
    }

    /// Where the observations come from.
    pub open spec fn source_now(&self) -> S {
        self.reader().source
    }

    /// A directory on the stack can be read on while it has a cursor.
    pub proof fn a_directory_is_open_by_its_cursor(&self, i: int)
        requires
            0 <= i < self@.stack.len(),
        ensures
            self.reader().cursors.len() == self@.stack.len(),
            self@.stack[i].open <==> self.reader().cursors[i] is Some,
    {
        assert(self@.stack[i] == self.stack@[i]@);
    }

    /// The scan is in order, and runs while there is a directory on the stack.
    pub open spec fn wf(&self) -> bool {
        self.inv() && self@.wf()
    }

    /// The scan together with the index that it publishes to.
    pub open spec fn with_index(&self, index: &DirectoryIndex) -> Progress {
        Progress { scan: self@, index: index@ }
    }

    /// Whether summaries of this scan can be published to the index.
    pub open spec fn publishable(&self, index: &DirectoryIndex) -> bool {
        index.wf() && self@.on(index@)
    }

    /// Whether what was published from one state of a scan and an index to another fitted its room
    /// wherever every summary does.
    pub open spec fn fits(
        before: &Self,
        index_before: &DirectoryIndex,
        after: &Self,
        index_after: &DirectoryIndex,
        at: Seq<char>,
    ) -> bool {
        &&& index_after@.prefix == index_before@.prefix
        &&& summary::room_for_summaries(index_before@.prefix, at) ==> after@.unfit == before@.unfit
    }

    /// Publishes the summary of a frame, and says whether it fits its room. Where the room is
    /// enough for every summary it does, because its directory is registered.
    fn publish(
        &self,
        index: &mut DirectoryIndex,
        frame: &Frame<S::Cursor>,
        running: bool,
        observed_at: &str,
    ) -> (published: (u64, bool))
        requires
            old(index).wf(),
            old(index)@.records.contains_key(frame@.id),
        ensures
            final(index).wf(),
            final(index).same_holds(old(index)),
            forall|pools: &IndexPools| old(index).backed(pools) ==> final(index).backed(pools),
            ({
                let before = self.with_index(old(index));
                let after = before.published(frame@, running, observed_at@);
                &&& published.0 == after.scan.revision
                &&& published.1 == (before.index.usage_answer(
                    before.summary(frame@, running, observed_at@),
                ) is Ok)
                &&& final(index)@ == after.index
            }),
            summary::room_for_summaries(old(index)@.prefix, observed_at@) ==> published.1,
            final(index)@.prefix == old(index)@.prefix,
            final(index)@.records.dom() == old(index)@.records.dom(),
    {
        let revision: u64 = self.revision.saturating_add(1);
        let usage = DirectoryUsage {
            directory_id: frame.id.clone(),
            usage_revision: revision,
            scan_state: if running {
                ScanState::Running
            } else if self.phase == ScanPhase::Cancelled {
                ScanState::Cancelled
            } else if self.root_open_failed && same_text(
                frame.id.as_str(),
                self.root_id.as_str(),
            ) {
                ScanState::Failed
            } else {
                ScanState::Settled
            },
            logical: frame.aggregate.logical.measure(running),
            allocated: frame.aggregate.allocated.measure(running),
            observed_at: observed_at.to_owned(),
        };
        let ghost shown = usage@;
        proof {
            let before = self.with_index(index);
            assert(shown =~= before.summary(frame@, running, observed_at@));
            index.lemma_wf();
            assert(crate::domain::index::numbered(
                index@.prefix,
                index@.next as nat,
                frame.id@,
            ));
            let n = choose|n: nat|
                1 <= n <= index@.next as nat && frame.id@ == #[trigger] crate::domain::index::id_text(
                    index@.prefix,
                    n,
                );
            lemma_measured(frame.aggregate@.logical, running);
            lemma_measured(frame.aggregate@.allocated, running);
            if summary::room_for_summaries(index@.prefix, observed_at@) {
                summary::summaries_always_fit(shown, index@.prefix, n);
            }
            assert(index@.with_usage(shown).records.dom() =~= index@.records.dom());
        }
        let stored = index.set_usage(usage);
        (revision, stored.is_ok())
    }

    /// Closes the directory that is being read.
    #[verifier::spinoff_prover]
    #[verifier::rlimit(40)]
    fn pop(&mut self, index: &mut DirectoryIndex, observed_at: &str)
        requires
            old(self).inv(),
            old(self)@.stack.len() > 0,
            old(self).publishable(old(index)),
        ensures
            final(self).inv(),
            final(self).publishable(final(index)),
            final(index).same_holds(old(index)),
            forall|pools: &IndexPools| old(index).backed(pools) ==> final(index).backed(pools),
            final(self).with_index(final(index)) == old(self).with_index(old(index)).popped(
                observed_at@,
            ),
            final(self)@.stack.len() == old(self)@.stack.len() - 1,
            final(self).reader() == old(self).reader().kept(final(self)@.stack.len()),
            Self::fits(old(self), old(index), final(self), final(index), observed_at@),
    {
        let ghost before = self.with_index(index);
        let ghost stack = self.stack@;
        assert(before.scan.stack.len() == stack.len());
        let frame = match self.stack.pop() {
            Some(frame) => frame,
            None => {
                assert(false);
                return;
            },
        };
        let ghost rest = before.scan.stack.drop_last();
        proof {
            assert(frames(self.stack@) =~= rest);
            assert(before.scan.stack.last() == frame@);
            assert(index@.records.contains_key(before.scan.stack[stack.len() - 1].id));
            assert(stack[stack.len() - 1].aggregate.wf());
            lemma_shared_top(before.scan.stack, frame@);
        }
        let ghost popped = self.with_index(index);
        let (revision, fits): (u64, bool) = self.publish(index, &frame, false, observed_at);
        self.revision = revision;
        if !fits {
            self.unfit = true;
        }
        let ghost published = popped.published(frame@, false, observed_at@);
        assert(self.with_index(index) =~= published);
        let len: usize = self.stack.len();
        if len > 0 {
            proof {
                assert(shared_count(before.scan.stack) == shared_count(rest)
                    + frame@.aggregate.shared.len());
                frame.aggregate.shared.lemma_finite();
                assert(rest.last() == self.stack@[len - 1]@);
                assert(self.stack@[len - 1].aggregate.wf()) by {
                    assert(stack[len - 1] == self.stack@[len - 1]);
                }
                lemma_shared_top(rest, rest.last());
            }
            let ghost held = self.stack@;
            let ghost child = frame.aggregate@;
            let top = &mut self.stack[len - 1];
            top.aggregate.merge(frame.aggregate, &mut self.shared_bytes);
            proof {
                let after = self.stack@;
                let merged = FrameView {
                    aggregate: rest.last().aggregate.merged(child),
                    ..rest.last()
                };
                assert(after[len - 1]@ =~= merged);
                assert(frames(after) =~= rest.drop_last().push(merged));
                lemma_shared_top(rest, merged);
                after[len - 1].aggregate.shared.lemma_finite();
                assert forall|i: int| 0 <= i < after.len() implies (
                #[trigger] after[i]).aggregate.wf() by {
                    if i < len - 1 {
                        assert(after[i] == held[i]);
                        assert(held[i] == stack[i]);
                    }
                }
                assert forall|i: int| 0 <= i < self@.stack.len() implies (
                #[trigger] self@.stack[i]).aggregate.shared.dom().finite() by {
                    if i < len - 1 {
                        assert(self@.stack[i] == before.scan.stack[i]);
                    }
                }
                assert(self.with_index(index) =~= before.popped(observed_at@));
                assert forall|i: int| 0 <= i < after.len() implies (#[trigger] after[i]).cursor
                    == stack[i].cursor by {
                    if i < len - 1 {
                        assert(after[i] == held[i]);
                    }
                    assert(held[i] == stack[i]);
                }
                assert(self.reader() =~= old(self).reader().kept(len as nat));
                assert forall|i: int| 0 <= i < self@.stack.len() implies index@.records.contains_key(
                    (#[trigger] self@.stack[i]).id,
                ) by {
                    assert(self@.stack[i].id == before.scan.stack[i].id);
                }
            }
        } else {
            self.shared_bytes = 0;
            if self.phase != ScanPhase::Cancelled {
                self.phase = ScanPhase::Completed;
            }
            assert(self.with_index(index) =~= before.popped(observed_at@));
            assert(self.reader() =~= old(self).reader().kept(0));
        }
    }

    /// Ends the scan early. What was summed so far is published.
    #[verifier::spinoff_prover]
    #[verifier::rlimit(40)]
    fn stop_partial(&mut self, index: &mut DirectoryIndex, reason: Reason, observed_at: &str)
        requires
            old(self).wf(),
            old(self)@.stack.len() > 0,
            old(self).publishable(old(index)),
        ensures
            final(self).wf(),
            final(self).publishable(final(index)),
            final(index).same_holds(old(index)),
            forall|pools: &IndexPools| old(index).backed(pools) ==> final(index).backed(pools),
            final(self).with_index(final(index)) == old(self).with_index(old(index)).stopped(
                reason,
                observed_at@,
            ),
            final(self)@.stack.len() == 0,
            final(self).reader() == old(self).reader().kept(0),
            Self::fits(old(self), old(index), final(self), final(index), observed_at@),
    {
        let ghost before = self.with_index(index);
        let ghost held = self.stack@;
        if reason == Reason::Cancelled {
            self.phase = ScanPhase::Cancelled;
        }
        let len: usize = self.stack.len();
        let mut i: usize = 0;
        while i < len
            invariant
                i <= len,
                len == self.stack@.len(),
                len == held.len(),
                before.scan.stack == frames(held),
                self.source == old(self).source,
                self.cancellation == old(self).cancellation,
                forall|j: int| 0 <= j < held.len() ==> (#[trigger] held[j]).aggregate.wf(),
                forall|j: int|
                    0 <= j < len ==> (#[trigger] self.stack@[j]).aggregate.wf()
                        && self.stack@[j].cursor == held[j].cursor && self.stack@[j]@
                        == (if j < i {
                        FrameView {
                            aggregate: held[j]@.aggregate.because(reason),
                            ..held[j]@
                        }
                    } else {
                        held[j]@
                    }),
                self@ == (ScannerView {
                    stack: frames(self.stack@),
                    phase: self.phase,
                    ..before.scan
                }),
                self.visited.wf(),
                self@.visited.finite(),
                self.phase == (if reason is Cancelled {
                    ScanPhase::Cancelled
                } else {
                    before.scan.phase
                }),
                self.shared_bytes == SHARED_BYTES * shared_count(before.scan.stack),
            decreases len - i,
        {
            let ghost now = self.stack@;
            let frame = &mut self.stack[i];
            frame.aggregate.reason(reason);
            proof {
                assert forall|j: int| 0 <= j < len implies (
                #[trigger] self.stack@[j]).aggregate.wf() && self.stack@[j].cursor
                    == held[j].cursor && self.stack@[j]@ == (if j < i + 1 {
                    FrameView { aggregate: held[j]@.aggregate.because(reason), ..held[j]@ }
                } else {
                    held[j]@
                }) by {
                    if j != i {
                        assert(self.stack@[j] == now[j]);
                    } else {
                        assert(now[j]@ == held[j]@);
                        assert(self.stack@[j]@ =~= (FrameView {
                            aggregate: held[j]@.aggregate.because(reason),
                            ..held[j]@
                        }));
                    }
                }
            }
            i = i + 1;
        }
        let ghost wanted = before.stopped(reason, observed_at@);
        proof {
            let marked = Seq::new(
                before.scan.stack.len(),
                |i: int|
                    FrameView {
                        aggregate: before.scan.stack[i].aggregate.because(reason),
                        ..before.scan.stack[i]
                    },
            );
            assert(self@.stack =~= marked);
            lemma_shared_same(self@.stack, before.scan.stack);
            assert forall|j: int| 0 <= j < self@.stack.len() implies (
            #[trigger] self@.stack[j]).aggregate.shared.dom().finite() && index@.records.contains_key(
            self@.stack[j].id) by {
                assert(self@.stack[j].aggregate.shared == before.scan.stack[j].aggregate.shared);
                assert(self@.stack[j].id == before.scan.stack[j].id);
            }
            assert(self.with_index(index).drained(observed_at@) == wanted);
            assert(self.reader() =~= old(self).reader().kept(self@.stack.len()));
        }
        while self.stack.len() > 0
            invariant
                self.inv(),
                self.publishable(index),
                index.same_holds(old(index)),
                forall|pools: &IndexPools| old(index).backed(pools) ==> index.backed(pools),
                self.with_index(index).drained(observed_at@) == wanted,
                self@.stack.len() == 0 ==> !(self@.phase is Running),
                self@.stack.len() == self.stack@.len(),
                self@.stack.len() <= old(self)@.stack.len(),
                old(self)@.stack.len() == old(self).reader().cursors.len(),
                self.reader() == old(self).reader().kept(self@.stack.len()),
                Self::fits(old(self), old(index), self, index, observed_at@),
            decreases self.stack@.len(),
        {
            self.pop(index, observed_at);
            assert(self.reader() =~= old(self).reader().kept(self@.stack.len()));
        }
    }
}

/// How the root came to be read, or not.
pub enum Opening<C> {
    Cancelled,
    Limited,
    Opened(C),
    Failed(FsIssue),
}

/// How the root came to be read, or not.
pub enum OpeningView {
    Cancelled,
    Limited,
    Opened,
    Failed(IssueView),
}

impl<C> View for Opening<C> {
    type V = OpeningView;

    open spec fn view(&self) -> OpeningView {
        match self {
            Opening::Cancelled => OpeningView::Cancelled,
            Opening::Limited => OpeningView::Limited,
            Opening::Opened(_) => OpeningView::Opened,
            Opening::Failed(issue) => OpeningView::Failed(issue@),
        }
    }
}

impl<C> Opening<C> {
    /// The cursor that was opened for the root, if one was.
    pub open spec fn cursor(self) -> Option<C> {
        match self {
            Opening::Opened(cursor) => Some(cursor),
            _ => None,
        }
    }
}

impl ScanLimits {
    /// Whether not even the root can be read within the limits.
    pub open spec fn excludes_root(self) -> bool {
        self.max_open_directories == 0 || self.working_bytes < FRAME_BYTES + VISITED_BYTES
    }

    fn exclude_root(&self) -> (excluded: bool)
        ensures
            excluded == self.excludes_root(),
    {
        self.max_open_directories == 0 || self.working_bytes < FRAME_BYTES + VISITED_BYTES
    }
}

/// How the root came to be read, by what the token told first and, where the source was called
/// then, by what it answered and by what the token told right after the call. A stop that the
/// token told of comes before anything else, then what the limits exclude; what the source
/// answered counts only where neither answer tells of a stop.
pub open spec fn root_opening<C>(
    first: bool,
    limits: ScanLimits,
    reply: Option<(Result<C, FsIssue>, bool)>,
) -> Opening<C> {
    if first {
        Opening::Cancelled
    } else if limits.excludes_root() {
        Opening::Limited
    } else {
        match reply {
            Some((opened, second)) => if second {
                Opening::Cancelled
            } else {
                match opened {
                    Ok(cursor) => Opening::Opened(cursor),
                    Err(issue) => Opening::Failed(issue),
                }
            },
            None => Opening::Cancelled,
        }
    }
}

/// How the root came to be read, by what the token told first and, where the source was called
/// then, by what it answered and by what the token told right after the call.
pub fn settle_opening<C>(
    first: bool,
    limits: ScanLimits,
    reply: Option<(Result<C, FsIssue>, bool)>,
) -> (opening: Opening<C>)
    ensures
        opening == root_opening(first, limits, reply),
{
    if first {
        return Opening::Cancelled;
    }
    if limits.exclude_root() {
        return Opening::Limited;
    }
    match reply {
        Some((opened, second)) => {
            if second {
                return Opening::Cancelled;
            }
            match opened {
                Ok(cursor) => Opening::Opened(cursor),
                Err(issue) => Opening::Failed(issue),
            }
        },
        None => Opening::Cancelled,
    }
}

impl ScannerView {
    /// A scan that has just begun.
    pub open spec fn begun(
        root: ObservationView,
        root_id: Seq<char>,
        limits: ScanLimits,
        opening: OpeningView,
    ) -> ScannerView {
        let own = AggregateView::zero().with_own(root);
        ScannerView {
            stack: seq![
                FrameView {
                    id: root_id,
                    open: opening is Opened,
                    aggregate: match opening {
                        OpeningView::Cancelled => own.because(Reason::Cancelled),
                        OpeningView::Limited => own.because(Reason::ResourceLimit),
                        OpeningView::Opened => own,
                        OpeningView::Failed(issue) => own.because(failure_reason(issue.code)),
                    },
                },
            ],
            visited: match root.identity {
                Some(key) => Set::empty().insert(key),
                None => Set::empty(),
            },
            root_id,
            root_mount: root.mount,
            root_open_failed: opening matches OpeningView::Failed(issue) && issue.code
                != "RESOURCE_LIMIT"@,
            limits,
            phase: ScanPhase::Running,
            revision: 0,
            unfit: false,
            stats: ScanStats {
                processed_entries: 0,
                processed_directories: 1,
                peak_open_directories: if opening is Opened {
                    1
                } else {
                    0
                },
                peak_hardlink_bytes: 0,
                peak_working_bytes: (FRAME_BYTES + VISITED_BYTES) as usize,
            },
            issues: match opening {
                OpeningView::Failed(issue) => IssuesView::none().with(issue),
                _ => IssuesView::none(),
            },
        }
    }
}

/// A directory that was found and is to be opened.
pub struct Pending {
    id: String,
    observation: Observation,
    working: usize,
}

/// Which directory is to be opened, under which id, and what the stack takes with it.
#[verifier::ext_equal]
pub struct PendingView {
    pub id: Seq<char>,
    pub observation: ObservationView,
    pub working: nat,
}

impl View for Pending {
    type V = PendingView;

    closed spec fn view(&self) -> PendingView {
        PendingView {
            id: self.id@,
            observation: self.observation@,
            working: self.working as nat,
        }
    }
}

impl Pending {
    /// What was observed of the directory.
    pub fn observation(&self) -> (observation: &Observation)
        ensures
            observation@ == self@.observation,
    {
        &self.observation
    }
}

impl<S: ObservationSource> UsageScanner<S> {
    /// A scan of a registered root, after it was opened or not.
    pub fn with_root(
        source: S,
        root: &Observation,
        root_id: String,
        limits: ScanLimits,
        cancellation: Cancellation,
        opening: Opening<S::Cursor>,
    ) -> (scanner: Self)
        ensures
            scanner.wf(),
            scanner@ == ScannerView::begun(root@, root_id@, limits, opening@),
            scanner.reader() == (Reader {
                source,
                token: cancellation,
                cursors: seq![opening.cursor()],
            }),
    {
        let ghost given = opening@;
        let ghost held = opening.cursor();
        let mut aggregate = Aggregate::new();
        aggregate.add_own(root);
        let mut issues = Issues::default();
        let mut root_open_failed = false;
        let cursor: Option<S::Cursor> = match opening {
            Opening::Cancelled => {
                aggregate.reason(Reason::Cancelled);
                None
            },
            Opening::Limited => {
                aggregate.reason(Reason::ResourceLimit);
                None
            },
            Opening::Opened(cursor) => Some(cursor),
            Opening::Failed(issue) => {
                root_open_failed = !same_text(issue.code.as_str(), "RESOURCE_LIMIT");
                aggregate.reason(source_error_reason(&issue));
                issues.record(issue);
                None
            },
        };
        let mut visited: IdentityMap<()> = IdentityMap::new();
        if let Some(key) = root.identity {
            visited.insert(key, ());
        }
        let root_open: usize = if cursor.is_some() {
            1
        } else {
            0
        };
        let frame = Frame { id: root_id.clone(), cursor, aggregate };
        let ghost shown = frame@;
        let mut stack: Vec<Frame<S::Cursor>> = Vec::new();
        stack.push(frame);
        let scanner = UsageScanner {
            source,
            stack,
            visited,
            root_id,
            root_mount: root.mount,
            root_open_failed,
            limits,
            cancellation,
            phase: ScanPhase::Running,
            shared_bytes: 0,
            revision: 0,
            unfit: false,
            stats: ScanStats {
                processed_entries: 0,
                processed_directories: 1,
                peak_open_directories: root_open,
                peak_hardlink_bytes: 0,
                peak_working_bytes: FRAME_BYTES + VISITED_BYTES,
            },
            issues,
        };
        proof {
            let wanted = ScannerView::begun(root@, root_id@, limits, given);
            scanner.visited.lemma_finite();
            assert(scanner@.stack =~= wanted.stack);
            assert(scanner@.visited =~= wanted.visited);
            assert(scanner@ =~= wanted);
            assert(scanner.reader().cursors =~= seq![held]);
            scanner.stack@[0].aggregate.shared.lemma_finite();
            assert(scanner@.stack.drop_last() =~= Seq::<FrameView>::empty());
            assert(shared_count(scanner@.stack.drop_last()) == 0);
            assert(scanner@.stack[0].aggregate.shared =~= Map::<
                FileIdentity,
                aggregate::SharedSize,
            >::empty());
            assert(shared_count(scanner@.stack) == 0);
        }
        scanner
    }

    /// What a new scan is, given what became of its root's registration at some cost and of its
    /// opening by the source.
    pub open spec fn began(
        result: Result<Self, &'static str>,
        cost: nat,
        registered: Result<String, IndexError>,
        source: S,
        root: ObservationView,
        limits: ScanLimits,
        token: Cancellation,
        opening: Opening<S::Cursor>,
    ) -> bool {
        match registered {
            Err(_) => result is Err && result->Err_0@ == "RESOURCE_LIMIT"@,
            Ok(id) => {
                &&& result is Ok
                &&& result->Ok_0.wf()
                &&& result->Ok_0@ == ScannerView::begun(root, id@, limits, opening@)
                &&& result->Ok_0.reader().token == token
                &&& result->Ok_0.reader().cursors == seq![opening.cursor()]
                &&& Self::root_opens(
                    source,
                    root,
                    limits,
                    &token,
                    result->Ok_0.reader().source,
                    opening,
                )
            },
        }
    }

    /// What registering a root does, at some cost.
    pub open spec fn root_registration(
        index_before: &DirectoryIndex,
        pools_before: &IndexPools,
        index_after: &DirectoryIndex,
        pools_after: &IndexPools,
        root: ObservationView,
        cost: nat,
        registered: Result<String, IndexError>,
    ) -> bool {
        &&& DirectoryIndex::registration(
            index_before,
            pools_before,
            index_after,
            pools_after,
            KeyView { parent_id: None, raw_name: root.raw_name },
            Origin::Background,
            cost,
            registered,
        )
        &&& index_before@.may_cost(KeyView { parent_id: None, raw_name: root.raw_name }, cost)
    }

    /// Registers a root for a scan and gives its id.
    pub fn register_root(
        root: &Observation,
        index: &mut DirectoryIndex,
        pools: &mut IndexPools,
    ) -> (id: Result<String, &'static str>)
        requires
            old(index).wf(),
            old(index).backed(old(pools)),
        ensures
            final(index).wf(),
            final(index).backed(final(pools)),
            final(index).same_holds(old(index)),
            if root@.kind is Directory {
                exists|cost: nat, registered: Result<String, IndexError>|
                    {
                        &&& #[trigger] Self::root_registration(
                            old(index),
                            old(pools),
                            final(index),
                            final(pools),
                            root@,
                            cost,
                            registered,
                        )
                        &&& match registered {
                            Ok(given) => {
                                &&& id is Ok
                                &&& id->Ok_0@ == given@
                                &&& final(index)@.records.contains_key(given@)
                            },
                            Err(_) => id is Err && id->Err_0@ == "RESOURCE_LIMIT"@,
                        }
                    }
            } else {
                &&& id is Err
                &&& id->Err_0@ == "NOT_DIRECTORY"@
                &&& final(index)@ == old(index)@
                &&& final(pools).background@ == old(pools).background@
                &&& final(pools).foreground@ == old(pools).foreground@
            },
    {
        if root.kind != Kind::Directory {
            return Err("NOT_DIRECTORY");
        }
        let key = DirectoryKey {
            parent_id: None,
            raw_name: crate::domain::index::copy_bytes(&root.raw_name),
        };
        let ghost before = *index;
        let ghost shown_key = key@;
        let registered = index.register(pools, key, Origin::Background);
        let ghost answer = registered;
        let ghost cost = choose|cost: nat|
            {
                &&& #[trigger] DirectoryIndex::registration(
                    &before,
                    old(pools),
                    index,
                    pools,
                    shown_key,
                    Origin::Background,
                    cost,
                    answer,
                )
                &&& before@.may_cost(shown_key, cost)
            };
        assert(shown_key =~= (KeyView { parent_id: None, raw_name: root@.raw_name }));
        assert(Self::root_registration(
            &before,
            old(pools),
            index,
            pools,
            root@,
            cost,
            answer,
        ));
        match registered {
            Ok(id) => {
                proof {
                    index.lemma_wf();
                    lemma_registered_id(
                        before@,
                        DirectoryIndex::pool(old(pools), Origin::Background),
                        shown_key,
                        cost,
                        index@,
                        id@,
                    );
                }
                Ok(id)
            },
            Err(_) => Err("RESOURCE_LIMIT"),
        }
    }

    /// Whether opening a root comes to this. A stop that the token told of comes before anything
    /// else; what the source answers counts only where the token told of none afterwards.
    pub open spec fn root_opens(
        before: S,
        root: ObservationView,
        limits: ScanLimits,
        cancellation: &Cancellation,
        after: S,
        opening: Opening<S::Cursor>,
    ) -> bool {
        match opening {
            Opening::Cancelled => {
                &&& cancellation.tells(true)
                &&& after == before || !limits.excludes_root() && exists|
                    opened: Result<S::Cursor, FsIssue>,
                | #[trigger] S::opens(&before, root, &after, opened)
            },
            Opening::Limited => {
                &&& cancellation.tells(false)
                &&& limits.excludes_root()
                &&& after == before
            },
            Opening::Opened(cursor) => {
                &&& cancellation.tells(false)
                &&& !limits.excludes_root()
                &&& S::opens(&before, root, &after, Ok(cursor))
            },
            Opening::Failed(issue) => {
                &&& cancellation.tells(false)
                &&& !limits.excludes_root()
                &&& S::opens(&before, root, &after, Err(issue))
            },
        }
    }

    /// Whether this is what was told and answered when a root was opened: what the token told
    /// first and, where the source was called then, what it answered and what the token told
    /// afterwards.
    pub open spec fn root_looks(
        before: S,
        root: ObservationView,
        limits: ScanLimits,
        cancellation: &Cancellation,
        after: S,
        first: bool,
        reply: Option<(Result<S::Cursor, FsIssue>, bool)>,
    ) -> bool {
        &&& cancellation.tells(first)
        &&& match reply {
            Some((opened, second)) => {
                &&& !first
                &&& !limits.excludes_root()
                &&& S::opens(&before, root, &after, opened)
                &&& cancellation.tells(second)
            },
            None => {
                &&& first || limits.excludes_root()
                &&& after == before
            },
        }
    }

    /// Has a root opened by the source, and says whether a stop was asked for meanwhile.
    pub fn look_at_root(source: &mut S, root: &Observation, cancellation: &Cancellation) -> (
    looked: (Result<S::Cursor, FsIssue>, bool))
        ensures
            S::opens(old(source), root@, final(source), looked.0),
            cancellation.tells(looked.1),
    {
        let opened = source.open(root);
        (opened, cancellation.is_cancelled())
    }

    /// Opens a root, unless a stop was asked for or the limits exclude it. Cancellation is
    /// checked before the source is called and again afterwards; what a cancelled scan opened is
    /// not read.
    pub fn open_root(
        source: &mut S,
        root: &Observation,
        limits: ScanLimits,
        cancellation: &Cancellation,
    ) -> (opening: Opening<S::Cursor>)
        ensures
            Self::root_opens(*old(source), root@, limits, cancellation, *final(source), opening),
            exists|first: bool, reply: Option<(Result<S::Cursor, FsIssue>, bool)>|
                {
                    &&& opening == #[trigger] root_opening(first, limits, reply)
                    &&& Self::root_looks(
                        *old(source),
                        root@,
                        limits,
                        cancellation,
                        *final(source),
                        first,
                        reply,
                    )
                },
    {
        let first = cancellation.is_cancelled();
        let reply = if first || limits.exclude_root() {
            None
        } else {
            Some(Self::look_at_root(source, root, cancellation))
        };
        assert(Self::root_looks(
            *old(source),
            root@,
            limits,
            cancellation,
            *source,
            first,
            reply,
        ));
        settle_opening(first, limits, reply)
    }

    /// Registers the root and opens it.
    pub fn new(
        source: S,
        root: Observation,
        index: &mut DirectoryIndex,
        pools: &mut IndexPools,
        limits: ScanLimits,
        cancellation: Cancellation,
    ) -> (result: Result<Self, &'static str>)
        requires
            old(index).wf(),
            old(index).backed(old(pools)),
        ensures
            final(index).wf(),
            final(index).backed(final(pools)),
            final(index).same_holds(old(index)),
            if root@.kind is Directory {
                exists|
                    cost: nat,
                    opening: Opening<S::Cursor>,
                    registered: Result<String, IndexError>,
                |
                    {
                        &&& Self::root_registration(
                            old(index),
                            old(pools),
                            final(index),
                            final(pools),
                            root@,
                            cost,
                            registered,
                        )
                        &&& #[trigger] Self::began(
                            result,
                            cost,
                            registered,
                            source,
                            root@,
                            limits,
                            cancellation,
                            opening,
                        )
                        &&& result matches Ok(scanner) ==> scanner@.on(final(index)@)
                    }
            } else {
                &&& result is Err
                &&& result->Err_0@ == "NOT_DIRECTORY"@
                &&& final(index)@ == old(index)@
                &&& final(pools).background@ == old(pools).background@
                &&& final(pools).foreground@ == old(pools).foreground@
            },
    {
        let registered = Self::register_root(&root, index, pools);
        let ghost (cost, answer) = choose|cost: nat, answer: Result<String, IndexError>|
            {
                &&& #[trigger] Self::root_registration(
                    old(index),
                    old(pools),
                    index,
                    pools,
                    root@,
                    cost,
                    answer,
                )
                &&& match answer {
                    Ok(given) => {
                        &&& registered is Ok
                        &&& registered->Ok_0@ == given@
                        &&& index@.records.contains_key(given@)
                    },
                    Err(_) => registered is Err && registered->Err_0@ == "RESOURCE_LIMIT"@,
                }
            };
        let ghost first = source;
        let ghost token = cancellation;
        match registered {
            Ok(root_id) => {
                let mut source = source;
                let opening = Self::open_root(&mut source, &root, limits, &cancellation);
                let ghost shown = opening;
                let scanner = Self::with_root(
                    source,
                    &root,
                    root_id,
                    limits,
                    cancellation,
                    opening,
                );
                let result: Result<Self, &'static str> = Ok(scanner);
                assert(Self::began(
                    result,
                    cost,
                    answer,
                    first,
                    root@,
                    limits,
                    token,
                    shown,
                ));
                result
            },
            Err(code) => {
                let result: Result<Self, &'static str> = Err(code);
                assert(root@.kind is Directory ==> Self::began(
                    result,
                    cost,
                    answer,
                    first,
                    root@,
                    limits,
                    token,
                    Opening::<S::Cursor>::Cancelled,
                ));
                result
            },
        }
    }
}

/// A directory whose registration was answered with an id is in the index under it.
proof fn lemma_registered_id(
    before: IndexView,
    pool: PoolView,
    key: KeyView,
    cost: nat,
    after: IndexView,
    id: Seq<char>,
)
    requires
        after == before.registered(pool, key, Origin::Background, cost),
        before.register_answer(pool, key, Origin::Background, cost) == Ok::<
            Seq<char>,
            IndexError,
        >(id),
    ensures
        after.records.contains_key(id),
        after.prefix == before.prefix,
        forall|other: Seq<char>| #[trigger]
            before.records.contains_key(other) ==> after.records.contains_key(other),
{
}

/// What came of opening a directory.
pub open spec fn opening_of<C>(opened: Result<C, FsIssue>) -> Result<(), IssueView> {
    match opened {
        Ok(_) => Ok(()),
        Err(issue) => Err(issue@),
    }
}

proof fn lemma_open_count(stack: Seq<FrameView>, n: int)
    requires
        0 <= n < stack.len(),
    ensures
        open_count(stack.take(n + 1)) == open_count(stack.take(n)) + if stack[n].open {
            1nat
        } else {
            0
        },
{
    assert(stack.take(n + 1).drop_last() =~= stack.take(n));
}

impl<S: ObservationSource> UsageScanner<S> {
    /// What a reply does to the scan, to the index and to the pools, when registering a directory
    /// costs `cost`.
    pub open spec fn reception(
        before: &Self,
        index_before: &DirectoryIndex,
        pools_before: &IndexPools,
        after: &Self,
        index_after: &DirectoryIndex,
        pools_after: &IndexPools,
        reply: Reply,
        cost: nat,
        at: Seq<char>,
        pending: Option<Pending>,
    ) -> bool {
        let progress = before.with_index(index_before);
        let pool = pools_before.background@;
        &&& after.with_index(index_after) == progress.received(pool, reply, cost, at)
        &&& pools_after.foreground@ == pools_before.foreground@
        &&& match reply {
            Reply::Entry(observation) => {
                let key = progress.key_below(observation);
                &&& pools_after.background@ == (if observation.kind is Directory
                    && index_before@.registers(pool, key, Origin::Background, cost) {
                    pool.resized(index_before.background_id(), index_before@.background + cost)
                } else {
                    pool
                })
                &&& observation.kind is Directory ==> index_before@.may_cost(key, cost)
                &&& pending is Some <==> progress.wants_open(pool, observation, cost)
                &&& pending is Some ==> pending->0@ == (PendingView {
                    id: index_before@.register_answer(pool, key, Origin::Background, cost)->Ok_0,
                    observation,
                    working: progress.working(),
                })
            },
            _ => pending is None && pools_after.background@ == pool,
        }
    }

    /// Takes an entry that is not a directory into the sums.
    fn take_file(&mut self, index: &mut DirectoryIndex, observation: &Observation, observed_at: &str)
        requires
            old(self).wf(),
            old(self)@.stack.len() > 0,
            old(self).publishable(old(index)),
        ensures
            final(self).wf(),
            final(self).publishable(final(index)),
            final(index).same_holds(old(index)),
            forall|pools: &IndexPools| old(index).backed(pools) ==> final(index).backed(pools),
            final(self).with_index(final(index)) == old(self).with_index(old(index)).with_file(
                observation@,
                observed_at@,
            ),
            final(self).reader() == old(self).reader().kept(final(self)@.stack.len()),
            Self::fits(old(self), old(index), final(self), final(index), observed_at@),
    {
        let ghost before = self.with_index(index);
        let ghost held = self.stack@;
        self.stats.processed_entries = self.stats.processed_entries.saturating_add(1);
        let len: usize = self.stack.len();
        proof {
            assert(before.scan.stack.len() == held.len());
            assert(before.scan.stack.last() == held[len - 1]@);
            assert(held[len - 1].aggregate.wf());
        }
        let limit: usize = self.limits.hardlink_bytes;
        let top = &mut self.stack[len - 1];
        let counted = top.aggregate.file(observation, &mut self.shared_bytes, limit);
        let ghost room = before.has_link_room();
        proof {
            let after = self.stack@;
            let frame = FrameView {
                aggregate: before.scan.stack.last().aggregate.with_file(observation@, room),
                ..before.scan.stack.last()
            };
            assert(after[len - 1]@ =~= frame);
            assert(frames(after) =~= before.scan.stack.drop_last().push(frame));
            after[len - 1].aggregate.shared.lemma_finite();
            held[len - 1].aggregate.shared.lemma_finite();
            lemma_shared_top(before.scan.stack, frame);
            lemma_file_count(before.scan.stack.last().aggregate, observation@, room);
            assert forall|i: int| 0 <= i < after.len() implies (
            #[trigger] after[i]).aggregate.wf() by {
                if i < len - 1 {
                    assert(after[i] == held[i]);
                }
            }
            assert forall|i: int| 0 <= i < self@.stack.len() implies (
            #[trigger] self@.stack[i]).aggregate.shared.dom().finite()
                && index@.records.contains_key(self@.stack[i].id) by {
                assert(self@.stack[i].id == before.scan.stack[i].id);
                if i < len - 1 {
                    assert(self@.stack[i] == before.scan.stack[i]);
                }
            }
            assert(self.with_index(index) =~= before.counted().with_top(frame));
            assert forall|i: int| 0 <= i < after.len() implies (#[trigger] after[i]).cursor
                == held[i].cursor by {
                if i < len - 1 {
                    assert(after[i] == held[i]);
                }
            }
            assert(self.reader() =~= old(self).reader());
            assert(self.reader() =~= old(self).reader().kept(self@.stack.len()));
        }
        if !counted {
            self.stop_partial(index, Reason::ResourceLimit, observed_at);
        } else {
            let ghost summed = self.with_index(index);
            if self.shared_bytes > self.stats.peak_hardlink_bytes {
                self.stats.peak_hardlink_bytes = self.shared_bytes;
            }
            assert(self.with_index(index) =~= before.with_file(observation@, observed_at@));
        }
    }

    /// Why a directory is not entered, and what entering it would take.
    fn find_obstacle(
        &self,
        index: &DirectoryIndex,
        observation: &Observation,
    ) -> (found: (Option<Reason>, usize))
        requires
            self.inv(),
        ensures
            found.0 == self.with_index(index).obstacle(observation@),
            found.0 is None ==> found.1 == self.with_index(index).working(),
    {
        let len: usize = self.stack.len();
        let visited: usize = self.visited.len();
        let working: u128 = (len as u128 + 1) * 2048 + (visited as u128 + 1) * 96;
        let excluded = observation.mount != self.root_mount || match observation.identity {
            Some(key) => self.visited.get(key).is_some(),
            None => false,
        };
        let limited = len >= self.limits.max_open_directories || working
            > self.limits.working_bytes as u128;
        if excluded {
            (Some(Reason::ExcludedByPolicy), 0)
        } else if limited {
            (Some(Reason::ResourceLimit), 0)
        } else if observation.identity.is_none() {
            (Some(Reason::Unsupported), 0)
        } else {
            (None, working as usize)
        }
    }

    /// Registers a directory and decides whether to enter it.
    #[verifier::spinoff_prover]
    fn take_directory(
        &mut self,
        index: &mut DirectoryIndex,
        pools: &mut IndexPools,
        observation: Observation,
        observed_at: &str,
    ) -> (pending: Option<Pending>)
        requires
            old(self).wf(),
            old(self)@.stack.len() > 0,
            old(self).publishable(old(index)),
            old(index).backed(old(pools)),
            observation@.kind is Directory,
        ensures
            final(self).wf(),
            final(self).publishable(final(index)),
            final(index).backed(final(pools)),
            final(index).same_holds(old(index)),
            pending is Some ==> final(index)@.records.contains_key(pending->0@.id),
            pending is Some ==> 0 < final(self)@.stack.len(),
            pending is Some ==> final(self)@.stack.len() < final(self)@.limits.max_open_directories,
            exists|cost: nat| #[trigger]
                Self::reception(
                    old(self),
                    old(index),
                    old(pools),
                    final(self),
                    final(index),
                    final(pools),
                    Reply::Entry(observation@),
                    cost,
                    observed_at@,
                    pending,
                ),
            final(self).reader() == old(self).reader().kept(final(self)@.stack.len()),
            Self::fits(old(self), old(index), final(self), final(index), observed_at@),
    {
        let ghost scanner_before = *self;
        let ghost index_before = *index;
        let ghost before = self.with_index(index);
        let ghost held = self.stack@;
        let ghost pool = pools.background@;
        let len: usize = self.stack.len();
        proof {
            assert(before.scan.stack.len() == held.len());
            assert(before.scan.stack.last() == held[len - 1]@);
            index.lemma_wf();
        }
        self.stats.processed_entries = self.stats.processed_entries.saturating_add(1);
        let key = DirectoryKey {
            parent_id: Some(self.stack[len - 1].id.clone()),
            raw_name: crate::domain::index::copy_bytes(&observation.raw_name),
        };
        let ghost shown_key = key@;
        assert(shown_key =~= before.key_below(observation@));
        let registered = index.register(pools, key, Origin::Background);
        let ghost cost = choose|cost: nat|
            {
                &&& #[trigger] DirectoryIndex::registration(
                    &index_before,
                    old(pools),
                    index,
                    pools,
                    shown_key,
                    Origin::Background,
                    cost,
                    registered,
                )
                &&& index_before@.may_cost(shown_key, cost)
            };
        let ghost known = Progress { index: index@, ..before.counted() };
        proof {
            assert(self.with_index(index) =~= known);
            assert(self.reader() =~= old(self).reader());
            assert(self.reader() =~= old(self).reader().kept(self@.stack.len()));
            assert forall|i: int| 0 <= i < self@.stack.len() implies index@.records.contains_key(
                (#[trigger] self@.stack[i]).id,
            ) by {
                assert(before.scan.stack[i] == self@.stack[i]);
                assert(index_before@.records.contains_key(before.scan.stack[i].id));
            }
        }
        let id = match registered {
            Ok(id) => id,
            Err(_) => {
                self.stop_partial(index, Reason::ResourceLimit, observed_at);
                assert(Self::reception(
                    &scanner_before,
                    &index_before,
                    old(pools),
                    self,
                    index,
                    pools,
                    Reply::Entry(observation@),
                    cost,
                    observed_at@,
                    None,
                ));
                return None;
            },
        };
        let ghost shown_id = id@;
        proof {
            lemma_registered_id(index_before@, pool, shown_key, cost, index@, shown_id);
        }
        let (obstacle, working): (Option<Reason>, usize) = self.find_obstacle(
            index,
            &observation,
        );
        proof {
            let now = self.with_index(index);
            assert(now.working() == before.working());
            assert(now.excludes(observation@) == before.excludes(observation@));
            assert(now.obstacle(observation@) == before.obstacle(observation@));
        }
        if let Some(reason) = obstacle {
            self.leave_out(index, id, &observation, reason, observed_at);
            assert(Self::reception(
                &scanner_before,
                &index_before,
                old(pools),
                self,
                index,
                pools,
                Reply::Entry(observation@),
                cost,
                observed_at@,
                None,
            ));
            return None;
        }
        if let Some(key) = observation.identity {
            self.visited.insert(key, ());
        }
        proof {
            self.visited.lemma_finite();
            let wanted = ScannerView {
                visited: known.scan.visited.insert(observation@.identity->0),
                ..known.scan
            };
            assert(self@.visited =~= wanted.visited);
            assert(self@ =~= wanted);
        }
        let ghost shown_observation = observation@;
        let pending = Pending { id, observation, working };
        let result = Some(pending);
        proof {
            assert(result->0@ =~= (PendingView {
                id: shown_id,
                observation: shown_observation,
                working: before.working(),
            }));
            assert(Self::reception(
                &scanner_before,
                &index_before,
                old(pools),
                self,
                index,
                pools,
                Reply::Entry(shown_observation),
                cost,
                observed_at@,
                result,
            ));
        }
        result
    }

    /// Publishes a directory that is not entered, with its own sizes and the reason.
    fn leave_out(
        &mut self,
        index: &mut DirectoryIndex,
        id: String,
        observation: &Observation,
        reason: Reason,
        observed_at: &str,
    )
        requires
            old(self).wf(),
            old(self)@.stack.len() > 0,
            old(self).publishable(old(index)),
            old(index)@.records.contains_key(id@),
        ensures
            final(self).wf(),
            final(self).publishable(final(index)),
            final(index).same_holds(old(index)),
            forall|pools: &IndexPools| old(index).backed(pools) ==> final(index).backed(pools),
            ({
                let own = AggregateView::zero().with_own(observation@).because(reason);
                let frame = FrameView { id: id@, open: false, aggregate: own };
                let shown = old(self).with_index(old(index)).published(frame, false, observed_at@);
                let top = shown.scan.stack.last();
                final(self).with_index(final(index)) == shown.with_top(
                    FrameView { aggregate: top.aggregate.merged(own), ..top },
                )
            }),
            final(self).reader() == old(self).reader(),
            final(self)@.stack.len() == old(self)@.stack.len(),
            Self::fits(old(self), old(index), final(self), final(index), observed_at@),
    {
        let ghost before = self.with_index(index);
        let ghost held = self.stack@;
        let len: usize = self.stack.len();
        let mut own = Aggregate::new();
        own.add_own(observation);
        own.reason(reason);
        let frame: Frame<S::Cursor> = Frame { id, cursor: None, aggregate: own };
        let ghost shown_frame = frame@;
        let (revision, fits): (u64, bool) = self.publish(index, &frame, false, observed_at);
        self.revision = revision;
        if !fits {
            self.unfit = true;
        }
        let ghost child = frame.aggregate@;
        proof {
            assert(before.scan.stack.len() == held.len());
            assert(before.scan.stack.last() == held[len - 1]@);
            assert(held[len - 1].aggregate.wf());
            frame.aggregate.shared.lemma_finite();
            assert(child.shared =~= Map::<FileIdentity, aggregate::SharedSize>::empty());
        }
        let top = &mut self.stack[len - 1];
        top.aggregate.merge(frame.aggregate, &mut self.shared_bytes);
        proof {
            let after = self.stack@;
            let merged = FrameView {
                aggregate: before.scan.stack.last().aggregate.merged(child),
                ..before.scan.stack.last()
            };
            assert(after[len - 1]@ =~= merged);
            assert(frames(after) =~= before.scan.stack.drop_last().push(merged));
            after[len - 1].aggregate.shared.lemma_finite();
            lemma_shared_top(before.scan.stack, merged);
            assert forall|i: int| 0 <= i < after.len() implies (
            #[trigger] after[i]).aggregate.wf() by {
                if i < len - 1 {
                    assert(after[i] == held[i]);
                }
            }
            assert forall|i: int| 0 <= i < self@.stack.len() implies (
            #[trigger] self@.stack[i]).aggregate.shared.dom().finite()
                && index@.records.contains_key(self@.stack[i].id) by {
                assert(self@.stack[i].id == before.scan.stack[i].id);
                if i < len - 1 {
                    assert(self@.stack[i] == before.scan.stack[i]);
                }
            }
            let shown = before.published(shown_frame, false, observed_at@);
            assert(self.with_index(index) =~= shown.with_top(merged));
            assert forall|i: int| 0 <= i < after.len() implies (#[trigger] after[i]).cursor
                == held[i].cursor by {
                if i < len - 1 {
                    assert(after[i] == held[i]);
                }
            }
            assert(self.reader() =~= old(self).reader());
        }
    }

    /// Takes a reply of the source. A directory that is to be entered is handed back, to be
    /// opened.
    fn receive(
        &mut self,
        index: &mut DirectoryIndex,
        pools: &mut IndexPools,
        next: Result<Option<Observation>, FsIssue>,
        observed_at: &str,
    ) -> (pending: Option<Pending>)
        requires
            old(self).wf(),
            old(self)@.stack.len() > 0,
            old(self).publishable(old(index)),
            old(index).backed(old(pools)),
        ensures
            final(self).wf(),
            final(self).publishable(final(index)),
            final(index).backed(final(pools)),
            final(index).same_holds(old(index)),
            pending is Some ==> final(index)@.records.contains_key(pending->0@.id),
            pending is Some ==> 0 < final(self)@.stack.len(),
            pending is Some ==> final(self)@.stack.len() < final(self)@.limits.max_open_directories,
            exists|cost: nat| #[trigger]
                Self::reception(
                    old(self),
                    old(index),
                    old(pools),
                    final(self),
                    final(index),
                    final(pools),
                    reply_of(next),
                    cost,
                    observed_at@,
                    pending,
                ),
            final(self).reader() == old(self).reader().after_reply(
                reply_of(next),
                final(self)@.stack.len(),
            ),
            Self::fits(old(self), old(index), final(self), final(index), observed_at@),
    {
        let ghost scanner_before = *self;
        let ghost index_before = *index;
        let ghost before = self.with_index(index);
        let ghost reply = reply_of(next);
        let observation = match next {
            Ok(Some(observation)) => observation,
            Ok(None) => {
                self.pop(index, observed_at);
                assert(Self::reception(
                    &scanner_before,
                    &index_before,
                    old(pools),
                    self,
                    index,
                    pools,
                    reply,
                    0,
                    observed_at@,
                    None,
                ));
                return None;
            },
            Err(issue) => {
                self.note_failure(issue);
                proof {
                    assert(self.with_index(index) =~= before.received(
                        pools.background@,
                        reply,
                        0,
                        observed_at@,
                    ));
                    assert forall|i: int|
                        0 <= i < self@.stack.len() implies index@.records.contains_key(
                        (#[trigger] self@.stack[i]).id,
                    ) by {
                        assert(self@.stack[i].id == before.scan.stack[i].id);
                    }
                    assert(Self::reception(
                        &scanner_before,
                        &index_before,
                        old(pools),
                        self,
                        index,
                        pools,
                        reply,
                        0,
                        observed_at@,
                        None,
                    ));
                }
                return None;
            },
        };
        if observation.kind != Kind::Directory {
            self.take_file(index, &observation, observed_at);
            assert(Self::reception(
                &scanner_before,
                &index_before,
                old(pools),
                self,
                index,
                pools,
                reply,
                0,
                observed_at@,
                None,
            ));
            return None;
        }
        self.take_directory(index, pools, observation, observed_at)
    }

    /// Records that the directory that is being read cannot be read on.
    fn note_failure(&mut self, issue: FsIssue)
        requires
            old(self).wf(),
            old(self)@.stack.len() > 0,
        ensures
            final(self).wf(),
            final(self)@ == (ScannerView {
                stack: old(self)@.stack.drop_last().push(
                    FrameView {
                        open: false,
                        aggregate: old(self)@.stack.last().aggregate.because(
                            failure_reason(issue@.code),
                        ),
                        ..old(self)@.stack.last()
                    },
                ),
                issues: old(self)@.issues.with(issue@),
                ..old(self)@
            }),
            final(self).reader() == old(self).reader().after_reply(Reply::Failed(issue@), 0),
    {
        let ghost before = self@;
        let ghost held = self.stack@;
        let reason = source_error_reason(&issue);
        self.issues.record(issue);
        let len: usize = self.stack.len();
        proof {
            assert(before.stack.len() == held.len());
            assert(before.stack.last() == held[len - 1]@);
            assert(held[len - 1].aggregate.wf());
        }
        let top = &mut self.stack[len - 1];
        top.aggregate.reason(reason);
        top.cursor = None;
        proof {
            let after = self.stack@;
            let frame = FrameView {
                open: false,
                aggregate: before.stack.last().aggregate.because(reason),
                ..before.stack.last()
            };
            assert(after[len - 1]@ =~= frame);
            assert(frames(after) =~= before.stack.drop_last().push(frame));
            lemma_shared_top(before.stack, frame);
            assert forall|i: int| 0 <= i < after.len() implies (
            #[trigger] after[i]).aggregate.wf() by {
                if i < len - 1 {
                    assert(after[i] == held[i]);
                }
            }
            assert forall|i: int| 0 <= i < self@.stack.len() implies (
            #[trigger] self@.stack[i]).aggregate.shared.dom().finite() by {
                if i < len - 1 {
                    assert(self@.stack[i] == before.stack[i]);
                } else {
                    assert(self@.stack[i].aggregate.shared == before.stack[i].aggregate.shared);
                }
            }
            assert(cursors(after) =~= cursors(held).drop_last().push(None));
        }
    }

    /// Enters a directory after it was opened, or could not be.
    pub fn enter(
        &mut self,
        index: &DirectoryIndex,
        pending: Pending,
        opened: Result<S::Cursor, FsIssue>,
        cancelled: bool,
    )
        requires
            old(self).wf(),
            0 < old(self)@.stack.len() < old(self)@.limits.max_open_directories,
            old(self)@.on(index@),
            index@.records.contains_key(pending@.id),
        ensures
            final(self).wf(),
            final(self)@.on(index@),
            final(self)@.stack.len() > 0,
            final(self).with_index(index) == old(self).with_index(index).entered(
                pending@.id,
                pending@.observation,
                pending@.working,
                opening_of(opened),
                cancelled,
            ),
            final(self).reader() == old(self).reader().with(opened),
    {
        let ghost before = self.with_index(index);
        let ghost held = self.stack@;
        let ghost shown = pending@;
        let ghost reply = opening_of(opened);
        let mut own = Aggregate::new();
        own.add_own(&pending.observation);
        let cursor: Option<S::Cursor> = match opened {
            Ok(cursor) => Some(cursor),
            Err(issue) => {
                own.reason(source_error_reason(&issue));
                self.issues.record(issue);
                None
            },
        };
        if cancelled {
            own.reason(Reason::Cancelled);
        }
        let frame = Frame { id: pending.id, cursor, aggregate: own };
        let ghost shown_frame = frame@;
        self.stack.push(frame);
        self.stats.processed_directories = self.stats.processed_directories.saturating_add(1);
        let open: usize = self.count_open();
        if open > self.stats.peak_open_directories {
            self.stats.peak_open_directories = open;
        }
        if pending.working > self.stats.peak_working_bytes {
            self.stats.peak_working_bytes = pending.working;
        }
        proof {
            let after = self.stack@;
            assert(before.scan.stack.len() == held.len());
            assert(frames(after) =~= before.scan.stack.push(shown_frame));
            assert(self@.stack.drop_last() =~= before.scan.stack);
            after[held.len() as int].aggregate.shared.lemma_finite();
            assert(shown_frame.aggregate.shared =~= Map::<
                FileIdentity,
                aggregate::SharedSize,
            >::empty());
            assert(shared_count(self@.stack) == shared_count(before.scan.stack));
            assert forall|i: int| 0 <= i < after.len() implies (
            #[trigger] after[i]).aggregate.wf() by {
                if i < held.len() {
                    assert(after[i] == held[i]);
                }
            }
            assert forall|i: int| 0 <= i < self@.stack.len() implies (
            #[trigger] self@.stack[i]).aggregate.shared.dom().finite()
                && index@.records.contains_key(self@.stack[i].id) by {
                if i < held.len() {
                    assert(self@.stack[i] == before.scan.stack[i]);
                }
            }
            assert(self.reader() =~= old(self).reader().with(opened));
            assert(self.with_index(index) =~= before.entered(
                shown.id,
                shown.observation,
                shown.working,
                reply,
                cancelled,
            ));
        }
    }

    fn count_open(&self) -> (open: usize)
        ensures
            open == open_count(self@.stack),
    {
        let ghost stack = self@.stack;
        let len: usize = self.stack.len();
        let mut open: usize = 0;
        let mut i: usize = 0;
        assert(stack.take(0) =~= Seq::<FrameView>::empty());
        while i < len
            invariant
                i <= len,
                len == self.stack@.len(),
                stack == self@.stack,
                stack.len() == len,
                open == open_count(stack.take(i as int)),
                open <= i,
            decreases len - i,
        {
            proof {
                lemma_open_count(stack, i as int);
                assert(stack[i as int] == self.stack@[i as int]@);
            }
            if self.stack[i].cursor.is_some() {
                open = open + 1;
            }
            i = i + 1;
        }
        assert(stack.take(len as int) =~= stack);
        open
    }
}

/// How many hard-linked files are remembered after a file.
proof fn lemma_file_count(aggregate: AggregateView, observation: ObservationView, room: bool)
    requires
        aggregate.shared.dom().finite(),
    ensures
        aggregate.with_file(observation, room).shared.len() == aggregate.shared.len() + (if room
            && aggregate.is_new_link(observation) {
            1nat
        } else {
            0
        }),
{
    if observation.link_count > 1 && observation.identity is Some {
        let key = observation.identity->0;
        if aggregate.shared.contains_key(key) {
            assert(aggregate.with_file(observation, room).shared.dom() =~= aggregate.shared.dom());
        }
    }
}

/// What was heard: a stop that was asked for, or a reply of the source.
pub enum Heard {
    Stop,
    Reply(Result<Option<Observation>, FsIssue>),
}

/// What one round of a quantum met: a stop that was asked for, or a reply of the source. A reply
/// comes with what registering a directory costs, with what came of opening it, and with whether
/// a stop was asked for meanwhile.
pub enum Round {
    Stop,
    Heard { reply: Reply, cost: nat, opened: Result<(), IssueView>, cancelled: bool },
}

/// A scan, and the pool that its directories are charged to under the id `hold`.
#[verifier::ext_equal]
pub struct Quantum {
    pub progress: Progress,
    pub pool: PoolView,
    pub hold: int,
}

impl Quantum {
    /// The pool after a reply.
    pub open spec fn charged(self, reply: Reply, cost: nat) -> PoolView {
        match reply {
            Reply::Entry(observation) => {
                let key = self.progress.key_below(observation);
                if observation.kind is Directory && self.progress.index.registers(
                    self.pool,
                    key,
                    Origin::Background,
                    cost,
                ) {
                    self.pool.resized(self.hold, self.progress.index.background + cost)
                } else {
                    self.pool
                }
            },
            _ => self.pool,
        }
    }

    /// The progress after a reply and what followed from it.
    pub open spec fn heard(
        self,
        reply: Reply,
        cost: nat,
        opened: Result<(), IssueView>,
        cancelled: bool,
        at: Seq<char>,
    ) -> Progress {
        let next = self.progress.received(self.pool, reply, cost, at);
        match reply {
            Reply::Entry(observation) => if self.progress.wants_open(
                self.pool,
                observation,
                cost,
            ) {
                next.entered(
                    self.progress.index.register_answer(
                        self.pool,
                        self.progress.key_below(observation),
                        Origin::Background,
                        cost,
                    )->Ok_0,
                    observation,
                    self.progress.working(),
                    opened,
                    cancelled,
                )
            } else {
                next
            },
            _ => next,
        }
    }

    /// One round. A directory that cannot be read on is at its end.
    #[verifier::opaque]
    pub open spec fn after(self, round: Round, at: Seq<char>) -> Quantum {
        match round {
            Round::Stop => Quantum {
                progress: self.progress.stopped(Reason::Cancelled, at),
                ..self
            },
            Round::Heard { reply, cost, opened, cancelled } => Quantum {
                progress: self.heard(reply, cost, opened, cancelled, at),
                pool: self.charged(reply, cost),
                ..self
            },
        }
    }

    /// Whether taking a reply can cost this much: only a directory is registered.
    pub open spec fn charges(self, reply: Reply, cost: nat) -> bool {
        reply is Entry && reply->Entry_0.kind is Directory ==> self.progress.index.may_cost(
            self.progress.key_below(reply->Entry_0),
            cost,
        )
    }

    /// Whether a round can follow: the scan still goes on, and a directory that cannot be read on
    /// is only closed.
    pub open spec fn allows(self, round: Round) -> bool {
        &&& self.progress.scan.going()
        &&& match round {
            Round::Stop => true,
            Round::Heard { reply, cost, .. } => {
                &&& self.progress.scan.stack.last().open || reply is End
                &&& self.charges(reply, cost)
            },
        }
    }

    /// Some rounds, one after the other.
    pub open spec fn after_all(self, rounds: Seq<Round>, at: Seq<char>) -> Quantum
        decreases rounds.len(),
    {
        if rounds.len() == 0 {
            self
        } else {
            self.after_all(rounds.drop_last(), at).after(rounds.last(), at)
        }
    }

    /// Whether the rounds can follow each other.
    pub open spec fn allows_all(self, rounds: Seq<Round>, at: Seq<char>) -> bool
        decreases rounds.len(),
    {
        rounds.len() > 0 ==> self.allows_all(rounds.drop_last(), at) && self.after_all(
            rounds.drop_last(),
            at,
        ).allows(rounds.last())
    }

    /// What is published at the end of a quantum: the directories that are still being read.
    #[verifier::opaque]
    pub open spec fn shown(self, at: Seq<char>) -> Quantum {
        Quantum {
            progress: if self.progress.scan.going() {
                self.progress.announced(self.progress.scan.stack.len(), at)
            } else {
                self.progress
            },
            ..self
        }
    }

    /// Whether a quantum of at most `items` rounds leads from here to `end`.
    pub open spec fn leads_to(
        self,
        rounds: Seq<Round>,
        items: nat,
        at: Seq<char>,
        end: Quantum,
    ) -> bool {
        &&& rounds.len() <= items
        &&& items > 0 ==> rounds.len() > 0
        &&& self.allows_all(rounds, at)
        &&& end == self.after_all(rounds, at).shown(at)
    }

    /// Whether one of some rounds was taken so, from one state of the reader to the next.
    pub open spec fn taken_at<S: ObservationSource>(
        self,
        rounds: Seq<Round>,
        readers: Seq<Reader<S>>,
        at: Seq<char>,
        i: int,
    ) -> bool {
        readers[i].takes(rounds[i], self.after_all(rounds.take(i), at), at, readers[i + 1])
    }

    /// Whether some rounds were taken one after the other, through these states of the reader.
    pub open spec fn taken<S: ObservationSource>(
        self,
        rounds: Seq<Round>,
        readers: Seq<Reader<S>>,
        at: Seq<char>,
    ) -> bool {
        &&& readers.len() == rounds.len() + 1
        &&& forall|i: int|
            0 <= i < rounds.len() ==> #[trigger] self.taken_at(rounds, readers, at, i)
    }

    /// Whether some rounds of one quantum were taken in its time, from one state of the reader to
    /// another.
    pub open spec fn made<S: ObservationSource>(
        self,
        reader: Reader<S>,
        rounds: Seq<Round>,
        items: nat,
        at: Seq<char>,
        last: Reader<S>,
    ) -> bool {
        exists|readers: Seq<Reader<S>>, started: Instant|
            {
                &&& #[trigger] self.taken(rounds, readers, at)
                &&& #[trigger] clock::is_now(started)
                &&& readers[0] == reader
                &&& readers.last() == last
                &&& timed(
                    started,
                    rounds.len(),
                    items,
                    self.after_all(rounds, at).progress.scan.going(),
                )
            }
    }

    /// Whether one quantum of at most `items` rounds leads from here to `end`, and from one state
    /// of the reader to another.
    pub open spec fn steps_to<S: ObservationSource>(
        self,
        reader: Reader<S>,
        items: nat,
        at: Seq<char>,
        end: Quantum,
        last: Reader<S>,
    ) -> bool {
        &&& self.progress.scan.going()
        &&& exists|rounds: Seq<Round>|
            {
                &&& #[trigger] self.leads_to(rounds, items, at, end)
                &&& self.made(reader, rounds, items, at, last)
            }
    }

    /// Whether one of some quanta was made so.
    pub open spec fn passes_at<S: ObservationSource>(
        states: Seq<Quantum>,
        readers: Seq<Reader<S>>,
        items: nat,
        at: Seq<char>,
        i: int,
    ) -> bool {
        states[i].steps_to(readers[i], items, at, states[i + 1], readers[i + 1])
    }

    /// Whether `states` and `readers` are the states of a scan and of its reader after each of
    /// some quanta, from here on.
    pub open spec fn passes<S: ObservationSource>(
        self,
        states: Seq<Quantum>,
        readers: Seq<Reader<S>>,
        items: nat,
        at: Seq<char>,
    ) -> bool {
        &&& states.len() > 0
        &&& readers.len() == states.len()
        &&& states[0] == self
        &&& forall|i: int|
            0 <= i < states.len() - 1 ==> #[trigger] Self::passes_at(states, readers, items, at, i)
    }
}

/// Whether a quantum of this many rounds kept to its time: it was not over after any round but the
/// last, and a scan that would go on stops before the last round it may make because it is over.
pub open spec fn timed(started: Instant, rounds: nat, items: nat, going: bool) -> bool {
    &&& clock::is_now(started)
    &&& rounds > 1 ==> clock::spent(&started, false)
    &&& going && 0 < rounds < items ==> clock::spent(&started, true)
}

impl<S: ObservationSource> Reader<S> {
    /// Whether a stop leaves the reader so: the token told of it before the source was called, or
    /// told of none before and of one right after the call.
    pub open spec fn stops(self, asked: Reader<S>) -> bool {
        &&& self.token.tells(true)
        &&& asked == self || self.token.tells(false) && exists|
            next: Result<Option<Observation>, FsIssue>,
        | #[trigger] self.asks(asked, next)
    }

    /// Whether asking for what comes next comes to this reply: what the source gives, and what the
    /// token tells after the call.
    pub open spec fn inquires(
        self,
        after: Reader<S>,
        reply: (Result<Option<Observation>, FsIssue>, bool),
    ) -> bool {
        &&& self.asks(after, reply.0)
        &&& after.token.tells(reply.1)
    }

    /// Whether the token tells so first, and, where it tells of no stop, asking comes to this
    /// reply.
    pub open spec fn listens(
        self,
        first: bool,
        reply: Option<(Result<Option<Observation>, FsIssue>, bool)>,
        after: Reader<S>,
    ) -> bool {
        &&& self.token.tells(first)
        &&& reply is Some <==> !first
        &&& match reply {
            Some(reply) => self.inquires(after, reply),
            None => after == self,
        }
    }

    /// Whether opening a directory that is to be entered leaves the reader so.
    pub open spec fn enters(
        self,
        observation: ObservationView,
        opened: Result<(), IssueView>,
        cancelled: bool,
        after: Reader<S>,
    ) -> bool {
        &&& self.token.tells(cancelled)
        &&& exists|result: Result<S::Cursor, FsIssue>|
            {
                &&& #[trigger] S::opens(&self.source, observation, &after.source, result)
                &&& opening_of(result) == opened
                &&& after == (Reader { source: after.source, ..self }.with(result))
            }
    }

    /// Whether a reply, and the opening of a directory that it names, leave the reader so.
    pub open spec fn follows(
        self,
        start: Quantum,
        reply: Reply,
        cost: nat,
        opened: Result<(), IssueView>,
        cancelled: bool,
        at: Seq<char>,
        after: Reader<S>,
    ) -> bool {
        let left = start.progress.received(start.pool, reply, cost, at).scan.stack.len();
        let middle = self.after_reply(reply, left);
        if reply is Entry && start.progress.wants_open(start.pool, reply->Entry_0, cost) {
            middle.enters(reply->Entry_0, opened, cancelled, after)
        } else {
            after == middle
        }
    }

    /// Whether a round was taken so. The token is asked before the source is called and right
    /// after the call; what the source gives counts only where it told of no stop.
    #[verifier::opaque]
    pub open spec fn takes(
        self,
        round: Round,
        start: Quantum,
        at: Seq<char>,
        after: Reader<S>,
    ) -> bool {
        match round {
            Round::Stop => exists|asked: Reader<S>| #[trigger]
                self.stops(asked) && after == asked.kept(0),
            Round::Heard { reply, cost, opened, cancelled } => {
                &&& self.token.tells(false)
                &&& exists|asked: Reader<S>, next: Result<Option<Observation>, FsIssue>|
                    {
                        &&& #[trigger] self.asks(asked, next)
                        &&& reply == reply_of(next)
                        &&& asked.follows(start, reply, cost, opened, cancelled, at, after)
                    }
            },
        }
    }
}

/// One more round was taken.
proof fn lemma_taken_more<S: ObservationSource>(
    start: Quantum,
    rounds: Seq<Round>,
    readers: Seq<Reader<S>>,
    at: Seq<char>,
    round: Round,
    reader: Reader<S>,
)
    requires
        start.taken(rounds, readers, at),
        readers.last().takes(round, start.after_all(rounds, at), at, reader),
    ensures
        start.taken(rounds.push(round), readers.push(reader), at),
{
    let more = rounds.push(round);
    assert forall|i: int| 0 <= i < more.len() implies #[trigger] start.taken_at(
        more,
        readers.push(reader),
        at,
        i,
    ) by {
        assert(more.take(i) =~= rounds.take(i));
        if i < rounds.len() {
            assert(start.taken_at(rounds, readers, at, i));
        } else {
            assert(rounds.take(i) =~= rounds);
        }
    }
}

/// What a quantum does next.
#[derive(Debug, Clone, Copy, PartialEq, Eq, Structural)]
pub enum Part {
    /// The source is asked.
    Listen,
    /// What was heard is taken.
    Respond,
    /// A directory that is to be entered is opened.
    Open,
    /// The directory is entered.
    Enter,
    /// The directories that are still being read are published.
    Announce,
    /// The quantum is over.
    Over,
}

/// What follows a round: another one, or the end of the quantum. A scan that goes on later shows
/// what it is reading.
pub open spec fn part_after_round(on: bool, going: bool) -> Part {
    if on {
        Part::Listen
    } else if going {
        Part::Announce
    } else {
        Part::Over
    }
}

/// What a quantum does after a part of it, by whether a directory is to be entered, whether there
/// may be another round, and whether the scan goes on.
pub open spec fn part_after(part: Part, pending: bool, on: bool, going: bool) -> Part {
    match part {
        Part::Listen => Part::Respond,
        Part::Respond => if pending {
            Part::Open
        } else {
            part_after_round(on, going)
        },
        Part::Open => Part::Enter,
        Part::Enter => part_after_round(on, going),
        Part::Announce => Part::Over,
        Part::Over => Part::Over,
    }
}

/// What a quantum begins with, and what follows each of its rounds.
pub fn next_round(on: bool, going: bool) -> (next: Part)
    ensures
        next == part_after_round(on, going),
{
    if on {
        Part::Listen
    } else if going {
        Part::Announce
    } else {
        Part::Over
    }
}

/// What a quantum does after a part of it, by whether a directory is to be entered, whether there
/// may be another round, and whether the scan goes on.
pub fn next_part(part: Part, pending: bool, on: bool, going: bool) -> (next: Part)
    ensures
        next == part_after(part, pending, on, going),
{
    match part {
        Part::Listen => Part::Respond,
        Part::Respond => if pending {
            Part::Open
        } else {
            next_round(on, going)
        },
        Part::Open => Part::Enter,
        Part::Enter => next_round(on, going),
        Part::Announce => Part::Over,
        Part::Over => Part::Over,
    }
}

/// What was heard, by what the token told first and, where the source was called then, by what it
/// gave and by what the token told right after the call. What is given counts only where neither
/// answer tells of a stop.
pub open spec fn heard_of(
    first: bool,
    reply: Option<(Result<Option<Observation>, FsIssue>, bool)>,
) -> Heard {
    match reply {
        Some((next, second)) => if first || second {
            Heard::Stop
        } else {
            Heard::Reply(next)
        },
        None => Heard::Stop,
    }
}

/// What was heard, by what the token told first and, where the source was called then, by what it
/// gave and by what the token told right after the call.
pub fn hear(
    first: bool,
    reply: Option<(Result<Option<Observation>, FsIssue>, bool)>,
) -> (heard: Heard)
    ensures
        heard == heard_of(first, reply),
{
    match reply {
        Some((next, second)) => {
            if first || second {
                Heard::Stop
            } else {
                Heard::Reply(next)
            }
        },
        None => Heard::Stop,
    }
}

/// How many rounds a scan that is run to its end makes at a time.
pub const RUN_ITEMS: usize = 128;

impl<S: ObservationSource> UsageScanner<S> {
    /// The scan with the index and the pool that it works on.
    pub open spec fn quantum(&self, index: &DirectoryIndex, pools: &IndexPools) -> Quantum {
        Quantum {
            progress: self.with_index(index),
            pool: pools.background@,
            hold: index.background_id(),
        }
    }

    /// Whether this is an answer that the scan's token tells.
    pub open spec fn tells(&self, answer: bool) -> bool {
        self.reader().token.tells(answer)
    }

    /// What the source gives next for the directory that is being read. One that cannot be read
    /// on is at its end.
    fn ask(&mut self) -> (next: Result<Option<Observation>, FsIssue>)
        requires
            old(self).wf(),
            old(self)@.stack.len() > 0,
        ensures
            final(self).wf(),
            final(self)@ == old(self)@,
            old(self)@.stack.last().open || reply_of(next) is End,
            old(self).reader().asks(final(self).reader(), next),
    {
        let ghost before = self@;
        let ghost held = self.stack@;
        let len: usize = self.stack.len();
        assert(before.stack.len() == held.len());
        assert(before.stack.last() == held[len - 1]@);
        let next = match &mut self.stack[len - 1].cursor {
            Some(cursor) => self.source.next(cursor),
            None => Ok(None),
        };
        proof {
            let after = self.stack@;
            assert forall|i: int| 0 <= i < len implies (#[trigger] after[i]).aggregate
                == held[i].aggregate && after[i]@ == held[i]@ by {
                if i < len - 1 {
                    assert(after[i] == held[i]);
                }
            }
            assert(frames(after) =~= frames(held));
            assert(cursors(after).drop_last() =~= cursors(held).drop_last());
            assert(cursors(held).last() == held[len - 1].cursor);
            if held[len - 1].cursor is None {
                assert(cursors(after) =~= cursors(held));
            }
        }
        next
    }

    /// Whether a stop was asked for, by what the token tells now.
    pub fn is_cancelled(&self) -> (answer: bool)
        ensures
            self.tells(answer),
    {
        self.cancellation.is_cancelled()
    }

    /// Whether the scan runs and every summary so far fitted its room.
    pub fn is_going(&self) -> (going: bool)
        ensures
            going == self@.going(),
    {
        self.phase == ScanPhase::Running && !self.unfit
    }

    /// Whether a summary did not fit its room.
    pub fn is_unfit(&self) -> (unfit: bool)
        ensures
            unfit == self@.unfit,
    {
        self.unfit
    }

    /// Whether the quantum that began at `started` makes another round: while the scan goes on,
    /// for at most `items` rounds, for as long as the time allows and for at least one.
    pub fn goes_on(&self, done: usize, items: usize, started: &Instant) -> (on: bool)
        ensures
            on ==> done < items && self@.going(),
            done == 0 && 0 < items && self@.going() ==> on,
            0 < done < items && self@.going() ==> clock::spent(started, !on),
    {
        done < items && self.is_going() && (done == 0 || !quantum_is_over(started))
    }

    /// Asks the source for what comes next, and then says whether a stop was asked for meanwhile.
    pub fn inquire(&mut self) -> (reply: (Result<Option<Observation>, FsIssue>, bool))
        requires
            old(self).wf(),
            old(self)@.stack.len() > 0,
        ensures
            final(self).wf(),
            final(self)@ == old(self)@,
            old(self)@.stack.last().open || reply_of(reply.0) is End,
            old(self).reader().inquires(final(self).reader(), reply),
    {
        let next = self.ask();
        (next, self.is_cancelled())
    }

    /// Asks the source for what comes next. Cancellation is checked before the source is called
    /// and again immediately after the call.
    pub fn listen(&mut self) -> (heard: Heard)
        requires
            old(self).wf(),
            old(self)@.stack.len() > 0,
        ensures
            final(self).wf(),
            final(self)@ == old(self)@,
            heard matches Heard::Reply(next) ==> old(self)@.stack.last().open || reply_of(
                next,
            ) is End,
            match heard {
                Heard::Stop => old(self).reader().stops(final(self).reader()),
                Heard::Reply(next) => {
                    &&& old(self).tells(false)
                    &&& old(self).reader().asks(final(self).reader(), next)
                },
            },
            exists|first: bool, reply: Option<(Result<Option<Observation>, FsIssue>, bool)>|
                {
                    &&& heard == #[trigger] heard_of(first, reply)
                    &&& old(self).reader().listens(first, reply, final(self).reader())
                },
    {
        let first = self.is_cancelled();
        let reply = if first {
            None
        } else {
            Some(self.inquire())
        };
        assert(old(self).reader().listens(first, reply, self.reader()));
        hear(first, reply)
    }

    /// Takes what was heard. A stop ends the scan with what it has; a directory that is to be
    /// entered is handed back, to be opened.
    pub fn respond(
        &mut self,
        index: &mut DirectoryIndex,
        pools: &mut IndexPools,
        heard: Heard,
        observed_at: &str,
    ) -> (pending: Option<Pending>)
        requires
            old(self).wf(),
            old(self)@.stack.len() > 0,
            old(self).publishable(old(index)),
            old(index).backed(old(pools)),
        ensures
            final(self).wf(),
            final(self).publishable(final(index)),
            final(index).backed(final(pools)),
            final(index).same_holds(old(index)),
            pending is Some ==> final(index)@.records.contains_key(pending->0@.id),
            pending is Some ==> 0 < final(self)@.stack.len()
                < final(self)@.limits.max_open_directories,
            match heard {
                Heard::Stop => {
                    &&& pending is None
                    &&& final(self).with_index(final(index)) == old(self).with_index(
                        old(index),
                    ).stopped(Reason::Cancelled, observed_at@)
                    &&& final(self).reader() == old(self).reader().kept(0)
                    &&& final(pools).foreground@ == old(pools).foreground@
                    &&& final(pools).background@ == old(pools).background@
                },
                Heard::Reply(next) => {
                    &&& final(self).reader() == old(self).reader().after_reply(
                        reply_of(next),
                        final(self)@.stack.len(),
                    )
                    &&& exists|cost: nat| #[trigger]
                        Self::reception(
                            old(self),
                            old(index),
                            old(pools),
                            final(self),
                            final(index),
                            final(pools),
                            reply_of(next),
                            cost,
                            observed_at@,
                            pending,
                        )
                },
            },
            Self::fits(old(self), old(index), final(self), final(index), observed_at@),
    {
        match heard {
            Heard::Stop => {
                self.stop_partial(index, Reason::Cancelled, observed_at);
                None
            },
            Heard::Reply(next) => self.receive(index, pools, next, observed_at),
        }
    }

    /// Opens a directory that is to be entered, and says whether a stop was asked for meanwhile.
    pub fn look(&mut self, pending: &Pending) -> (looked: (Result<S::Cursor, FsIssue>, bool))
        requires
            old(self).wf(),
        ensures
            final(self).wf(),
            final(self)@ == old(self)@,
            S::opens(
                &old(self).source_now(),
                pending@.observation,
                &final(self).source_now(),
                looked.0,
            ),
            old(self).tells(looked.1),
            final(self).reader() == (Reader {
                source: final(self).reader().source,
                ..old(self).reader()
            }),
    {
        let opened = self.source.open(pending.observation());
        (opened, self.is_cancelled())
    }

    /// One round: at most one reply of the source is taken. Cancellation is checked before the
    /// source is called and again immediately after every call.
    #[verifier::spinoff_prover]
    #[verifier::rlimit(40)]
    fn round(&mut self, index: &mut DirectoryIndex, pools: &mut IndexPools, observed_at: &str)
        requires
            old(self).wf(),
            old(self)@.going(),
            old(self).publishable(old(index)),
            old(index).backed(old(pools)),
        ensures
            final(self).wf(),
            final(self).publishable(final(index)),
            final(index).backed(final(pools)),
            final(index).same_holds(old(index)),
            final(pools).foreground@ == old(pools).foreground@,
            exists|round: Round|
                {
                    &&& #[trigger] old(self).quantum(old(index), old(pools)).allows(round)
                    &&& final(self).quantum(final(index), final(pools)) == old(self).quantum(
                        old(index),
                        old(pools),
                    ).after(round, observed_at@)
                    &&& old(self).reader().takes(
                        round,
                        old(self).quantum(old(index), old(pools)),
                        observed_at@,
                        final(self).reader(),
                    )
                },
            Self::fits(old(self), old(index), final(self), final(index), observed_at@),
    {
        let ghost start = self.quantum(index, pools);
        let ghost reader = self.reader();
        proof {
            reveal(Quantum::after);
            reveal(Reader::takes);
        }
        let heard = self.listen();
        let ghost asked = *self;
        let ghost index_before = *index;
        let ghost pools_before = *pools;
        let ghost given_heard = heard;
        let pending = self.respond(index, pools, heard, observed_at);
        if next_part(Part::Respond, pending.is_some(), false, false) != Part::Open {
            proof {
                match given_heard {
                    Heard::Stop => {
                        assert(start.allows(Round::Stop));
                        assert(self.quantum(index, pools) =~= start.after(
                            Round::Stop,
                            observed_at@,
                        ));
                        assert(reader.stops(asked.reader()));
                        assert(reader.takes(Round::Stop, start, observed_at@, self.reader()));
                    },
                    Heard::Reply(next) => {
                        let cost = choose|cost: nat|
                            Self::reception(
                                &asked,
                                &index_before,
                                &pools_before,
                                self,
                                index,
                                pools,
                                reply_of(next),
                                cost,
                                observed_at@,
                                pending,
                            );
                        let round = Round::Heard {
                            reply: reply_of(next),
                            cost,
                            opened: Ok(()),
                            cancelled: false,
                        };
                        assert(start.allows(round));
                        assert(self.quantum(index, pools) =~= start.after(round, observed_at@));
                        assert(reader.asks(asked.reader(), next));
                        assert(reader.takes(round, start, observed_at@, self.reader()));
                    },
                }
            }
            return;
        }
        let ghost reply = reply_of(given_heard->Reply_0);
        let ghost cost = choose|cost: nat|
            Self::reception(
                &asked,
                &index_before,
                &pools_before,
                self,
                index,
                pools,
                reply,
                cost,
                observed_at@,
                pending,
            );
        if let Some(pending) = pending {
            let ghost middle = self.reader();
            let ghost seen = pending@.observation;
            let (opened, cancelled) = self.look(&pending);
            let ghost result = opened;
            let ghost opener = self.reader();
            let ghost round = Round::Heard { reply, cost, opened: opening_of(opened), cancelled };
            assert(start.allows(round));
            self.enter(index, pending, opened, cancelled);
            proof {
                assert(self.quantum(index, pools) =~= start.after(round, observed_at@));
                assert(reader.asks(asked.reader(), given_heard->Reply_0));
                assert(S::opens(&middle.source, seen, &opener.source, result));
                assert(self.reader().source == opener.source);
                assert(middle.enters(seen, opening_of(result), cancelled, self.reader()));
                assert(reader.takes(round, start, observed_at@, self.reader()));
            }
        }
    }

    /// Publishes the directories that are still being read.
    pub fn announce(&mut self, index: &mut DirectoryIndex, observed_at: &str)
        requires
            old(self).wf(),
            old(self).publishable(old(index)),
        ensures
            final(self).wf(),
            final(self).publishable(final(index)),
            final(index).same_holds(old(index)),
            forall|pools: &IndexPools| old(index).backed(pools) ==> final(index).backed(pools),
            final(self).with_index(final(index)) == old(self).with_index(old(index)).announced(
                old(self)@.stack.len(),
                observed_at@,
            ),
            final(self)@.phase == old(self)@.phase,
            final(self).reader() == old(self).reader(),
            Self::fits(old(self), old(index), final(self), final(index), observed_at@),
    {
        let ghost before = self.with_index(index);
        let ghost held = self.stack@;
        let len: usize = self.stack.len();
        let mut i: usize = 0;
        assert(before.scan.stack.len() == held.len());
        while i < len
            invariant
                i <= len,
                len == held.len(),
                self.stack@ == held,
                before.scan.stack == frames(held),
                self.wf(),
                self.publishable(index),
                index.same_holds(old(index)),
                forall|pools: &IndexPools| old(index).backed(pools) ==> index.backed(pools),
                self.with_index(index) == before.announced(i as nat, observed_at@),
                self@.phase == before.scan.phase,
                self.reader() == old(self).reader(),
                Self::fits(old(self), old(index), self, index, observed_at@),
            decreases len - i,
        {
            let ghost now = self.with_index(index);
            proof {
                assert(self@.stack[i as int] == held[i as int]@);
            }
            let (revision, fits): (u64, bool) = self.publish(
                index,
                &self.stack[i],
                true,
                observed_at,
            );
            self.revision = revision;
            if !fits {
                self.unfit = true;
            }
            proof {
                assert(self.with_index(index) =~= now.published(
                    before.scan.stack[i as int],
                    true,
                    observed_at@,
                ));
                assert(self.with_index(index) == before.announced((i + 1) as nat, observed_at@));
            }
            i = i + 1;
        }
    }

    /// One quantum: at most `items` rounds, as many as the time allows, and at least one. What
    /// is still being read is then published as running. A summary that does not fit its room ends
    /// the quantum, and the scan does not go on.
    #[verifier::spinoff_prover]
    #[verifier::rlimit(40)]
    pub fn step(
        &mut self,
        index: &mut DirectoryIndex,
        pools: &mut IndexPools,
        items: usize,
        observed_at: &str,
    ) -> (phase: ScanPhase)
        requires
            old(self).wf(),
            old(self).publishable(old(index)),
            old(index).backed(old(pools)),
        ensures
            final(self).wf(),
            final(self).publishable(final(index)),
            final(index).backed(final(pools)),
            final(index).same_holds(old(index)),
            final(pools).foreground@ == old(pools).foreground@,
            phase == final(self)@.phase,
            Self::fits(old(self), old(index), final(self), final(index), observed_at@),
            ({
                let start = old(self).quantum(old(index), old(pools));
                let end = final(self).quantum(final(index), final(pools));
                if old(self)@.going() {
                    start.steps_to(
                        old(self).reader(),
                        items as nat,
                        observed_at@,
                        end,
                        final(self).reader(),
                    )
                } else {
                    end == start && final(self).reader() == old(self).reader()
                }
            }),
    {
        if !self.is_going() {
            return self.phase;
        }
        let started = clock::begin();
        let ghost start = self.quantum(index, pools);
        let ghost mut rounds: Seq<Round> = Seq::empty();
        let ghost mut readers: Seq<Reader<S>> = seq![self.reader()];
        let mut done: usize = 0;
        let mut next = next_round(self.goes_on(0, items, &started), self.is_going());
        while next == Part::Listen
            invariant
                done <= items,
                rounds.len() == done,
                clock::is_now(started),
                self.wf(),
                self.publishable(index),
                index.backed(pools),
                index.same_holds(old(index)),
                pools.foreground@ == old(pools).foreground@,
                start.allows_all(rounds, observed_at@),
                self.quantum(index, pools) == start.after_all(rounds, observed_at@),
                start.taken(rounds, readers, observed_at@),
                readers[0] == old(self).reader(),
                readers.last() == self.reader(),
                next is Listen ==> done < items && self@.going(),
                next is Announce <==> !(next is Listen) && self@.going(),
                next is Announce && 0 < done < items ==> clock::spent(&started, true),
                next is Listen && done > 0 ==> clock::spent(&started, false),
                done > 1 ==> clock::spent(&started, false),
                done == 0 && items > 0 ==> next is Listen,
                Self::fits(old(self), old(index), self, index, observed_at@),
            decreases items - done,
        {
            let ghost now = self.quantum(index, pools);
            let ghost reader = self.reader();
            self.round(index, pools, observed_at);
            proof {
                let round = choose|round: Round|
                    {
                        &&& #[trigger] now.allows(round)
                        &&& self.quantum(index, pools) == now.after(round, observed_at@)
                        &&& reader.takes(round, now, observed_at@, self.reader())
                    };
                lemma_taken_more(start, rounds, readers, observed_at@, round, self.reader());
                assert(rounds.push(round).drop_last() =~= rounds);
                rounds = rounds.push(round);
                readers = readers.push(self.reader());
            }
            done = done + 1;
            next = next_part(
                Part::Enter,
                false,
                self.goes_on(done, items, &started),
                self.is_going(),
            );
        }
        let ghost end = self.quantum(index, pools);
        if next == Part::Announce {
            self.announce(index, observed_at);
        }
        proof {
            let last = self.quantum(index, pools);
            reveal(Quantum::shown);
            assert(last =~= end.shown(observed_at@));
            assert(start.leads_to(rounds, items as nat, observed_at@, last));
            assert(timed(
                started,
                rounds.len(),
                items as nat,
                start.after_all(rounds, observed_at@).progress.scan.going(),
            ));
        }
        self.phase
    }

    /// Quanta until the scan is over or cannot go on, or until there were 2^64 - 1 of them.
    #[verifier::spinoff_prover]
    #[verifier::rlimit(40)]
    pub fn run(
        &mut self,
        index: &mut DirectoryIndex,
        pools: &mut IndexPools,
        observed_at: &str,
    ) -> (phase: ScanPhase)
        requires
            old(self).wf(),
            old(self).publishable(old(index)),
            old(index).backed(old(pools)),
        ensures
            final(self).wf(),
            final(self).publishable(final(index)),
            final(index).backed(final(pools)),
            final(index).same_holds(old(index)),
            final(pools).foreground@ == old(pools).foreground@,
            phase == final(self)@.phase,
            Self::fits(old(self), old(index), final(self), final(index), observed_at@),
            exists|states: Seq<Quantum>, readers: Seq<Reader<S>>|
                {
                    &&& #[trigger] old(self).quantum(old(index), old(pools)).passes(
                        states,
                        readers,
                        RUN_ITEMS as nat,
                        observed_at@,
                    )
                    &&& readers[0] == old(self).reader()
                    &&& final(self).quantum(final(index), final(pools)) == states.last()
                    &&& final(self).reader() == readers.last()
                    &&& final(self)@.going() ==> states.len() - 1 == u64::MAX
                },
    {
        let ghost start = self.quantum(index, pools);
        let ghost mut states: Seq<Quantum> = seq![start];
        let ghost mut readers: Seq<Reader<S>> = seq![self.reader()];
        let mut left: u64 = u64::MAX;
        while left > 0 && self.is_going()
            invariant
                self.wf(),
                self.publishable(index),
                index.backed(pools),
                index.same_holds(old(index)),
                pools.foreground@ == old(pools).foreground@,
                start.passes(states, readers, RUN_ITEMS as nat, observed_at@),
                readers[0] == old(self).reader(),
                self.quantum(index, pools) == states.last(),
                self.reader() == readers.last(),
                states.len() - 1 == u64::MAX - left,
                Self::fits(old(self), old(index), self, index, observed_at@),
            decreases left,
        {
            let ghost now = self.quantum(index, pools);
            let ghost reader = self.reader();
            self.step(index, pools, RUN_ITEMS, observed_at);
            proof {
                let next = self.quantum(index, pools);
                let then = self.reader();
                let items = RUN_ITEMS as nat;
                assert(now.steps_to(reader, items, observed_at@, next, then));
                let grown = states.push(next);
                let more = readers.push(then);
                assert forall|i: int| 0 <= i < grown.len() - 1 implies #[trigger] Quantum::passes_at(
                    grown,
                    more,
                    items,
                    observed_at@,
                    i,
                ) by {
                    if i + 1 < states.len() {
                        assert(Quantum::passes_at(states, readers, items, observed_at@, i));
                    }
                }
                states = grown;
                readers = more;
            }
            left = left - 1;
        }
        self.phase
    }

    /// Finalizes the collected observations without any further call of the source.
    pub fn abort(&mut self, index: &mut DirectoryIndex, reason: Reason, observed_at: &str)
        requires
            old(self).wf(),
            old(self).publishable(old(index)),
        ensures
            final(self).wf(),
            final(self).publishable(final(index)),
            final(index).same_holds(old(index)),
            forall|pools: &IndexPools| old(index).backed(pools) ==> final(index).backed(pools),
            final(self).with_index(final(index)) == (if old(self)@.phase is Running {
                old(self).with_index(old(index)).stopped(reason, observed_at@)
            } else {
                old(self).with_index(old(index))
            }),
            !(final(self)@.phase is Running),
            final(self).source_now() == old(self).source_now(),
            final(self).reader() == (if old(self)@.phase is Running {
                old(self).reader().kept(0)
            } else {
                old(self).reader()
            }),
            Self::fits(old(self), old(index), final(self), final(index), observed_at@),
    {
        if self.phase == ScanPhase::Running {
            self.stop_partial(index, reason, observed_at);
        }
    }

    /// The id of the root.
    pub fn root_id(&self) -> (id: &str)
        ensures
            id@ == self@.root_id,
    {
        self.root_id.as_str()
    }

    /// Whether the root could not be opened.
    pub fn root_failed(&self) -> (failed: bool)
        ensures
            failed == self@.root_open_failed,
    {
        self.root_open_failed
    }

    /// How far the scan has come.
    pub fn phase(&self) -> (phase: ScanPhase)
        ensures
            phase == self@.phase,
    {
        self.phase
    }

    /// What the scan has done and used so far.
    pub fn progress(&self) -> (stats: ScanStats)
        ensures
            stats == self@.stats,
    {
        self.stats
    }

    /// The issues that the scan has met.
    pub fn met(&self) -> (issues: &Issues)
        ensures
            issues@ == self@.issues,
    {
        &self.issues
    }

    /// Asks the scan to stop at its next round.
    pub fn cancel(&self)
        ensures
            self.reader().token.asked(),
    {
        self.cancellation.cancel();
    }

    /// Where the observations come from.
    pub fn source(&self) -> (source: &S)
        ensures
            *source == self.source_now(),
    {
        &self.source
    }
}

/// Draining changes neither what was entered nor the limits, and leaves an empty stack.
proof fn lemma_drained(progress: Progress, at: Seq<char>)
    ensures
        ({
            let end = progress.drained(at);
            &&& end.scan.stack.len() == 0
            &&& end.scan.visited == progress.scan.visited
            &&& end.scan.root_mount == progress.scan.root_mount
            &&& end.scan.stats == progress.scan.stats
            &&& end.scan.issues == progress.scan.issues
            &&& end.scan.phase == (if progress.scan.stack.len() == 0 || progress.scan.phase
                is Cancelled {
                progress.scan.phase
            } else {
                ScanPhase::Completed
            })
        }),
    decreases progress.scan.stack.len(),
{
    if progress.scan.stack.len() > 0 {
        lemma_drained(progress.popped(at), at);
    }
}

/// A scan that is ended early has nothing left to read, and has processed nothing more.
pub proof fn stopping_leaves_nothing(progress: Progress, reason: Reason, at: Seq<char>)
    ensures
        progress.stopped(reason, at).scan.stack.len() == 0,
        progress.stopped(reason, at).scan.stats == progress.scan.stats,
        reason is Cancelled ==> progress.stopped(reason, at).scan.phase is Cancelled,
{
    let stack = Seq::new(
        progress.scan.stack.len(),
        |i: int|
            FrameView {
                aggregate: progress.scan.stack[i].aggregate.because(reason),
                ..progress.scan.stack[i]
            },
    );
    lemma_drained(
        Progress {
            scan: ScannerView {
                phase: if reason is Cancelled {
                    ScanPhase::Cancelled
                } else {
                    progress.scan.phase
                },
                stack,
                ..progress.scan
            },
            ..progress
        },
        at,
    );
}

/// A scan that is ended early is over at once: it was cancelled where that was the reason, else
/// it completed with what it had. It processes nothing more and meets no further failure.
pub proof fn stopping_ends_the_scan(progress: Progress, reason: Reason, at: Seq<char>)
    requires
        progress.scan.wf(),
        progress.scan.phase is Running,
    ensures
        ({
            let end = progress.stopped(reason, at);
            &&& end.scan.stack.len() == 0
            &&& end.scan.phase == (if reason is Cancelled {
                ScanPhase::Cancelled
            } else {
                ScanPhase::Completed
            })
            &&& end.scan.stats == progress.scan.stats
            &&& end.scan.issues == progress.scan.issues
            &&& end.scan.visited == progress.scan.visited
        }),
{
    let stack = Seq::new(
        progress.scan.stack.len(),
        |i: int|
            FrameView {
                aggregate: progress.scan.stack[i].aggregate.because(reason),
                ..progress.scan.stack[i]
            },
    );
    lemma_drained(
        Progress {
            scan: ScannerView {
                phase: if reason is Cancelled {
                    ScanPhase::Cancelled
                } else {
                    progress.scan.phase
                },
                stack,
                ..progress.scan
            },
            ..progress
        },
        at,
    );
}

/// What one round remembers of the directories that were entered.
proof fn lemma_visited(start: Quantum, round: Round, at: Seq<char>)
    ensures
        start.progress.scan.visited.subset_of(start.after(round, at).progress.scan.visited),
        start.after(round, at).progress.scan.root_mount == start.progress.scan.root_mount,
{
    reveal(Quantum::after);
    let progress = start.progress;
    match round {
        Round::Stop => {
            lemma_stopped_visited(progress, Reason::Cancelled, at);
        },
        Round::Heard { reply, cost, .. } => match reply {
            Reply::Entry(observation) => {
                if observation.kind is Directory {
                    let known = Progress {
                        index: progress.index.registered(
                            start.pool,
                            progress.key_below(observation),
                            Origin::Background,
                            cost,
                        ),
                        ..progress.counted()
                    };
                    lemma_stopped_visited(known, Reason::ResourceLimit, at);
                } else {
                    let top = progress.scan.stack.last();
                    let summed = progress.counted().with_top(
                        FrameView {
                            aggregate: top.aggregate.with_file(
                                observation,
                                progress.has_link_room(),
                            ),
                            ..top
                        },
                    );
                    lemma_stopped_visited(summed, Reason::ResourceLimit, at);
                }
            },
            _ => {},
        },
    }
}

proof fn lemma_stopped_visited(progress: Progress, reason: Reason, at: Seq<char>)
    ensures
        progress.stopped(reason, at).scan.visited == progress.scan.visited,
        progress.stopped(reason, at).scan.root_mount == progress.scan.root_mount,
{
    let stack = Seq::new(
        progress.scan.stack.len(),
        |i: int|
            FrameView {
                aggregate: progress.scan.stack[i].aggregate.because(reason),
                ..progress.scan.stack[i]
            },
    );
    lemma_drained(
        Progress {
            scan: ScannerView {
                phase: if reason is Cancelled {
                    ScanPhase::Cancelled
                } else {
                    progress.scan.phase
                },
                stack,
                ..progress.scan
            },
            ..progress
        },
        at,
    );
}

/// A directory is opened at most once: one that is to be opened was not entered before, and once
/// it was entered no round opens it again, whatever came in between.
pub proof fn directories_are_opened_at_most_once(
    start: Quantum,
    first: ObservationView,
    first_cost: nat,
    opened: Result<(), IssueView>,
    cancelled: bool,
    rounds: Seq<Round>,
    again: ObservationView,
    again_cost: nat,
    at: Seq<char>,
)
    requires
        start.progress.wants_open(start.pool, first, first_cost),
        again.identity == first.identity,
    ensures
        first.identity is Some,
        !start.progress.scan.visited.contains(first.identity->0),
        ({
            let round = Round::Heard {
                reply: Reply::Entry(first),
                cost: first_cost,
                opened,
                cancelled,
            };
            let later = start.after(round, at).after_all(rounds, at);
            !later.progress.wants_open(later.pool, again, again_cost)
        }),
{
    let round = Round::Heard { reply: Reply::Entry(first), cost: first_cost, opened, cancelled };
    let next = start.after(round, at);
    assert(next.progress.scan.visited.contains(first.identity->0)) by {
        reveal(Quantum::after);
    }
    lemma_visited_rounds(next, rounds, at);
}

proof fn lemma_visited_rounds(start: Quantum, rounds: Seq<Round>, at: Seq<char>)
    ensures
        start.progress.scan.visited.subset_of(start.after_all(rounds, at).progress.scan.visited),
        start.after_all(rounds, at).progress.scan.root_mount == start.progress.scan.root_mount,
    decreases rounds.len(),
{
    if rounds.len() > 0 {
        lemma_visited_rounds(start, rounds.drop_last(), at);
        let middle = start.after_all(rounds.drop_last(), at);
        lemma_visited(middle, rounds.last(), at);
    }
}

/// A directory on another mount than the root is never opened.
pub proof fn other_mounts_are_never_opened(
    start: Quantum,
    rounds: Seq<Round>,
    observation: ObservationView,
    cost: nat,
    at: Seq<char>,
)
    requires
        observation.mount != start.progress.scan.root_mount,
    ensures
        ({
            let later = start.after_all(rounds, at);
            !later.progress.wants_open(later.pool, observation, cost)
        }),
{
    lemma_visited_rounds(start, rounds, at);
}

} // verus!
