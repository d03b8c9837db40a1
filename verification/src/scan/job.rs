//! The task that measures a root, in quanta. A step enrolls the root, opens it, advances the scan
//! and reports. Whoever shares the index and the service with others goes through the same stages
//! in the same order, and shares them only where the scan needs them.
use vstd::prelude::*;

use crate::domain::controller::Cancellation;
use crate::domain::index::{DirectoryIndex, IndexError, IndexPools, IndexView, KeyView, Origin};
use crate::domain::model::{
    EventKind, FsIssue, IssueView, Issues, IssuesView, Phase, Reason, ScanState, Value,
};
use crate::domain::summary;
use crate::listing::cache;
use crate::runtime::clock;
use crate::runtime::clock::{Clock, TimeSample, TimeView};
use crate::runtime::events;
use crate::runtime::events::{EventSink, TaskEvents, TaskEventsView};
use crate::runtime::memory::PoolView;
use crate::scan::aggregate::ObservationView;
use crate::scan::budgeted_source::{BudgetedCursor, BudgetedSource};
use crate::scan::service;
use crate::scan::service::{issue, mark_root, UsageService, UsageServiceView};
use crate::scan::usage::{
    Observation, ObservationSource, Opening, OpeningView, Progress, Quantum, Reader, Round,
    ScanLimits, ScanPhase, ScannerView, UsageScanner,
};
use crate::scheduler::{Handles, JobStep, Status};
use crate::text::same_text;

verus! {

/// How many rounds a quantum makes at most.
pub const QUANTUM_ITEMS: usize = 128;

/// The step that a quantum brings, by the phase of the scan and whether the root failed.
pub open spec fn quantum_step(phase: ScanPhase, failed: bool) -> JobStep {
    match phase {
        ScanPhase::Running => JobStep::Yield,
        ScanPhase::Completed => if failed {
            JobStep::Failed
        } else {
            JobStep::Completed
        },
        ScanPhase::Cancelled => JobStep::Completed,
    }
}

/// The step that a quantum brings, by the phase of the scan and whether the root failed.
pub fn step_after(phase: ScanPhase, failed: bool) -> (step: JobStep)
    ensures
        step == quantum_step(phase, failed),
{
    match phase {
        ScanPhase::Running => JobStep::Yield,
        ScanPhase::Completed => {
            if failed {
                JobStep::Failed
            } else {
                JobStep::Completed
            }
        },
        ScanPhase::Cancelled => JobStep::Completed,
    }
}

/// The step that a scan brings which could not begin.
pub open spec fn refused_step(code: Seq<char>) -> JobStep {
    if code == "RESOURCE_LIMIT"@ {
        JobStep::ResourceLimit
    } else {
        JobStep::Failed
    }
}

/// The step that a scan brings which could not begin.
pub fn step_without_scan(code: &str) -> (step: JobStep)
    ensures
        step == refused_step(code@),
{
    if same_text(code, "RESOURCE_LIMIT") {
        JobStep::ResourceLimit
    } else {
        JobStep::Failed
    }
}

/// What a step does next.
#[derive(Debug, Clone, Copy, PartialEq, Eq, Structural)]
pub enum Stage {
    /// The service is asked whether it was closed.
    Check,
    /// The root is registered.
    Enroll,
    /// The root is opened.
    Begin,
    /// The scan goes on for a quantum.
    Measure,
    /// How far the scan has come is reported; then the step is over.
    Report(JobStep),
    /// The step is over.
    Over(JobStep),
}

/// What a part of a step came to: whether the service was closed, whether there is an enrolled
/// root to open or the step that is over, or where the scan stands.
#[derive(Debug, Clone, Copy, PartialEq, Eq, Structural)]
pub enum StageEnd {
    Closed(bool),
    Enrolled(bool),
    Refused(JobStep),
    Begun,
    Measured { phase: ScanPhase, failed: bool, unfit: bool },
    Reported,
}

/// What a step does after a part of it. A scan with a summary that does not fit its room fails and
/// is not reported.
pub open spec fn stage_after(stage: Stage, end: StageEnd) -> Stage {
    match (stage, end) {
        (Stage::Check, StageEnd::Closed(closed)) => if closed {
            Stage::Over(JobStep::Completed)
        } else {
            Stage::Enroll
        },
        (Stage::Enroll, StageEnd::Enrolled(root)) => if root {
            Stage::Begin
        } else {
            Stage::Measure
        },
        (Stage::Enroll, StageEnd::Refused(step)) => Stage::Over(step),
        (Stage::Begin, StageEnd::Begun) => Stage::Measure,
        (Stage::Measure, StageEnd::Measured { phase, failed, unfit }) => if unfit {
            Stage::Over(JobStep::Failed)
        } else {
            Stage::Report(quantum_step(phase, failed))
        },
        (Stage::Report(step), StageEnd::Reported) => Stage::Over(step),
        _ => Stage::Over(JobStep::Failed),
    }
}

/// What a step does after a part of it. A scan with a summary that does not fit its room fails and
/// is not reported.
pub fn next_stage(stage: Stage, end: StageEnd) -> (next: Stage)
    ensures
        next == stage_after(stage, end),
{
    match (stage, end) {
        (Stage::Check, StageEnd::Closed(closed)) => {
            if closed {
                Stage::Over(JobStep::Completed)
            } else {
                Stage::Enroll
            }
        },
        (Stage::Enroll, StageEnd::Enrolled(root)) => {
            if root {
                Stage::Begin
            } else {
                Stage::Measure
            }
        },
        (Stage::Enroll, StageEnd::Refused(step)) => Stage::Over(step),
        (Stage::Begin, StageEnd::Begun) => Stage::Measure,
        (Stage::Measure, StageEnd::Measured { phase, failed, unfit }) => {
            if unfit {
                Stage::Over(JobStep::Failed)
            } else {
                Stage::Report(step_after(phase, failed))
            }
        },
        (Stage::Report(step), StageEnd::Reported) => Stage::Over(step),
        _ => Stage::Over(JobStep::Failed),
    }
}

/// How a task that is done with leaves its work, why its root is partial, and in which state.
pub open spec fn ending(status: Status) -> (Phase, Option<Reason>, ScanState) {
    match status {
        Status::Cancelled => (Phase::Cancelled, Some(Reason::Cancelled), ScanState::Cancelled),
        Status::Failed => (Phase::Failed, Some(Reason::ReadError), ScanState::Failed),
        Status::ResourceLimit => (
            Phase::Completed,
            Some(Reason::ResourceLimit),
            ScanState::Settled,
        ),
        _ => (Phase::Completed, None, ScanState::Settled),
    }
}

/// How a task that is done with leaves its work, why its root is partial, and in which state.
pub fn ending_of(status: Status) -> (end: (Phase, Option<Reason>, ScanState))
    ensures
        end == ending(status),
{
    match status {
        Status::Cancelled => (Phase::Cancelled, Some(Reason::Cancelled), ScanState::Cancelled),
        Status::Failed => (Phase::Failed, Some(Reason::ReadError), ScanState::Failed),
        Status::ResourceLimit => (
            Phase::Completed,
            Some(Reason::ResourceLimit),
            ScanState::Settled,
        ),
        _ => (Phase::Completed, None, ScanState::Settled),
    }
}

/// What is said of a task that gave no issue of its own.
pub open spec fn fallback(status: Status) -> Option<IssueView> {
    match status {
        Status::Failed => Some(service::scan_issue("INTERNAL"@)),
        Status::ResourceLimit => Some(service::scan_issue("RESOURCE_LIMIT"@)),
        _ => None,
    }
}

/// What is said of a task that gave no issue of its own.
pub fn fallback_issue(status: Status) -> (failure: Option<FsIssue>)
    ensures
        cache::optional_issue(failure) == fallback(status),
{
    match status {
        Status::Failed => Some(issue("INTERNAL")),
        Status::ResourceLimit => Some(issue("RESOURCE_LIMIT")),
        _ => None,
    }
}

/// The task of one scan.
pub struct UsageJob<S: ObservationSource, H: Handles> {
    start: Option<(S, Observation)>,
    pub scanner: Option<UsageScanner<BudgetedSource<S, H>>>,
    limits: ScanLimits,
    events: TaskEvents,
    failure: Option<FsIssue>,
}

/// The root that a scan is to begin at, the scan once it has begun, what was offered of it, and
/// what is to be said of it.
#[verifier::ext_equal]
pub struct UsageJobView {
    pub root: Option<ObservationView>,
    pub scan: Option<ScannerView>,
    pub limits: ScanLimits,
    pub events: TaskEventsView,
    pub failure: Option<IssueView>,
}

impl<S: ObservationSource, H: Handles> View for UsageJob<S, H> {
    type V = UsageJobView;

    closed spec fn view(&self) -> UsageJobView {
        UsageJobView {
            root: match self.start {
                Some(start) => Some(start.1@),
                None => None,
            },
            scan: match self.scanner {
                Some(scanner) => Some(scanner@),
                None => None,
            },
            limits: self.limits,
            events: self.events@,
            failure: cache::optional_issue(self.failure),
        }
    }
}

impl UsageJobView {
    /// What is counted of the scan.
    pub open spec fn counts(self) -> Option<(u64, u64, IssuesView)> {
        match self.scan {
            Some(scan) => Some(
                (scan.stats.processed_entries, scan.stats.processed_directories, scan.issues),
            ),
            None => None,
        }
    }

    /// What a report to a service at a time leaves. What was to be said of the scan is said once.
    pub open spec fn reported(
        self,
        service: UsageServiceView,
        terminal: Option<Phase>,
        time: TimeView,
    ) -> (UsageServiceView, UsageJobView) {
        let after = service.reported(self.counts(), self.failure, terminal, time.observed_at);
        (
            after,
            UsageJobView {
                failure: None,
                events: if service.takes_reports() {
                    self.events.after(after.work->0, time.monotonic_ms)
                } else {
                    self.events
                },
                ..self
            },
        )
    }

    /// Whether what is due of a report at a time goes to the sink.
    pub open spec fn announces<E: EventSink + ?Sized>(
        self,
        service: UsageServiceView,
        terminal: Option<Phase>,
        time: TimeView,
        sink: &E,
    ) -> bool {
        let work = service.reported(self.counts(), self.failure, terminal, time.observed_at).work->0;
        service.takes_reports() && self.events.offers(work, time.monotonic_ms) ==> events::offered(
            sink,
            self.events.offer(work, EventKind::UsageChanged),
        )
    }

    /// The scan began at its root.
    pub open spec fn begun(self, id: Seq<char>, opening: OpeningView) -> UsageJobView {
        UsageJobView {
            root: None,
            scan: Some(ScannerView::begun(self.root->0, id, self.limits, opening)),
            ..self
        }
    }

    /// The scan cannot begin.
    pub open spec fn refused(self, code: Seq<char>) -> UsageJobView {
        UsageJobView { root: None, failure: Some(service::scan_issue(code)), ..self }
    }
}

/// A task together with the index that it publishes to, and the pool in which the index has its
/// hold.
#[verifier::ext_equal]
pub struct Ground {
    pub index: IndexView,
    pub pool: PoolView,
    pub hold: int,
    pub job: UsageJobView,
}

/// A task together with all that it works on.
#[verifier::ext_equal]
pub struct Site {
    pub service: UsageServiceView,
    pub ground: Ground,
}

/// What the outside decides of one step: what registering the root costs, how it came to be read,
/// what time it is, which rounds there are, and what time it is afterwards.
pub struct Shift {
    pub cost: nat,
    pub opening: OpeningView,
    pub time: TimeView,
    pub rounds: Seq<Round>,
    pub later: TimeView,
}

impl Ground {
    /// The key of a root.
    pub open spec fn key(root: ObservationView) -> KeyView {
        KeyView { parent_id: None, raw_name: root.raw_name }
    }

    /// The root was registered at a cost.
    pub open spec fn registered(self, root: ObservationView, cost: nat) -> Ground {
        let key = Self::key(root);
        Ground {
            index: self.index.registered(self.pool, key, Origin::Background, cost),
            pool: if self.index.registers(self.pool, key, Origin::Background, cost) {
                self.pool.resized(self.hold, self.index.background + cost)
            } else {
                self.pool
            },
            ..self
        }
    }

    /// Whether enrolling the root can cost this much: only a directory is registered.
    pub open spec fn charges(self, cost: nat) -> bool {
        self.job.scan is None && self.job.root is Some && self.job.root->0.kind is Directory
            ==> self.index.may_cost(Self::key(self.job.root->0), cost)
    }

    /// What enrolling the root leaves, with its id or the step that is over then. A task that has
    /// no root to begin at failed before.
    pub open spec fn enrolled(self, cost: nat) -> (Ground, Result<Seq<char>, JobStep>) {
        match self.job.root {
            None => (self, Err(JobStep::Failed)),
            Some(root) => if root.kind is Directory {
                let after = self.registered(root, cost);
                match self.index.register_answer(
                    self.pool,
                    Self::key(root),
                    Origin::Background,
                    cost,
                ) {
                    Ok(id) => (after, Ok(id)),
                    Err(_) => (
                        Ground { job: self.job.refused("RESOURCE_LIMIT"@), ..after },
                        Err(refused_step("RESOURCE_LIMIT"@)),
                    ),
                }
            } else {
                (
                    Ground { job: self.job.refused("NOT_DIRECTORY"@), ..self },
                    Err(refused_step("NOT_DIRECTORY"@)),
                )
            },
        }
    }

    /// Whether enrolling the root comes to this.
    pub open spec fn enrolls(
        self,
        cost: nat,
        end: Ground,
        result: Result<Option<String>, JobStep>,
    ) -> bool {
        let (ground, answer) = self.enrolled(cost);
        &&& end == ground
        &&& self.charges(cost)
        &&& match answer {
            Ok(id) => result is Ok && result->Ok_0 is Some && result->Ok_0->0@ == id,
            Err(step) => result == Err::<Option<String>, JobStep>(step),
        }
    }

    /// The scan began at its enrolled root.
    pub open spec fn begun(self, id: Seq<char>, opening: OpeningView) -> Ground {
        Ground { job: self.job.begun(id, opening), ..self }
    }

    /// The scan with the index and the pool that it works on.
    pub open spec fn quantum(self) -> Quantum {
        Quantum {
            progress: Progress { scan: self.job.scan->0, index: self.index },
            pool: self.pool,
            hold: self.hold,
        }
    }

    /// The scan has come this far.
    pub open spec fn measured(self, quantum: Quantum) -> Ground {
        Ground {
            index: quantum.progress.index,
            pool: quantum.pool,
            job: UsageJobView { scan: Some(quantum.progress.scan), ..self.job },
            ..self
        }
    }
}

impl Site {
    /// The same service with this ground.
    pub open spec fn with(self, ground: Ground) -> Site {
        Site { ground, ..self }
    }

    /// What a report at a time leaves.
    pub open spec fn reported(self, terminal: Option<Phase>, time: TimeView) -> Site {
        let (service, job) = self.ground.job.reported(self.service, terminal, time);
        Site { service, ground: Ground { job, ..self.ground } }
    }

    /// What the quantum of a step leaves.
    pub open spec fn measured(self, shift: Shift) -> Site {
        let at = shift.time.observed_at;
        if self.ground.job.scan->0.going() {
            self.with(
                self.ground.measured(
                    self.ground.quantum().after_all(shift.rounds, at).shown(at),
                ),
            )
        } else {
            self
        }
    }

    /// What a step leaves that has a scan, and what it brings. A scan with a summary that does not
    /// fit its room fails, and is not reported.
    pub open spec fn advanced(self, shift: Shift) -> (Site, JobStep) {
        let after = self.measured(shift);
        let scan = after.ground.job.scan->0;
        if scan.unfit {
            (after, JobStep::Failed)
        } else {
            (
                after.reported(None, shift.later),
                quantum_step(scan.phase, scan.root_open_failed),
            )
        }
    }

    /// Whether a scan can have advanced so.
    pub open spec fn can_advance(self, shift: Shift) -> bool {
        self.ground.job.scan->0.going() ==> {
            &&& 0 < shift.rounds.len() <= QUANTUM_ITEMS
            &&& self.ground.quantum().allows_all(shift.rounds, shift.time.observed_at)
        }
    }

    /// The site with a scan, which is begun where there is none.
    pub open spec fn ready(self, shift: Shift) -> Site {
        if self.ground.job.scan is Some {
            self
        } else {
            let (enrolled, id) = self.ground.enrolled(shift.cost);
            self.with(enrolled.begun(id->Ok_0, shift.opening))
        }
    }

    /// Whether a step comes as far as its scan.
    pub open spec fn reaches(self, shift: Shift) -> bool {
        !self.service.closed && (self.ground.job.scan is Some || self.ground.enrolled(
            shift.cost,
        ).1 is Ok)
    }

    /// Whether a step can have come to this end.
    pub open spec fn steps_to(self, shift: Shift, end: Site, step: JobStep) -> bool {
        if self.service.closed {
            end == self && step is Completed
        } else if self.reaches(shift) {
            let ready = self.ready(shift);
            &&& self.ground.charges(shift.cost)
            &&& ready.can_advance(shift)
            &&& ready.advanced(shift) == (end, step)
        } else {
            let (enrolled, refused) = self.ground.enrolled(shift.cost);
            &&& self.ground.charges(shift.cost)
            &&& end == self.with(enrolled)
            &&& step == refused->Err_0
        }
    }
}

/// What a task leaves behind: its service, the index, and how far it came.
#[verifier::ext_equal]
pub struct Traces {
    pub service: UsageServiceView,
    pub index: IndexView,
    pub job: UsageJobView,
}

impl Traces {
    /// The scan was ended for a reason, if it still ran.
    pub open spec fn aborted(self, reason: Reason, at: Seq<char>) -> Traces {
        if self.job.scan is Some && self.job.scan->0.phase is Running {
            let progress = Progress { scan: self.job.scan->0, index: self.index }.stopped(
                reason,
                at,
            );
            Traces {
                index: progress.index,
                job: UsageJobView { scan: Some(progress.scan), ..self.job },
                ..self
            }
        } else {
            self
        }
    }

    /// The root was marked as partial.
    pub open spec fn marked(self, state: ScanState, reason: Reason, at: Seq<char>) -> Traces {
        Traces {
            index: self.index.with_usage(
                service::marked_usage(self.index, self.service.root_id, state, reason, at),
            ),
            ..self
        }
    }

    /// Something is to be said of a task that gave no issue of its own.
    pub open spec fn explained(self, status: Status) -> Traces {
        let silent = self.job.scan is None || self.job.scan->0.issues.counts == Map::<
            Seq<char>,
            nat,
        >::empty();
        if self.job.failure is None && silent {
            Traces { job: UsageJobView { failure: fallback(status), ..self.job }, ..self }
        } else {
            self
        }
    }

    /// A scan that was stopped is published with what it has, its root is marked, and something
    /// is to be said of it.
    pub open spec fn stopped(self, status: Status, at: Seq<char>) -> Traces {
        let (_, reason, state) = ending(status);
        match reason {
            Some(reason) => self.aborted(reason, at).marked(state, reason, at).explained(status),
            None => self,
        }
    }

    /// What the end of a task leaves. Its work ends with it.
    pub open spec fn ended(self, status: Status, time: TimeView, later: TimeView) -> Traces {
        if self.service.closed {
            self
        } else {
            let left = self.stopped(status, time.observed_at);
            let (service, job) = left.job.reported(
                left.service,
                Some(ending(status).0),
                later,
            );
            Traces { service, job, ..left }
        }
    }
}

impl<S: ObservationSource, H: Handles + Clone> UsageJob<S, H> {
    /// The scan is in order.
    pub closed spec fn inv(&self) -> bool {
        self.scanner is Some ==> self.scanner->0.wf()
    }

    /// The scan is in order, and its directories are in the index.
    pub open spec fn wf(&self, index: &DirectoryIndex) -> bool {
        self.inv() && (self@.scan is Some ==> self@.scan->0.on(index@))
    }

    /// The source that the scan is to read, before it has begun.
    pub closed spec fn source_held(&self) -> S {
        (self.start->0).0
    }

    /// What the scan reads with, once it has begun.
    pub closed spec fn reader(&self) -> Reader<BudgetedSource<S, H>> {
        self.scanner->0.reader()
    }

    /// Whether this is the task's source, charged to the handles.
    pub open spec fn charges(&self, handles: &H, charged: BudgetedSource<S, H>) -> bool {
        &&& charged.source_now() == self.source_held()
        &&& call_ensures(H::clone, (handles,), charged.handles_now())
    }

    /// Whether the root of a task can have been opened so.
    pub open spec fn begins(
        &self,
        cancel: &Cancellation,
        handles: &H,
        opening: Opening<BudgetedCursor<S::Cursor, H::Permit>>,
        reader: Reader<BudgetedSource<S, H>>,
    ) -> bool {
        &&& reader.token == *cancel
        &&& reader.cursors == seq![opening.cursor()]
        &&& exists|charged: BudgetedSource<S, H>|
            {
                &&& #[trigger] self.charges(handles, charged)
                &&& UsageScanner::<BudgetedSource<S, H>>::root_opens(
                    charged,
                    self@.root->0,
                    self@.limits,
                    cancel,
                    reader.source,
                    opening,
                )
            }
    }

    /// Whether this is what a step reads with: what the scan has, or what its beginning gave.
    pub open spec fn readies(
        &self,
        cancel: &Cancellation,
        handles: &H,
        shown: OpeningView,
        reader: Reader<BudgetedSource<S, H>>,
    ) -> bool {
        if self@.scan is Some {
            reader == self.reader()
        } else {
            exists|opening: Opening<BudgetedCursor<S::Cursor, H::Permit>>|
                opening@ == shown && #[trigger] self.begins(cancel, handles, opening, reader)
        }
    }

    /// Whether a step that comes as far as its scan was made so: what it reads comes from the
    /// source, its times from the clock, and what is due goes to the sink. Where every summary has
    /// room, every one fits.
    pub open spec fn performs<C: Clock + ?Sized, E: EventSink + ?Sized>(
        &self,
        start: Site,
        cancel: &Cancellation,
        handles: &H,
        clock: &C,
        sink: &E,
        shift: Shift,
        after: &Self,
    ) -> bool {
        let ready = start.ready(shift);
        let measured = ready.measured(shift);
        &&& clock::reads(clock, shift.time)
        &&& exists|reader: Reader<BudgetedSource<S, H>>|
            {
                &&& #[trigger] self.readies(cancel, handles, shift.opening, reader)
                &&& if ready.ground.job.scan->0.going() {
                    ready.ground.quantum().made(
                        reader,
                        shift.rounds,
                        QUANTUM_ITEMS as nat,
                        shift.time.observed_at,
                        after.reader(),
                    )
                } else {
                    after.reader() == reader
                }
            }
        &&& summary::room_for_summaries(start.ground.index.prefix, shift.time.observed_at)
            ==> measured.ground.job.scan->0.unfit == ready.ground.job.scan->0.unfit
        &&& !measured.ground.job.scan->0.unfit ==> {
            &&& clock::reads(clock, shift.later)
            &&& measured.ground.job.announces(measured.service, None, shift.later, sink)
        }
    }

    /// The task together with the index that it publishes to.
    pub open spec fn ground(&self, index: &DirectoryIndex, pools: &IndexPools) -> Ground {
        Ground {
            index: index@,
            pool: pools.background@,
            hold: index.background_id(),
            job: self@,
        }
    }

    /// The task together with all that it works on.
    pub open spec fn site(
        &self,
        service: &UsageService,
        index: &DirectoryIndex,
        pools: &IndexPools,
    ) -> Site {
        Site { service: service@, ground: self.ground(index, pools) }
    }

    /// What the task leaves behind.
    pub open spec fn traces(&self, service: &UsageService, index: &DirectoryIndex) -> Traces {
        Traces { service: service@, index: index@, job: self@ }
    }

    /// A task that has not begun.
    pub fn new(source: S, root: Observation, limits: ScanLimits) -> (job: Self)
        ensures
            job.inv(),
            job@ == (UsageJobView {
                root: Some(root@),
                scan: None,
                limits,
                events: TaskEventsView::none(),
                failure: None,
            }),
            job.source_held() == source,
    {
        UsageJob {
            start: Some((source, root)),
            scanner: None,
            limits,
            events: TaskEvents::default(),
            failure: None,
        }
    }

    /// Registers the root, unless the scan has begun. Its id comes back, or the step that is over
    /// then.
    pub fn enroll(&mut self, index: &mut DirectoryIndex, pools: &mut IndexPools) -> (
    enrolled: Result<Option<String>, JobStep>)
        requires
            old(self).wf(old(index)),
            old(index).wf(),
            old(index).backed(old(pools)),
        ensures
            final(self).wf(final(index)),
            final(index).wf(),
            final(index).backed(final(pools)),
            final(index).same_holds(old(index)),
            final(pools).foreground@ == old(pools).foreground@,
            old(self)@.scan is Some ==> enrolled == Ok::<Option<String>, JobStep>(None)
                && final(self).ground(final(index), final(pools)) == old(self).ground(
                old(index),
                old(pools),
            ),
            old(self)@.scan is None ==> exists|cost: nat| #[trigger]
                old(self).ground(old(index), old(pools)).enrolls(
                    cost,
                    final(self).ground(final(index), final(pools)),
                    enrolled,
                ),
            enrolled matches Ok(Some(id)) ==> final(index)@.records.contains_key(id@),
            enrolled is Ok ==> *final(self) == *old(self),
    {
        if self.scanner.is_some() {
            return Ok(None);
        }
        let ghost before = self.ground(index, pools);
        let registered: Result<String, &'static str> = match &self.start {
            Some(start) => {
                UsageScanner::<BudgetedSource<S, H>>::register_root(&start.1, index, pools)
            },
            None => {
                let enrolled: Result<Option<String>, JobStep> = Err(JobStep::Failed);
                assert(before.enrolls(0, self.ground(index, pools), enrolled));
                return enrolled;
            },
        };
        let ghost root = self@.root->0;
        let ghost cost: nat = if root.kind is Directory {
            let (cost, answer) = choose|cost: nat, answer: Result<String, IndexError>|
                {
                    &&& #[trigger] UsageScanner::<BudgetedSource<S, H>>::root_registration(
                        old(index),
                        old(pools),
                        index,
                        pools,
                        root,
                        cost,
                        answer,
                    )
                    &&& match answer {
                        Ok(given) => {
                            &&& registered is Ok
                            &&& registered->Ok_0@ == given@
                            &&& index@.records.contains_key(given@)
                        },
                        Err(_) => registered is Err && registered->Err_0@ == "RESOURCE_LIMIT"@,
                    }
                };
            cost
        } else {
            0
        };
        match registered {
            Ok(id) => {
                let enrolled: Result<Option<String>, JobStep> = Ok(Some(id));
                proof {
                    assert(self.ground(index, pools) =~= before.enrolled(cost).0);
                    assert(before.enrolls(cost, self.ground(index, pools), enrolled));
                }
                enrolled
            },
            Err(code) => {
                self.start = None;
                self.failure = Some(issue(code));
                let enrolled: Result<Option<String>, JobStep> = Err(step_without_scan(code));
                proof {
                    assert(self@ =~= before.job.refused(code@));
                    assert(self.ground(index, pools) =~= before.enrolled(cost).0);
                    assert(before.enrolls(cost, self.ground(index, pools), enrolled));
                }
                enrolled
            },
        }
    }

    /// Opens the enrolled root, and begins the scan.
    pub fn begin(&mut self, root_id: String, cancel: &Cancellation, handles: &H)
        requires
            old(self)@.root is Some,
            old(self)@.scan is None,
        ensures
            final(self).inv(),
            exists|opening: Opening<BudgetedCursor<S::Cursor, H::Permit>>|
                {
                    &&& #[trigger] old(self).begins(
                        cancel,
                        handles,
                        opening,
                        final(self).reader(),
                    )
                    &&& final(self)@ == old(self)@.begun(root_id@, opening@)
                },
    {
        let ghost before = self@;
        let mut start: Option<(S, Observation)> = None;
        std::mem::swap(&mut start, &mut self.start);
        if let Some((source, root)) = start {
            let lent = handles.clone();
            assert(call_ensures(H::clone, (handles,), lent));
            let mut budgeted = BudgetedSource::new(source, lent);
            let ghost charged = budgeted;
            assert(old(self).charges(handles, charged));
            let opening = UsageScanner::open_root(&mut budgeted, &root, self.limits, cancel);
            let ghost shown = opening;
            let ghost id = root_id@;
            let scanner = UsageScanner::with_root(
                budgeted,
                &root,
                root_id,
                self.limits,
                cancel.clone(),
                opening,
            );
            self.scanner = Some(scanner);
            assert(self@ =~= before.begun(id, shown@));
            assert(old(self).begins(cancel, handles, shown, self.reader()));
        }
    }

    /// Reports how far the scan has come. What was to be said of it is said once.
    pub fn publish<E: EventSink + ?Sized>(
        &mut self,
        terminal: Option<Phase>,
        time: TimeSample,
        sink: &E,
        service: &mut UsageService,
    )
        ensures
            old(self).inv() ==> final(self).inv(),
            (final(service)@, final(self)@) == old(self)@.reported(
                old(service)@,
                terminal,
                time@,
            ),
            old(self)@.announces(old(service)@, terminal, time@, sink),
            final(self).reader() == old(self).reader(),
    {
        let ghost before = self@;
        let ghost shown = service@;
        let counts: Option<(u64, u64, Issues)> = match &self.scanner {
            Some(scanner) => {
                let stats = scanner.progress();
                Some(
                    (stats.processed_entries, stats.processed_directories, scanner.met().copy()),
                )
            },
            None => None,
        };
        let mut failure: Option<FsIssue> = None;
        std::mem::swap(&mut failure, &mut self.failure);
        let now: u64 = time.monotonic_ms;
        let ghost at = time@;
        let reported = service.report(counts, failure, terminal, time.observed_at);
        if let Some(work) = reported {
            let _taken = self.events.publish(&work, EventKind::UsageChanged, now, sink);
            proof {
                if before.events.offers(work@, now) {
                    assert(events::handed(
                        sink,
                        before.events.offer(work@, EventKind::UsageChanged),
                        _taken,
                    ));
                }
            }
        }
        assert(self@ =~= before.reported(shown, terminal, at).1);
    }

    /// One quantum of the scan, which is enrolled and begun before the first.
    #[verifier::spinoff_prover]
    #[verifier::rlimit(40)]
    pub fn step<C: Clock + ?Sized, E: EventSink + ?Sized>(
        &mut self,
        cancel: &Cancellation,
        handles: &H,
        clock: &C,
        sink: &E,
        service: &mut UsageService,
        index: &mut DirectoryIndex,
        pools: &mut IndexPools,
    ) -> (step: JobStep)
        requires
            old(self).wf(old(index)),
            old(index).wf(),
            old(index).backed(old(pools)),
        ensures
            final(self).wf(final(index)),
            final(index).wf(),
            final(index).backed(final(pools)),
            final(index).same_holds(old(index)),
            final(pools).foreground@ == old(pools).foreground@,
            exists|shift: Shift|
                {
                    let start = old(self).site(old(service), old(index), old(pools));
                    &&& #[trigger] old(self).site(old(service), old(index), old(pools)).steps_to(
                        shift,
                        final(self).site(final(service), final(index), final(pools)),
                        step,
                    )
                    &&& start.reaches(shift) ==> old(self).performs(
                        start,
                        cancel,
                        handles,
                        clock,
                        sink,
                        shift,
                        final(self),
                    )
                },
    {
        let ghost start = self.site(service, index, pools);
        let ghost nothing = Shift {
            cost: 0,
            opening: OpeningView::Cancelled,
            time: TimeView { monotonic_ms: 0, observed_at: Seq::empty() },
            rounds: Seq::empty(),
            later: TimeView { monotonic_ms: 0, observed_at: Seq::empty() },
        };
        let stage = next_stage(Stage::Check, StageEnd::Closed(service.is_closed()));
        if let Stage::Over(step) = stage {
            assert(start.steps_to(nothing, start, step));
            return step;
        }
        let enrolled = self.enroll(index, pools);
        let ghost middle = self.ground(index, pools);
        let ghost answer = enrolled;
        let ghost cost = choose|cost: nat| start.ground.enrolls(cost, middle, answer);
        let ghost mut opening = OpeningView::Cancelled;
        let mut id: Option<String> = None;
        let end = match enrolled {
            Err(step) => StageEnd::Refused(step),
            Ok(Some(root_id)) => {
                id = Some(root_id);
                StageEnd::Enrolled(true)
            },
            Ok(None) => StageEnd::Enrolled(false),
        };
        let stage = next_stage(Stage::Enroll, end);
        if let Stage::Over(step) = stage {
            assert(!start.reaches(Shift { cost, ..nothing }));
            assert(start.steps_to(Shift { cost, ..nothing }, start.with(middle), step));
            return step;
        }
        let ghost known = *self;
        if let Some(root_id) = id {
            let ghost shown = root_id@;
            self.begin(root_id, cancel, handles);
            proof {
                let opened = choose|opened: Opening<BudgetedCursor<S::Cursor, H::Permit>>|
                    {
                        &&& #[trigger] known.begins(cancel, handles, opened, self.reader())
                        &&& self@ == known@.begun(shown, opened@)
                    };
                opening = opened@;
                assert(self.ground(index, pools) =~= middle.begun(shown, opening));
                assert(self@.scan->0.on(index@));
            }
        }
        let ghost ready = self.site(service, index, pools);
        let ghost reader = self.reader();
        assert(old(self).readies(cancel, handles, opening, reader));
        let time = clock.sample();
        let ghost at = time@;
        assert(call_ensures(C::sample, (clock,), time));
        assert(clock::reads(clock, at));
        let ghost mut rounds: Seq<Round> = Seq::empty();
        let mut phase = ScanPhase::Cancelled;
        let mut failed = false;
        let mut unfit = false;
        if let Some(scanner) = &mut self.scanner {
            let ghost before = scanner.quantum(index, pools);
            phase = scanner.step(index, pools, QUANTUM_ITEMS, time.observed_at.as_str());
            failed = scanner.root_failed();
            unfit = scanner.is_unfit();
            proof {
                let after = scanner.quantum(index, pools);
                if before.progress.scan.going() {
                    rounds = choose|rounds: Seq<Round>|
                        {
                            &&& #[trigger] before.leads_to(
                                rounds,
                                QUANTUM_ITEMS as nat,
                                at.observed_at,
                                after,
                            )
                            &&& before.made(
                                reader,
                                rounds,
                                QUANTUM_ITEMS as nat,
                                at.observed_at,
                                scanner.reader(),
                            )
                        };
                }
            }
        }
        let ghost advanced = self.site(service, index, pools);
        let ghost shift = Shift { cost, opening, time: at, rounds, later: nothing.later };
        proof {
            assert(start.reaches(shift));
            assert(start.ready(shift) =~= ready);
            assert(ready.can_advance(shift));
            assert(advanced =~= ready.measured(shift));
        }
        let stage = next_stage(Stage::Measure, StageEnd::Measured { phase, failed, unfit });
        match stage {
            Stage::Report(step) => {
                let later = clock.sample();
                let ghost then = later@;
                assert(call_ensures(C::sample, (clock,), later));
                assert(clock::reads(clock, then));
                self.publish(None, later, sink, service);
                proof {
                    let end = self.site(service, index, pools);
                    let full = Shift { later: then, ..shift };
                    assert(start.reaches(full));
                    assert(start.ready(full) =~= ready);
                    assert(advanced =~= ready.measured(full));
                    assert(end =~= advanced.reported(None, then));
                    assert(start.steps_to(full, end, step));
                }
                step
            },
            _ => {
                assert(start.steps_to(shift, advanced, JobStep::Failed));
                JobStep::Failed
            },
        }
    }

    /// Publishes what the scan has, marks the root where the scan is partial, and ends the work.
    #[verifier::spinoff_prover]
    #[verifier::rlimit(40)]
    pub fn stopped<C: Clock + ?Sized, E: EventSink + ?Sized>(
        &mut self,
        status: Status,
        clock: &C,
        sink: &E,
        service: &mut UsageService,
        index: &mut DirectoryIndex,
    )
        requires
            old(self).wf(old(index)),
            old(index).wf(),
        ensures
            final(self).wf(final(index)),
            final(index).wf(),
            final(index).same_holds(old(index)),
            forall|pools: &IndexPools| old(index).backed(pools) ==> final(index).backed(pools),
            exists|time: TimeView, later: TimeView|
                {
                    let start = old(self).traces(old(service), old(index));
                    let left = start.stopped(status, time.observed_at);
                    &&& final(self).traces(final(service), final(index)) == #[trigger] old(self).traces(
                        old(service),
                        old(index),
                    ).ended(status, time, later)
                    &&& !old(service)@.closed ==> {
                        &&& clock::reads(clock, time)
                        &&& clock::reads(clock, later)
                        &&& left.job.announces(
                            left.service,
                            Some(ending(status).0),
                            later,
                            sink,
                        )
                    }
                },
            old(self)@.scan is Some ==> final(self).reader().source == old(self).reader().source,
    {
        let ghost start = self.traces(service, index);
        if service.is_closed() {
            let ghost none = TimeView { monotonic_ms: 0, observed_at: Seq::empty() };
            assert(start == start.ended(status, none, none));
            return;
        }
        let time = clock.sample();
        assert(call_ensures(C::sample, (clock,), time));
        assert(clock::reads(clock, time@));
        let at = time.observed_at.as_str();
        let (phase, reason, state) = ending_of(status);
        let ghost shown = time@;
        if let Some(reason) = reason {
            let mut silent = true;
            if let Some(scanner) = &mut self.scanner {
                scanner.abort(index, reason, at);
                silent = scanner.met().counts.is_empty();
            }
            let ghost aborted = self.traces(service, index);
            assert(aborted =~= start.aborted(reason, shown.observed_at));
            mark_root(index, service.root_id(), state, reason, at);
            let ghost marked = self.traces(service, index);
            assert(marked =~= aborted.marked(state, reason, shown.observed_at));
            if self.failure.is_none() && silent {
                self.failure = fallback_issue(status);
            }
            assert(self.traces(service, index) =~= marked.explained(status));
        }
        let ghost left = self.traces(service, index);
        assert(left == start.stopped(status, shown.observed_at));
        let later = clock.sample();
        let ghost then = later@;
        assert(call_ensures(C::sample, (clock,), later));
        assert(clock::reads(clock, then));
        self.publish(Some(phase), later, sink, service);
        assert(self.traces(service, index) =~= start.ended(status, shown, then));
    }
}

/// A task that is done with ends its work: in the phase that belongs to its status, and for good.
pub proof fn the_end_of_a_task_ends_its_work(
    traces: Traces,
    status: Status,
    time: TimeView,
    later: TimeView,
)
    requires
        traces.service.takes_reports(),
    ensures
        ({
            let end = traces.ended(status, time, later);
            &&& end.service.work is Some
            &&& end.service.work->0.phase == ending(status).0
            &&& end.service.work->0.observed_at == later.observed_at
            &&& end.service.work->0.wait_reason is None
            &&& !end.service.takes_reports()
            &&& end.job.failure is None
        }),
{
}

/// A task whose service was closed tells nothing any more, and changes nothing.
pub proof fn a_closed_service_hears_nothing(
    site: Site,
    shift: Shift,
    end: Site,
    step: JobStep,
    status: Status,
    time: TimeView,
    later: TimeView,
)
    requires
        site.service.closed,
        site.steps_to(shift, end, step),
    ensures
        end == site,
        step is Completed,
        ({
            let traces = Traces {
                service: site.service,
                index: site.ground.index,
                job: site.ground.job,
            };
            traces.ended(status, time, later) == traces
        }),
{
}

/// A scan with a summary that does not fit its room fails, and nothing of it is reported.
pub proof fn an_unfit_scan_fails(site: Site, shift: Shift, end: Site, step: JobStep)
    requires
        site.reaches(shift),
        site.ready(shift).measured(shift).ground.job.scan->0.unfit,
        site.steps_to(shift, end, step),
    ensures
        step is Failed,
        end.service == site.service,
{
}

/// A scan that could not begin opens nothing: there is no scan afterwards, and its task says why.
pub proof fn a_refused_scan_opens_nothing(site: Site, shift: Shift, end: Site, step: JobStep)
    requires
        !site.service.closed,
        site.ground.job.scan is None,
        site.ground.job.root is Some,
        site.ground.enrolled(shift.cost).1 is Err,
        site.steps_to(shift, end, step),
    ensures
        end.ground.job.scan is None,
        end.ground.job.failure is Some,
        step == refused_step(end.ground.job.failure->0.code),
        end.service == site.service,
{
}

} // verus!
