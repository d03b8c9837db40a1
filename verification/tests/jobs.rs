use std::collections::VecDeque;
use std::sync::mpsc::Receiver;

use directory_ui_viewer::domain::controller::{Cancellation, Scope};
use directory_ui_viewer::domain::index::{DirectoryIndex, DirectoryKey, IndexPools, Origin};
use directory_ui_viewer::domain::model::{
    Category, Entry, EventKind, Field, FollowPolicy, FsIssue, IssueScope, Kind, Measure, Phase,
    ScanState, WaitReason, WorkEvent,
};
use directory_ui_viewer::domain::summary::summaries_fit;
use directory_ui_viewer::listing::cache::ListingCache;
use directory_ui_viewer::listing::job::{
    next_move, ListingJob, ListingSource, Move, STEP_TURNS,
};
use directory_ui_viewer::listing::service::{ListedEntry, ListingService};
use directory_ui_viewer::runtime::clock::{Clock, TimeSample};
use directory_ui_viewer::runtime::events::EventChannel;
use directory_ui_viewer::scan::job::{next_stage, Stage, StageEnd, UsageJob};
use directory_ui_viewer::scan::service::{UsageError, UsageService};
use directory_ui_viewer::scan::usage::{
    hear, next_part, next_round, settle_opening, FileIdentity, Heard, Metric, Observation,
    ObservationSource, Opening, Part, ScanLimits, ScanPhase,
};
use directory_ui_viewer::scheduler::{Handles, JobStep, Pending, Scheduler, Status, SubmitError};

const STAMP: &str = "2026-09-13T00:00:00Z";

/// Handles without a limit.
#[derive(Clone)]
struct Free;

impl Handles for Free {
    type Permit = ();
    fn acquire(&self) -> Result<(), SubmitError> {
        Ok(())
    }
}

struct Stamped(String);

impl Clock for Stamped {
    fn sample(&self) -> TimeSample {
        TimeSample { monotonic_ms: 7, observed_at: self.0.clone() }
    }
}

struct Rows(VecDeque<ListedEntry>);

impl ListingSource for Rows {
    type Cursor = ();
    fn open(&mut self, _: &str) -> Result<(), FsIssue> {
        Ok(())
    }
    fn next(&mut self, _: &mut ()) -> Result<Option<ListedEntry>, FsIssue> {
        Ok(self.0.pop_front())
    }
}

fn row(name: &str) -> ListedEntry {
    ListedEntry {
        raw_name: name.as_bytes().to_vec(),
        issue: None,
        entry: Entry {
            entry_id: "none".into(),
            parent_id: None,
            display_name: name.into(),
            kind: Kind::RegularFile,
            hidden: Field::Unknown,
            special_type: Field::Unsupported,
            modified_at: Field::Unknown,
            own_logical_bytes: Field::Unknown,
            own_allocated_bytes: Field::Unknown,
            observed_at: STAMP.into(),
            follow_policy: FollowPolicy::Never,
        },
    }
}

fn rows(count: usize) -> Rows {
    Rows((0..count).map(|n| row(&format!("f{n}"))).collect())
}

fn indexed() -> (DirectoryIndex, IndexPools, String) {
    let (mut index, mut pools) = DirectoryIndex::new("g1".into(), 1 << 24, 1 << 24);
    let key = DirectoryKey { parent_id: None, raw_name: b"root".to_vec() };
    let root = index.register(&mut pools, key, Origin::Foreground).unwrap();
    (index, pools, root)
}

fn scope() -> Scope {
    Scope { session_id: "s".into(), generation: 1 }
}

/// What one step of a listing of some rows comes to, for a first page of this size.
fn listing_step(count: usize, limit: usize, cancelled: bool) -> (JobStep, usize, Vec<WorkEvent>) {
    let (mut index, mut pools, root) = indexed();
    let (cache, mut pool) = ListingCache::new(1 << 24, 1000, 1_048_576);
    let mut service = ListingService::new(scope(), cache);
    let mut scheduler: Scheduler<()> = Scheduler::new(4, 4, 4);
    let mut gone: Vec<Pending<()>> = Vec::new();
    let handle = service
        .start(
            &mut index,
            &mut pools,
            &mut pool,
            &mut scheduler,
            &mut gone,
            Some(1),
            &root,
            Category::Files,
            limit,
            STAMP,
            0,
            |_| (),
        )
        .unwrap();
    let (sink, receiver) = EventChannel::bounded(8);
    let cancel = Cancellation::default();
    if cancelled {
        cancel.cancel();
    }
    let mut job: ListingJob<Rows, Free> =
        ListingJob::new(rows(count), handle.task_id.clone(), root, Category::Files);
    let step = job.step(
        &cancel,
        &Free,
        &Stamped(STAMP.into()),
        &sink,
        &mut service,
        &mut index,
        &mut pools,
        &mut pool,
        &mut scheduler,
        &mut gone,
    );
    let page = service
        .page(&mut pool, &mut scheduler, &mut gone, &handle.task_id, None, limit, 0)
        .unwrap();
    (step, page.entries.len(), drained(&receiver))
}

fn drained(receiver: &Receiver<WorkEvent>) -> Vec<WorkEvent> {
    let mut events = Vec::new();
    while let Ok(event) = receiver.try_recv() {
        events.push(event);
    }
    events
}

#[test]
fn a_step_reads_until_the_listing_ends_or_has_enough() {
    let (step, shown, events) = listing_step(3, 10, false);
    assert_eq!((step, shown), (JobStep::Completed, 3));
    assert!(events.is_empty());
    let (step, shown, events) = listing_step(50, 2, false);
    assert_eq!((step, shown), (JobStep::Paused, 2));
    assert_eq!(events.len(), 1);
    assert_eq!(events[0].kind, EventKind::ListingAvailable);
    assert_eq!(events[0].observed_at, STAMP);
}

#[test]
fn a_step_that_was_told_to_stop_reads_nothing() {
    let (step, shown, events) = listing_step(3, 10, true);
    assert_eq!((step, shown), (JobStep::Completed, 0));
    assert!(events.is_empty());
}

#[test]
fn a_step_makes_its_moves_in_order() {
    assert_eq!(next_move(Move::Look, None, true), Move::Read);
    assert_eq!(
        next_move(Move::Look, Some(JobStep::Paused), true),
        Move::Publish(JobStep::Paused)
    );
    assert_eq!(
        next_move(Move::Look, Some(JobStep::Completed), true),
        Move::Over(JobStep::Completed)
    );
    assert_eq!(next_move(Move::Read, None, true), Move::Accept);
    assert_eq!(next_move(Move::Accept, None, true), Move::Look);
    assert_eq!(next_move(Move::Accept, None, false), Move::Publish(JobStep::Yield));
    assert_eq!(
        next_move(Move::Accept, Some(JobStep::Failed), true),
        Move::Over(JobStep::Failed)
    );
    assert_eq!(
        next_move(Move::Publish(JobStep::Yield), None, true),
        Move::Over(JobStep::Yield)
    );
    assert_eq!(STEP_TURNS, 128);
}

#[test]
fn a_quantum_makes_its_parts_in_order() {
    assert_eq!(next_round(true, true), Part::Listen);
    assert_eq!(next_round(false, true), Part::Announce);
    assert_eq!(next_round(false, false), Part::Over);
    assert_eq!(next_part(Part::Listen, false, true, true), Part::Respond);
    assert_eq!(next_part(Part::Respond, true, true, true), Part::Open);
    assert_eq!(next_part(Part::Respond, false, true, true), Part::Listen);
    assert_eq!(next_part(Part::Open, true, true, true), Part::Enter);
    assert_eq!(next_part(Part::Enter, false, false, true), Part::Announce);
    assert_eq!(next_part(Part::Enter, false, false, false), Part::Over);
    assert_eq!(next_part(Part::Announce, false, true, true), Part::Over);
    assert!(matches!(hear(true, None), Heard::Stop));
    assert!(matches!(hear(false, Some((Ok(None), true))), Heard::Stop));
    assert!(matches!(hear(true, Some((Ok(None), false))), Heard::Stop));
    assert!(matches!(hear(false, Some((Ok(None), false))), Heard::Reply(Ok(None))));
}

#[test]
fn a_root_is_read_unless_a_stop_or_a_limit_comes_first() {
    let limits = ScanLimits::default();
    let closed = ScanLimits { max_open_directories: 0, ..ScanLimits::default() };
    let denied = || FsIssue {
        code: "PERMISSION_DENIED".into(),
        operation: "open".into(),
        scope: IssueScope::Root,
        entry_id: None,
        native_code: Some(13),
    };
    assert!(matches!(settle_opening::<u8>(true, closed, None), Opening::Cancelled));
    assert!(matches!(settle_opening::<u8>(false, closed, None), Opening::Limited));
    assert!(matches!(settle_opening(false, closed, Some((Ok(7_u8), false))), Opening::Limited));
    assert!(matches!(settle_opening(true, limits, Some((Ok(7_u8), false))), Opening::Cancelled));
    assert!(matches!(settle_opening(false, limits, Some((Ok(7_u8), true))), Opening::Cancelled));
    assert!(matches!(settle_opening(false, limits, Some((Ok(7_u8), false))), Opening::Opened(7)));
    let late = settle_opening::<u8>(false, limits, Some((Err(denied()), true)));
    assert!(matches!(late, Opening::Cancelled));
    match settle_opening::<u8>(false, limits, Some((Err(denied()), false))) {
        Opening::Failed(issue) => assert_eq!(issue, denied()),
        _ => panic!("the source failed"),
    }
}

#[test]
fn a_scan_makes_its_stages_in_order() {
    let over = Stage::Over(JobStep::Completed);
    assert_eq!(next_stage(Stage::Check, StageEnd::Closed(true)), over);
    assert_eq!(next_stage(Stage::Check, StageEnd::Closed(false)), Stage::Enroll);
    assert_eq!(next_stage(Stage::Enroll, StageEnd::Enrolled(true)), Stage::Begin);
    assert_eq!(next_stage(Stage::Enroll, StageEnd::Enrolled(false)), Stage::Measure);
    assert_eq!(
        next_stage(Stage::Enroll, StageEnd::Refused(JobStep::ResourceLimit)),
        Stage::Over(JobStep::ResourceLimit)
    );
    assert_eq!(next_stage(Stage::Begin, StageEnd::Begun), Stage::Measure);
    let done = StageEnd::Measured { phase: ScanPhase::Completed, failed: false, unfit: false };
    assert_eq!(next_stage(Stage::Measure, done), Stage::Report(JobStep::Completed));
    let failed = StageEnd::Measured { phase: ScanPhase::Completed, failed: true, unfit: false };
    assert_eq!(next_stage(Stage::Measure, failed), Stage::Report(JobStep::Failed));
    let unfit = StageEnd::Measured { phase: ScanPhase::Running, failed: false, unfit: true };
    assert_eq!(next_stage(Stage::Measure, unfit), Stage::Over(JobStep::Failed));
    assert_eq!(next_stage(Stage::Report(JobStep::Completed), StageEnd::Reported), over);
    assert_eq!(next_stage(Stage::Check, StageEnd::Reported), Stage::Over(JobStep::Failed));
}

struct Tree {
    rows: Vec<Observation>,
}

impl ObservationSource for Tree {
    type Cursor = usize;
    fn open(&mut self, directory: &Observation) -> Result<usize, FsIssue> {
        Ok(if directory.node == 1 { 0 } else { self.rows.len() })
    }
    fn next(&mut self, cursor: &mut usize) -> Result<Option<Observation>, FsIssue> {
        let found = self.rows.get(*cursor).cloned();
        *cursor += 1;
        Ok(found)
    }
}

fn observed(node: u64, name: &str, kind: Kind) -> Observation {
    Observation {
        node,
        raw_name: name.as_bytes().to_vec(),
        kind,
        identity: Some(FileIdentity { device: 1, inode: node }),
        link_count: 1,
        mount: 1,
        logical: Metric::Known(10),
        allocated: Metric::Known(16),
    }
}

struct Scanned {
    steps: Vec<JobStep>,
    phase: Phase,
    logical: Option<Measure>,
    state: Option<ScanState>,
    events: Vec<WorkEvent>,
}

/// A scan of a root with a directory and a file in it, at a time that reads so, run by its task's
/// own steps until one is the last.
fn scanned(at: &str, cancel_first: bool) -> Scanned {
    let (mut index, mut pools, root) = indexed();
    let mut service =
        UsageService::new(scope(), root.clone(), &mut index, &mut pools).ok().unwrap();
    let mut scheduler: Scheduler<()> = Scheduler::new(4, 4, 4);
    let (sink, receiver) = EventChannel::bounded(64);
    let clock = Stamped(at.into());
    let top = observed(1, "root", Kind::Directory);
    let work = service
        .start(&mut index, &mut scheduler, &top, Some(1), &clock, &sink, |_| ())
        .unwrap();
    let rows = vec![observed(2, "sub", Kind::Directory), observed(3, "f", Kind::RegularFile)];
    let mut job: UsageJob<Tree, Free> =
        UsageJob::new(Tree { rows }, top, ScanLimits::default());
    let cancel = Cancellation::default();
    if cancel_first {
        cancel.cancel();
    }
    let mut steps = Vec::new();
    loop {
        let step = job.step(
            &cancel,
            &Free,
            &clock,
            &sink,
            &mut service,
            &mut index,
            &mut pools,
        );
        steps.push(step);
        if step != JobStep::Yield {
            break;
        }
    }
    let status = match steps[steps.len() - 1] {
        JobStep::Failed => Status::Failed,
        _ if cancel_first => Status::Cancelled,
        _ => Status::Completed,
    };
    job.stopped(status, &clock, &sink, &mut service, &mut index);
    let shown = service.work(&scheduler, &work.task_id).unwrap();
    let usage = index.usage(&root).unwrap();
    Scanned {
        steps,
        phase: shown.phase,
        logical: usage.map(|usage| match &usage.logical {
            Measure::Complete { bytes } => Measure::Complete { bytes: bytes.clone() },
            _ => Measure::Unknown,
        }),
        state: usage.map(|usage| usage.scan_state),
        events: drained(&receiver),
    }
}

#[test]
fn a_scan_is_measured_by_its_own_steps() {
    let scan = scanned(STAMP, false);
    assert_eq!(scan.steps[scan.steps.len() - 1], JobStep::Completed);
    assert_eq!(scan.phase, Phase::Completed);
    assert_eq!(scan.logical, Some(Measure::Complete { bytes: 30_u64.into() }));
    assert_eq!(scan.state, Some(ScanState::Settled));
    let last = &scan.events[scan.events.len() - 1];
    assert_eq!(last.observed_at, STAMP);
    assert!(scan.events.windows(2).all(|pair| pair[0].sequence < pair[1].sequence));
}

#[test]
fn a_scan_that_was_told_to_stop_measures_its_root_alone() {
    let scan = scanned(STAMP, true);
    assert_eq!(scan.phase, Phase::Cancelled);
    assert_eq!(scan.state, Some(ScanState::Cancelled));
}

#[test]
fn a_scan_fails_only_where_a_summary_does_not_fit() {
    let long = "x".repeat(500);
    assert!(!summaries_fit("g1", &long));
    let scan = scanned(&long, false);
    assert_eq!(scan.steps[scan.steps.len() - 1], JobStep::Completed);
    assert_eq!(scan.logical, Some(Measure::Complete { bytes: 30_u64.into() }));
    let scan = scanned(&"x".repeat(1000), false);
    assert_eq!(scan.steps, vec![JobStep::Failed]);
    assert_eq!(scan.phase, Phase::Failed);
    assert_eq!(scan.logical, None);
}

#[test]
fn a_scan_that_the_scheduler_refuses_is_announced_as_failed() {
    let (mut index, mut pools, root) = indexed();
    let mut service = UsageService::new(scope(), root, &mut index, &mut pools).ok().unwrap();
    let mut scheduler: Scheduler<()> = Scheduler::new(0, 0, 1);
    let (sink, receiver) = EventChannel::bounded(4);
    let clock = Stamped(STAMP.into());
    let top = observed(1, "root", Kind::Directory);
    let refused =
        service.start(&mut index, &mut scheduler, &top, Some(3), &clock, &sink, |_| ());
    assert_eq!(refused.err(), Some(UsageError::ResourceLimit));
    let events = drained(&receiver);
    assert_eq!(events.len(), 1);
    assert_eq!(events[0].kind, EventKind::Terminal);
    assert_eq!(events[0].observed_at, STAMP);
}

#[test]
fn cancelling_a_scan_reaches_the_token_of_its_task() {
    let (mut index, mut pools, root) = indexed();
    let mut service = UsageService::new(scope(), root, &mut index, &mut pools).ok().unwrap();
    let mut scheduler: Scheduler<()> = Scheduler::new(4, 4, 4);
    let mut gone: Vec<Pending<()>> = Vec::new();
    let (sink, _receiver) = EventChannel::bounded(4);
    let clock = Stamped(STAMP.into());
    let top = observed(1, "root", Kind::Directory);
    let work = service
        .start(&mut index, &mut scheduler, &top, Some(5), &clock, &sink, |_| ())
        .unwrap();
    let (_, shown) = service.cancel(&mut scheduler, &mut gone, &index, &work.task_id).unwrap();
    assert_eq!(gone.len(), 1);
    assert_eq!(shown.wait_reason, Some(WaitReason::Slot));
    let later = service.report(None, None, None, STAMP.into()).unwrap();
    assert_eq!(later.wait_reason, Some(WaitReason::Draining));
    assert!(later.sequence > work.sequence);
}
