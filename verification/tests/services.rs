use std::cell::{Cell, RefCell};
use std::collections::{BTreeMap, VecDeque};
use std::rc::Rc;
use std::sync::atomic::{AtomicU64, Ordering};
use std::sync::mpsc::Receiver;
use std::time::Instant;

use directory_ui_viewer::domain::controller::{Cancellation, Scope};
use directory_ui_viewer::domain::index::{DirectoryIndex, DirectoryKey, IndexPools, Origin};
use directory_ui_viewer::domain::model::{
    Category, Coverage, DirectoryUsage, Entry, EventKind, Field, FollowPolicy, FsIssue, IssueScope,
    Kind, ListingPage, Measure, Phase, Reason, ScanState, WaitReason, WorkEvent,
    WorkRecord,
};
use directory_ui_viewer::domain::wire::encode_event;
use directory_ui_viewer::listing::cache::{CacheError, ListingCache, ListingHandle};
use directory_ui_viewer::listing::job::{
    next_move, outcome_of, ListingJob, ListingSource, Move, Reading,
};
use directory_ui_viewer::listing::service::{ListedEntry, ListingService};
use directory_ui_viewer::runtime::clock::{Clock, TimeSample};
use directory_ui_viewer::runtime::events::EventChannel;
use directory_ui_viewer::runtime::memory::ByteBudget;
use directory_ui_viewer::scan::budgeted_source::BudgetedSource;
use directory_ui_viewer::scan::job::{
    ending_of, fallback_issue, next_stage, step_after, step_without_scan, Stage, StageEnd,
    UsageJob, QUANTUM_ITEMS,
};
use directory_ui_viewer::scan::service::{
    partial, unknown, CancelStatus, UsageError, UsageService,
};
use directory_ui_viewer::scan::usage::{
    next_part, next_round, FileIdentity, Metric, Observation, ObservationSource, Part, ScanLimits,
    ScanPhase, UsageScanner,
};
use directory_ui_viewer::scheduler::{
    HandlePermit, Handles, Job, JobStep, Lane, Pending, Scheduler, Status, SubmitError,
};

const STAMP: &str = "2026-09-13T00:00:00Z";

static NEXT_TASK: AtomicU64 = AtomicU64::new(1);

fn number() -> Option<u64> {
    Some(NEXT_TASK.fetch_add(1, Ordering::Relaxed))
}

/// Any job, on the shared handles.
struct AnyJob(Box<dyn Job<Handles = SharedHandles>>);

impl Job for AnyJob {
    type Handles = SharedHandles;
    fn step(&mut self, cancel: &Cancellation, handles: &SharedHandles) -> JobStep {
        self.0.step(cancel, handles)
    }
    fn stopped(&mut self, status: Status) {
        self.0.stopped(status)
    }
}

type Pool = Rc<RefCell<Scheduler<AnyJob>>>;

#[derive(Clone)]
struct SharedHandles(Pool);

struct SharedPermit {
    pool: Pool,
    permit: Option<HandlePermit>,
}

impl Handles for SharedHandles {
    type Permit = SharedPermit;
    fn acquire(&self) -> Result<SharedPermit, SubmitError> {
        let permit = self.0.borrow_mut().handles_mut().acquire()?;
        Ok(SharedPermit { pool: self.0.clone(), permit: Some(permit) })
    }
}

impl Drop for SharedPermit {
    fn drop(&mut self) {
        let permit = self.permit.take().unwrap();
        self.pool.borrow_mut().handles_mut().release(permit);
    }
}

fn pool(queue: usize, parked: usize, handles: usize) -> Pool {
    Rc::new(RefCell::new(Scheduler::new(queue, parked, handles)))
}

fn retire(pool: &Pool, mut task: Pending<AnyJob>) {
    let status = task.ticket().status(&pool.borrow()).unwrap();
    task.job.stopped(status);
    drop(task);
}

fn retire_all(pool: &Pool, gone: Vec<Pending<AnyJob>>) {
    for task in gone {
        retire(pool, task);
    }
}

/// Runs one lane until it has nothing left to do. A failing worker reports a failed step.
fn work_lane(pool: &Pool, lane: Lane, failing: bool) {
    loop {
        let mut current = pool.borrow_mut().next_job(lane);
        if current.is_none() {
            return;
        }
        while let Some(mut task) = current.take() {
            let step = if failing {
                JobStep::Failed
            } else {
                task.advance(&SharedHandles(pool.clone()))
            };
            let (retired, next) = pool.borrow_mut().settle(lane, task, step);
            if let Some(task) = retired {
                retire(pool, task);
            }
            current = next;
        }
    }
}

fn work(pool: &Pool) {
    work_lane(pool, Lane::Foreground, false);
    work_lane(pool, Lane::Background, false);
}

/// One generation: its services and what they share.
struct World {
    pool: Pool,
    gone: RefCell<Vec<Pending<AnyJob>>>,
    listings: RefCell<ListingService>,
    usage: RefCell<UsageService>,
    index: RefCell<DirectoryIndex>,
    pools: RefCell<IndexPools>,
    memory: RefCell<ByteBudget>,
    sink: EventChannel,
    now: Cell<u64>,
    samples: Cell<u64>,
    on_sample: RefCell<Option<(u64, Box<dyn FnOnce()>)>>,
    root: String,
}

impl Clock for StampClock {
    fn sample(&self) -> TimeSample {
        TimeSample { monotonic_ms: self.0, observed_at: STAMP.into() }
    }
}

struct StampClock(u64);

fn world(pool: &Pool, budget: usize, ttl: u64, generation: u64, capacity: usize) -> (
    Rc<World>,
    Receiver<WorkEvent>,
) {
    let (mut index, mut pools) =
        DirectoryIndex::new(format!("g{generation}"), 48 * 1024 * 1024, 16 * 1024 * 1024);
    let root = index
        .register(
            &mut pools,
            DirectoryKey { parent_id: None, raw_name: b"root".to_vec() },
            Origin::Foreground,
        )
        .unwrap();
    let (cache, memory) = ListingCache::new(budget, ttl, 1_048_576);
    let scope = Scope { session_id: "fixture".into(), generation };
    let usage = UsageService::new(scope.clone(), root.clone(), &mut index, &mut pools).ok().unwrap();
    let (sink, receiver) = EventChannel::bounded(capacity);
    let world = World {
        pool: pool.clone(),
        gone: RefCell::new(Vec::new()),
        listings: RefCell::new(ListingService::new(scope, cache)),
        usage: RefCell::new(usage),
        index: RefCell::new(index),
        pools: RefCell::new(pools),
        memory: RefCell::new(memory),
        sink,
        now: Cell::new(0),
        samples: Cell::new(0),
        on_sample: RefCell::new(None),
        root,
    };
    (Rc::new(world), receiver)
}

impl World {
    fn flush(&self) {
        let gone = std::mem::take(&mut *self.gone.borrow_mut());
        retire_all(&self.pool, gone);
    }
    fn start_with(
        self: &Rc<Self>,
        category: Category,
        limit: usize,
        source: Source,
    ) -> Result<ListingHandle, CacheError> {
        let world = self.clone();
        let target = self.root.clone();
        let result = self.listings.borrow_mut().start(
            &mut self.index.borrow_mut(),
            &mut self.pools.borrow_mut(),
            &mut self.memory.borrow_mut(),
            &mut self.pool.borrow_mut(),
            &mut self.gone.borrow_mut(),
            number(),
            &self.root,
            category,
            limit,
            STAMP,
            0,
            |task| {
                let job = ListingJob::new(source, task, target, category);
                AnyJob(Box::new(ListingTask { world, job }))
            },
        );
        self.flush();
        result
    }
    fn start(self: &Rc<Self>, category: Category, source: Source) -> ListingHandle {
        self.start_with(category, 2, source).unwrap()
    }
    fn page(
        &self,
        id: &str,
        cursor: Option<&str>,
        limit: usize,
        now: u64,
    ) -> Result<ListingPage, CacheError> {
        let result = self.listings.borrow_mut().page(
            &mut self.memory.borrow_mut(),
            &mut self.pool.borrow_mut(),
            &mut self.gone.borrow_mut(),
            id,
            cursor,
            limit,
            now,
        );
        self.flush();
        result
    }
    fn listing_work(&self, id: &str, now: u64) -> Result<WorkRecord, CacheError> {
        let result = self.listings.borrow_mut().work(
            &mut self.memory.borrow_mut(),
            &mut self.pool.borrow_mut(),
            &mut self.gone.borrow_mut(),
            id,
            now,
        );
        self.flush();
        result
    }
    fn cancel_listing(&self, id: &str) -> Result<(), CacheError> {
        let result = self.listings.borrow_mut().cancel(
            &mut self.pool.borrow_mut(),
            &mut self.gone.borrow_mut(),
            id,
        );
        self.flush();
        result
    }
    fn expire(&self, now: u64) {
        self.listings.borrow_mut().expire(
            &mut self.memory.borrow_mut(),
            &mut self.pool.borrow_mut(),
            &mut self.gone.borrow_mut(),
            now,
        );
        self.flush();
    }
    fn close_listings(&self) {
        self.listings.borrow_mut().close(
            &mut self.memory.borrow_mut(),
            &mut self.pool.borrow_mut(),
            &mut self.gone.borrow_mut(),
        );
        self.flush();
    }
    fn managed_bytes(&self) -> (usize, usize) {
        self.index.borrow().managed_bytes()
    }
    fn sample(&self) -> TimeSample {
        let count = self.samples.get();
        self.samples.set(count + 1);
        let hook = {
            let mut slot = self.on_sample.borrow_mut();
            match &*slot {
                Some((at, _)) if *at == count => slot.take(),
                _ => None,
            }
        };
        if let Some((_, hook)) = hook {
            hook();
        }
        TimeSample { monotonic_ms: self.now.get(), observed_at: STAMP.into() }
    }
    fn scan_root(
        self: &Rc<Self>,
        root: Observation,
        source: ScanSource,
    ) -> Result<WorkRecord, UsageError> {
        let world = self.clone();
        let job_root = root.clone();
        self.samples.set(self.samples.get() + 1);
        self.usage.borrow_mut().start(
            &mut self.index.borrow_mut(),
            &mut self.pool.borrow_mut(),
            &root,
            number(),
            &StampClock(self.now.get()),
            &self.sink,
            |_task| {
                let job = UsageJob::new(source, job_root, ScanLimits::default());
                AnyJob(Box::new(UsageTask { world, job }))
            },
        )
    }
    fn scan(self: &Rc<Self>, source: ScanSource) -> WorkRecord {
        self.scan_root(observation(1, "root", Kind::Directory, 1), source).unwrap()
    }
    fn usage_work(&self, id: &str) -> Result<WorkRecord, UsageError> {
        self.usage.borrow_mut().work(&self.pool.borrow(), id)
    }
    fn read_usage(&self, ids: &[String]) -> Result<Vec<DirectoryUsage>, UsageError> {
        self.usage.borrow().read_usage(
            &self.index.borrow(),
            &ids.to_vec(),
            STAMP,
        )
    }
    fn root_usage(&self) -> DirectoryUsage {
        self.read_usage(&[self.root.clone()]).unwrap().remove(0)
    }
    fn cancel_usage(&self, id: &str) -> Result<(CancelStatus, WorkRecord), UsageError> {
        let result = self.usage.borrow_mut().cancel(
            &mut self.pool.borrow_mut(),
            &mut self.gone.borrow_mut(),
            &self.index.borrow(),
            id,
        );
        self.flush();
        result
    }
    fn close_usage(&self) {
        self.usage.borrow_mut().close(
            &mut self.pool.borrow_mut(),
            &mut self.gone.borrow_mut(),
            &self.index.borrow(),
        );
        self.flush();
    }
    fn open_handles(&self) -> usize {
        self.pool.borrow().handles().open()
    }
    fn counts(&self) -> (usize, usize, usize) {
        self.pool.borrow().counts()
    }
}

struct ListingTask {
    world: Rc<World>,
    job: ListingJob<Source, SharedHandles>,
}

impl ListingTask {
    fn publish(&mut self) {
        let clock = StampClock(self.world.now.get());
        self.job.publish(&self.world.listings.borrow(), &clock, &self.world.sink);
    }
    fn accept(&mut self, reading: Reading) -> Option<JobStep> {
        let verdict = self.job.accept(
            reading,
            &mut self.world.listings.borrow_mut(),
            &mut self.world.index.borrow_mut(),
            &mut self.world.pools.borrow_mut(),
            &mut self.world.memory.borrow_mut(),
            &mut self.world.pool.borrow_mut(),
            &mut self.world.gone.borrow_mut(),
        );
        self.world.flush();
        verdict
    }
}

impl Job for ListingTask {
    type Handles = SharedHandles;
    fn step(&mut self, cancel: &Cancellation, handles: &SharedHandles) -> JobStep {
        let started = Instant::now();
        let mut done = 0;
        let mut held = None;
        let mut next = Move::Look;
        loop {
            next = match next {
                Move::Look => {
                    let looked = self.job.look(cancel, &mut self.world.listings.borrow_mut());
                    next_move(next, looked, true)
                }
                Move::Read => {
                    held = Some(self.job.read(cancel, handles));
                    next_move(next, None, true)
                }
                Move::Accept => {
                    let verdict = self.accept(held.take().unwrap());
                    done += 1;
                    next_move(next, verdict, self.job.goes_on(done, &started))
                }
                Move::Publish(_) => {
                    self.publish();
                    next_move(next, None, true)
                }
                Move::Over(step) => return step,
            };
        }
    }
    fn stopped(&mut self, status: Status) {
        let clock = StampClock(self.world.now.get());
        self.job.stopped(
            status,
            &clock,
            &self.world.sink,
            &mut self.world.listings.borrow_mut(),
        );
    }
}

struct UsageTask {
    world: Rc<World>,
    job: UsageJob<ScanSource, SharedHandles>,
}

impl UsageTask {
    fn is_closed(&self) -> bool {
        self.world.usage.borrow().is_closed()
    }
    fn publish(&mut self, terminal: Option<Phase>) {
        let time = self.world.sample();
        let mut usage = self.world.usage.borrow_mut();
        self.job.publish(terminal, time, &self.world.sink, &mut usage);
    }
    fn measure(&mut self) -> StageEnd {
        let time = self.world.sample();
        let at = time.observed_at.as_str();
        let scanner = self.job.scanner.as_mut().unwrap();
        let started = Instant::now();
        let mut done = 0;
        let mut heard = None;
        let mut pending = None;
        let mut looked = None;
        let on = scanner.goes_on(done, QUANTUM_ITEMS, &started);
        let mut next = next_round(on, scanner.is_going());
        while next != Part::Over {
            match next {
                Part::Listen => heard = Some(scanner.listen()),
                Part::Respond => {
                    pending = scanner.respond(
                        &mut self.world.index.borrow_mut(),
                        &mut self.world.pools.borrow_mut(),
                        heard.take().unwrap(),
                        at,
                    );
                }
                Part::Open => looked = Some(scanner.look(pending.as_ref().unwrap())),
                Part::Enter => {
                    let (opened, cancelled) = looked.take().unwrap();
                    let index = self.world.index.borrow();
                    scanner.enter(&index, pending.take().unwrap(), opened, cancelled);
                }
                Part::Announce => scanner.announce(&mut self.world.index.borrow_mut(), at),
                Part::Over => {}
            }
            let entering = pending.is_some();
            if next == Part::Enter || next == Part::Respond && !entering {
                done += 1;
            }
            let on = scanner.goes_on(done, QUANTUM_ITEMS, &started);
            next = next_part(next, entering, on, scanner.is_going());
        }
        StageEnd::Measured {
            phase: scanner.phase(),
            failed: scanner.root_failed(),
            unfit: scanner.is_unfit(),
        }
    }
}

impl Job for UsageTask {
    type Handles = SharedHandles;
    fn step(&mut self, cancel: &Cancellation, handles: &SharedHandles) -> JobStep {
        let mut id = None;
        let mut stage = Stage::Check;
        loop {
            let end = match stage {
                Stage::Check => StageEnd::Closed(self.is_closed()),
                Stage::Enroll => {
                    let enrolled = self.job.enroll(
                        &mut self.world.index.borrow_mut(),
                        &mut self.world.pools.borrow_mut(),
                    );
                    match enrolled {
                        Err(step) => StageEnd::Refused(step),
                        Ok(root_id) => {
                            id = root_id;
                            StageEnd::Enrolled(id.is_some())
                        }
                    }
                }
                Stage::Begin => {
                    self.job.begin(id.take().unwrap(), cancel, handles);
                    StageEnd::Begun
                }
                Stage::Measure => self.measure(),
                Stage::Report(_) => {
                    self.publish(None);
                    StageEnd::Reported
                }
                Stage::Over(step) => return step,
            };
            stage = next_stage(stage, end);
        }
    }
    fn stopped(&mut self, status: Status) {
        // Others may act while the task that is done with looks at the clock.
        self.world.sample();
        self.job.stopped(
            status,
            &StampClock(self.world.now.get()),
            &self.world.sink,
            &mut self.world.usage.borrow_mut(),
            &mut self.world.index.borrow_mut(),
        );
    }
}

#[derive(Default)]
struct Counts {
    opened: Cell<usize>,
    next: Cell<usize>,
    closed: Cell<usize>,
}

struct Cursor {
    counts: Rc<Counts>,
}

impl Drop for Cursor {
    fn drop(&mut self) {
        self.counts.closed.set(self.counts.closed.get() + 1);
    }
}

/// A source whose calls can be interrupted by what the control side does meanwhile.
struct Source {
    rows: VecDeque<ListedEntry>,
    counts: Rc<Counts>,
    on_next: Option<Box<dyn FnOnce()>>,
    on_open: Option<Box<dyn FnOnce()>>,
    open_error: Option<FsIssue>,
    end_error: Option<FsIssue>,
}

impl ListingSource for Source {
    type Cursor = Cursor;
    fn open(&mut self, _: &str) -> Result<Cursor, FsIssue> {
        if let Some(hook) = self.on_open.take() {
            hook();
        }
        if let Some(error) = self.open_error.take() {
            return Err(error);
        }
        self.counts.opened.set(self.counts.opened.get() + 1);
        Ok(Cursor { counts: self.counts.clone() })
    }
    fn next(&mut self, _: &mut Cursor) -> Result<Option<ListedEntry>, FsIssue> {
        self.counts.next.set(self.counts.next.get() + 1);
        if let Some(hook) = self.on_next.take() {
            hook();
        }
        if self.rows.is_empty() {
            if let Some(error) = self.end_error.take() {
                return Err(error);
            }
        }
        Ok(self.rows.pop_front())
    }
}

fn listing_issue(code: &str) -> FsIssue {
    FsIssue {
        code: code.into(),
        operation: "list".into(),
        scope: IssueScope::Subtree,
        entry_id: None,
        native_code: None,
    }
}

fn entry(name: &str, kind: Kind) -> ListedEntry {
    ListedEntry {
        raw_name: name.as_bytes().to_vec(),
        issue: None,
        entry: Entry {
            entry_id: "ignored-source-id".into(),
            parent_id: None,
            display_name: name.into(),
            kind,
            hidden: Field::Known { value: name.starts_with('.') },
            special_type: Field::Unsupported,
            modified_at: Field::Unknown,
            own_logical_bytes: Field::Known { value: 1_u64.into() },
            own_allocated_bytes: Field::Known { value: 8_u64.into() },
            observed_at: STAMP.into(),
            follow_policy: FollowPolicy::Never,
        },
    }
}

fn source(rows: Vec<ListedEntry>) -> (Source, Rc<Counts>) {
    let counts = Rc::new(Counts::default());
    (
        Source {
            rows: rows.into(),
            counts: counts.clone(),
            on_next: None,
            on_open: None,
            open_error: None,
            end_error: None,
        },
        counts,
    )
}

fn files(prefix: &str, count: usize) -> Vec<ListedEntry> {
    (0..count).map(|n| entry(&format!("{prefix}{n}"), Kind::RegularFile)).collect()
}

fn directories(prefix: &str, count: usize) -> Vec<ListedEntry> {
    (0..count).map(|n| entry(&format!("{prefix}{n}"), Kind::Directory)).collect()
}

#[test]
fn demand_parks_one_cursor_and_replay_does_not_collect_more() {
    let pool = pool(64, 64, 320);
    let (world, _events) = world(&pool, 2_000_000, 1000, 1, 16);
    let (input, counts) = source(files("file", 9));
    let handle = world.start(Category::Files, input);
    work(&pool);
    assert_eq!(world.counts().2, 1);
    assert_eq!(counts.next.get(), 4);
    assert_eq!(world.counts().0, 0);
    assert_eq!(world.open_handles(), 1);
    let first = world.page(&handle.task_id, None, 2, 1).unwrap();
    for _ in 0..100 {
        assert_eq!(world.page(&handle.task_id, None, 2, 1).unwrap().entries, first.entries);
    }
    work(&pool);
    assert_eq!(counts.next.get(), 4);
    let second = world.page(&handle.task_id, first.next_cursor.as_deref(), 2, 2).unwrap();
    work(&pool);
    assert_eq!(counts.next.get(), 6);
    assert_eq!(world.counts().2, 1);
    assert_eq!(second.entries[0].display_name, "file2");
    let mut names: Vec<_> = first
        .entries
        .into_iter()
        .chain(second.entries)
        .map(|e| e.display_name)
        .collect();
    let mut cursor = second.next_cursor;
    while let Some(next) = cursor {
        let page = world.page(&handle.task_id, Some(&next), 2, 3).unwrap();
        names.extend(page.entries.into_iter().map(|e| e.display_name));
        cursor = page.next_cursor;
        work(&pool);
    }
    assert_eq!(names, (0..9).map(|n| format!("file{n}")).collect::<Vec<_>>());
    assert_eq!(world.open_handles(), 0);
    assert_eq!(counts.opened.get(), 1);
    assert_eq!(counts.closed.get(), 1);
    assert_eq!(world.listing_work(&handle.task_id, 3).unwrap().phase, Phase::Completed);
}

#[test]
fn a_listing_is_read_whole_by_following_its_cursors() {
    let pool = pool(64, 64, 320);
    let (world, _events) = world(&pool, 2_000_000, 1000, 1, 16);
    let mut rows = vec![];
    for (file, directory) in files("file", 5).into_iter().zip(directories("child", 5)) {
        rows.push(file);
        rows.push(directory);
    }
    let (input, counts) = source(rows);
    let handle = world.start(Category::Files, input);
    let mut shown = vec![];
    let mut cursor = None;
    loop {
        work(&pool);
        let page = world.page(&handle.task_id, cursor.as_deref(), 2, 1).unwrap();
        assert!(page.entries.len() <= 2);
        let calls = counts.next.get();
        work(&pool);
        let again = world.page(&handle.task_id, cursor.as_deref(), 2, 1).unwrap();
        assert!(again.entries.len() <= 2);
        assert_eq!(again.entries, page.entries);
        let read = counts.next.get();
        world.page(&handle.task_id, cursor.as_deref(), 2, 1).unwrap();
        work(&pool);
        assert_eq!(counts.next.get(), read);
        assert!(calls <= read);
        for entry in page.entries {
            shown.push((entry.entry_id, entry.display_name));
        }
        cursor = page.next_cursor;
        if cursor.is_none() {
            break;
        }
    }
    // An entry has its number among all that the source gave.
    let wanted: Vec<_> = (0..5)
        .map(|n| (format!("{}-entry-{}", handle.task_id, 2 * n + 1), format!("file{n}")))
        .collect();
    assert_eq!(shown, wanted);
    assert_eq!(counts.opened.get(), 1);
}

#[test]
fn duplicate_start_preserves_demand_and_background_directory_identity() {
    let pool = pool(64, 64, 320);
    let (world, _events) = world(&pool, 2_000_000, 1000, 1, 16);
    let existing = world
        .index
        .borrow_mut()
        .register(
            &mut world.pools.borrow_mut(),
            DirectoryKey { parent_id: Some(world.root.clone()), raw_name: b"child0".to_vec() },
            Origin::Background,
        )
        .unwrap();
    let (input, counts) = source(directories("child", 8));
    let handle = world.start(Category::Directories, input);
    work(&pool);
    assert_eq!(world.counts().2, 1);
    let first = world.page(&handle.task_id, None, 2, 1).unwrap();
    assert_eq!(first.entries[0].entry_id, existing);
    world.page(&handle.task_id, first.next_cursor.as_deref(), 2, 1).unwrap();
    let (unused, unused_counts) = source(vec![]);
    assert_eq!(world.start(Category::Directories, unused), handle);
    work(&pool);
    assert_eq!(counts.next.get(), 6);
    assert_eq!(world.counts().2, 1);
    assert_eq!(unused_counts.opened.get(), 0);
    assert_eq!(world.index.borrow().len(), 7);
}

#[test]
fn ttl_and_budget_eviction_cancel_parked_iterators_and_expire_work_and_cursor() {
    let pool = pool(64, 64, 320);
    let (world, _events) = world(&pool, 100_000, 10, 1, 16);
    let (input, first_counts) = source(files("f", 8));
    let first = world.start(Category::Files, input);
    work(&pool);
    assert_eq!(world.counts().2, 1);
    let page = world.page(&first.task_id, None, 2, 0).unwrap();
    let (input, second_counts) = source(directories("d", 8));
    let second = world.start(Category::Directories, input);
    work(&pool);
    assert_eq!(first_counts.closed.get(), 1);
    assert_eq!(world.counts().2, 1);
    assert_eq!(world.listing_work(&first.task_id, 0), Err(CacheError::TaskExpired));
    assert_eq!(
        world.page(&first.task_id, page.next_cursor.as_deref(), 2, 0),
        Err(CacheError::CursorExpired)
    );
    world.expire(10);
    assert_eq!(world.listing_work(&second.task_id, 10), Err(CacheError::TaskExpired));
    assert_eq!(second_counts.closed.get(), 1);
    assert_eq!(world.open_handles(), 0);
    assert_eq!(world.listings.borrow().managed_listing_bytes(), 0);
}

#[test]
fn cancellation_during_io_is_prompt_and_late_entry_is_discarded() {
    let pool = pool(64, 64, 320);
    let (world, _events) = world(&pool, 2_000_000, 1000, 1, 16);
    let (mut input, counts) = source(vec![entry("late", Kind::Directory)]);
    let control = world.clone();
    let id: Rc<RefCell<String>> = Rc::default();
    let known = id.clone();
    input.on_next = Some(Box::new(move || {
        let id = known.borrow().clone();
        control.cancel_listing(&id).unwrap();
        let page = control.page(&id, None, 2, 1).unwrap();
        assert_eq!(page.work.phase, Phase::Running);
        assert_eq!(page.work.wait_reason, Some(WaitReason::Draining));
        assert!(page.entries.is_empty());
        assert_eq!(control.open_handles(), 1);
    }));
    let handle = world.start(Category::Directories, input);
    *id.borrow_mut() = handle.task_id.clone();
    work(&pool);
    assert_eq!(counts.closed.get(), 1);
    assert_eq!(world.open_handles(), 0);
    assert_eq!(world.index.borrow().len(), 1);
    assert_eq!(world.listing_work(&handle.task_id, 1).unwrap().phase, Phase::Cancelled);
}

#[test]
fn close_keeps_old_io_draining_and_new_generation_uses_same_pool() {
    let pool = pool(64, 64, 320);
    let (old, _events) = world(&pool, 2_000_000, 1000, 1, 16);
    let (new, _events) = world(&pool, 2_000_000, 1000, 2, 16);
    let (mut input, _) = source(vec![entry("late", Kind::Directory)]);
    let (closing, opening) = (old.clone(), new.clone());
    let id: Rc<RefCell<String>> = Rc::default();
    let known = id.clone();
    input.on_next = Some(Box::new(move || {
        closing.close_listings();
        let (input, counts) = source(vec![entry("new", Kind::Directory)]);
        let handle = opening.start(Category::Directories, input);
        assert_eq!(
            opening.listing_work(&handle.task_id, 0).unwrap().wait_reason,
            Some(WaitReason::Draining)
        );
        assert_eq!(counts.opened.get(), 0);
        *known.borrow_mut() = handle.task_id;
    }));
    old.start(Category::Directories, input);
    work(&pool);
    let id = id.borrow().clone();
    assert!(new.listing_work(&id, 1).unwrap().phase.terminal());
    assert_eq!(old.index.borrow().len(), 1);
    assert_eq!(new.page(&id, None, 2, 1).unwrap().entries[0].display_name, "new");
}

#[test]
fn metadata_errors_keep_unknown_entries_and_root_failure_is_not_empty_success() {
    let pool = pool(64, 64, 320);
    let (world, _events) = world(&pool, 2_000_000, 1000, 1, 16);
    let mut unreadable = entry("gone", Kind::Unknown);
    let mut error = listing_issue("NOT_FOUND");
    error.scope = IssueScope::Entry;
    error.native_code = Some(2);
    unreadable.issue = Some(error.clone());
    unreadable.entry.own_logical_bytes = Field::Error { issue: error };
    let (input, _) = source(vec![
        entry("directory", Kind::Directory),
        unreadable,
        entry("healthy", Kind::RegularFile),
    ]);
    let handle = world.start(Category::Files, input);
    work(&pool);
    assert!(world.listing_work(&handle.task_id, 1).unwrap().phase.terminal());
    let page = world.page(&handle.task_id, None, 2, 1).unwrap();
    assert_eq!(page.coverage, Coverage::Partial);
    assert_eq!(page.entries.len(), 2);
    assert_eq!(page.entries[0].kind, Kind::Unknown);
    assert_eq!(page.issues.samples[0].native_code, Some(2));
    let (mut input, _) = source(vec![]);
    input.open_error = Some(listing_issue("PERMISSION_DENIED"));
    let failed = world.start(Category::Directories, input);
    work(&pool);
    assert!(world.listing_work(&failed.task_id, 1).unwrap().phase.terminal());
    let page = world.page(&failed.task_id, None, 2, 1).unwrap();
    assert_eq!(page.work.phase, Phase::Failed);
    assert_eq!(page.coverage, Coverage::Partial);
    assert!(page.entries.is_empty());
}

#[test]
fn parked_limit_becomes_partial_resource_limit_and_keeps_collected_pages() {
    let pool = pool(64, 0, 320);
    let (world, _events) = world(&pool, 2_000_000, 1000, 1, 16);
    let (input, counts) = source(files("f", 9));
    let handle = world.start(Category::Files, input);
    work(&pool);
    assert!(world.listing_work(&handle.task_id, 1).unwrap().phase.terminal());
    let first = world.page(&handle.task_id, None, 2, 1).unwrap();
    let last = world.page(&handle.task_id, first.next_cursor.as_deref(), 2, 1).unwrap();
    assert_eq!(first.entries.len() + last.entries.len(), 4);
    assert_eq!(last.coverage, Coverage::Partial);
    assert!(last.next_cursor.is_none());
    assert!(last.issues.counts.contains_key("RESOURCE_LIMIT"));
    assert_eq!(counts.closed.get(), 1);
}

#[test]
fn scan_shares_directory_ids_summaries_and_global_handles_with_parked_listing() {
    struct OneChild;
    impl ObservationSource for OneChild {
        type Cursor = bool;
        fn open(&mut self, _: &Observation) -> Result<bool, FsIssue> {
            Ok(false)
        }
        fn next(&mut self, done: &mut bool) -> Result<Option<Observation>, FsIssue> {
            if *done {
                return Ok(None);
            }
            *done = true;
            let mut child = observation(2, "child0", Kind::Directory, 3);
            child.allocated = Metric::Known(8);
            Ok(Some(child))
        }
    }
    let pool = pool(64, 64, 2);
    let (world, _events) = world(&pool, 2_000_000, 1000, 1, 16);
    let (input, _) = source(directories("child", 8));
    let handle = world.start(Category::Directories, input);
    work(&pool);
    assert_eq!(world.counts().2, 1);
    let page = world.page(&handle.task_id, None, 2, 1).unwrap();
    let id = page.entries[0].entry_id.clone();
    let before = world.managed_bytes();
    let mut root = observation(1, "root", Kind::Directory, 2);
    root.allocated = Metric::Known(8);
    let mut scanner = UsageScanner::new(
        BudgetedSource::new(OneChild, SharedHandles(pool.clone())),
        root,
        &mut world.index.borrow_mut(),
        &mut world.pools.borrow_mut(),
        ScanLimits::default(),
        Cancellation::default(),
    )
    .ok()
    .unwrap();
    assert_eq!(world.open_handles(), 2);
    scanner.run(&mut world.index.borrow_mut(), &mut world.pools.borrow_mut(), STAMP);
    assert_eq!(pool.borrow().handles().peak(), 2);
    assert_eq!(world.open_handles(), 1);
    assert_eq!(world.managed_bytes(), before);
    {
        let index = world.index.borrow();
        let child_usage = index.usage(&id).unwrap().unwrap();
        assert!(
            matches!(&child_usage.logical, Measure::Partial { observed_bytes, reasons }
                if *observed_bytes == 3_u64.into() && reasons.contains(&Reason::ResourceLimit))
        );
        assert_eq!(index.entry(&id).unwrap(), &page.entries[0]);
        assert!(index.usage(&world.root).unwrap().is_some());
        assert_eq!(scanner.root_id(), world.root);
    }
    world.close_listings();
    assert_eq!(world.open_handles(), 0);
}

#[test]
fn a_new_revision_updates_metadata_without_changing_ids_or_accumulating_index_cost() {
    let pool = pool(64, 64, 320);
    let (world, _events) = world(&pool, 2_000_000, 10, 1, 16);
    let (input, _) = source(vec![entry("child", Kind::Directory)]);
    let old = world.start(Category::Directories, input);
    work(&pool);
    assert!(world.listing_work(&old.task_id, 0).unwrap().phase.terminal());
    let old_page = world.page(&old.task_id, None, 2, 0).unwrap();
    let initial_cost = world.managed_bytes();
    world.expire(10);
    let mut changed = entry("child", Kind::Directory);
    changed.entry.observed_at = "2026-09-13T00:01:00Z".into();
    changed.entry.own_logical_bytes = Field::Known { value: 9_u64.into() };
    let (input, _) = source(vec![changed]);
    let new = world.start(Category::Directories, input);
    work(&pool);
    assert!(world.listing_work(&new.task_id, 0).unwrap().phase.terminal());
    let new_page = world.page(&new.task_id, None, 2, 0).unwrap();
    assert_ne!(old.revision, new.revision);
    assert_eq!(old_page.entries[0].entry_id, new_page.entries[0].entry_id);
    assert_eq!(
        old_page.entries[0].own_logical_bytes,
        Field::Known { value: 1_u64.into() }
    );
    assert_eq!(
        new_page.entries[0].own_logical_bytes,
        Field::Known { value: 9_u64.into() }
    );
    assert_eq!(new_page.coverage, Coverage::Complete);
    assert_eq!(world.managed_bytes(), initial_cost);
}

#[test]
fn first_read_selects_page_limit_independently_of_initial_collection_demand() {
    let pool = pool(64, 64, 320);
    let (world, _events) = world(&pool, 2_000_000, 1000, 1, 16);
    let (input, counts) = source(files("f", 10));
    let handle = world.start(Category::Files, input);
    work(&pool);
    assert_eq!(world.counts().2, 1);
    assert_eq!(counts.next.get(), 4);
    let first = world.page(&handle.task_id, None, 1000, 0).unwrap();
    assert_eq!(first.entries.len(), 4);
    let (unused, unused_counts) = source(vec![]);
    assert_eq!(world.start(Category::Files, unused), handle);
    work(&pool);
    assert!(world.listing_work(&handle.task_id, 0).unwrap().phase.terminal());
    assert_eq!(
        world.page(&handle.task_id, first.next_cursor.as_deref(), 200, 0),
        Err(CacheError::InvalidArgument)
    );
    let last = world.page(&handle.task_id, first.next_cursor.as_deref(), 1000, 0).unwrap();
    assert_eq!(last.entries.len(), 6);
    assert!(last.next_cursor.is_none());
    assert_eq!(unused_counts.opened.get(), 0);
}

#[test]
fn parked_data_emits_availability_and_cancel_emits_terminal_without_throttle_delay() {
    let pool = pool(64, 64, 320);
    let (world, events) = world(&pool, 2_000_000, 1000, 1, 16);
    let (input, _) = source(files("file", 8));
    let handle = world.start(Category::Files, input);
    work(&pool);
    assert_eq!(world.counts().2, 1);
    let event = events.try_recv().unwrap();
    assert_eq!(event.kind, EventKind::ListingAvailable);
    assert_eq!(event.task_id, handle.task_id);
    assert!(!encode_event(&event).contains("file0"));
    world.cancel_listing(&handle.task_id).unwrap();
    let terminal = events.try_recv().unwrap();
    assert_eq!(terminal.kind, EventKind::Terminal);
    assert!(terminal.sequence > event.sequence);
    assert_eq!(world.listing_work(&handle.task_id, 1).unwrap().phase, Phase::Cancelled);
    assert_eq!(world.page(&handle.task_id, None, 2, 1).unwrap().entries.len(), 2);
    assert_eq!(world.open_handles(), 0);
}

#[test]
fn cancellation_wins_over_a_late_open_error_and_does_not_publish_it() {
    let pool = pool(64, 64, 320);
    let (world, _events) = world(&pool, 2_000_000, 1000, 1, 16);
    let (mut input, counts) = source(vec![]);
    let control = world.clone();
    let id: Rc<RefCell<String>> = Rc::default();
    let known = id.clone();
    input.on_open = Some(Box::new(move || {
        let id = known.borrow().clone();
        control.cancel_listing(&id).unwrap();
        assert_eq!(
            control.listing_work(&id, 1).unwrap().wait_reason,
            Some(WaitReason::Draining)
        );
    }));
    input.open_error = Some(listing_issue("PERMISSION_DENIED"));
    let handle = world.start(Category::Directories, input);
    *id.borrow_mut() = handle.task_id.clone();
    work(&pool);
    let left = world.listing_work(&handle.task_id, 1).unwrap();
    assert_eq!(left.phase, Phase::Cancelled);
    assert!(left.issues.counts.is_empty());
    assert_eq!(counts.next.get(), 0);
    assert_eq!(world.open_handles(), 0);
}

#[test]
fn listings_are_refused_before_anything_is_stored() {
    let pool = pool(64, 64, 320);
    let (world, _events) = world(&pool, 2_000_000, 1000, 1, 16);
    assert_eq!(
        world.start_with(Category::Files, 0, source(vec![]).0),
        Err(CacheError::InvalidArgument)
    );
    assert_eq!(
        world.start_with(Category::Files, 1001, source(vec![]).0),
        Err(CacheError::InvalidArgument)
    );
    assert_eq!(world.listings.borrow().managed_listing_bytes(), 0);
    world.close_listings();
    assert_eq!(
        world.start_with(Category::Files, 2, source(vec![]).0),
        Err(CacheError::TaskExpired)
    );
    assert_eq!(world.cancel_listing("list-task-0"), Err(CacheError::TaskExpired));
}

#[test]
fn a_full_queue_fails_the_listing() {
    let pool = pool(0, 64, 320);
    let (world, _events) = world(&pool, 2_000_000, 1000, 1, 16);
    assert_eq!(
        world.start_with(Category::Files, 2, source(vec![]).0),
        Err(CacheError::ResourceLimit)
    );
}

#[test]
fn without_a_handle_a_listing_is_partial() {
    let pool = pool(64, 64, 0);
    let (world, _events) = world(&pool, 2_000_000, 1000, 1, 16);
    let (input, counts) = source(files("f", 3));
    let handle = world.start(Category::Files, input);
    work(&pool);
    let left = world.listing_work(&handle.task_id, 1).unwrap();
    assert_eq!(left.phase, Phase::Completed);
    assert!(left.issues.counts.contains_key("RESOURCE_LIMIT"));
    assert_eq!(counts.opened.get(), 0);
}

#[test]
fn a_bad_name_fails_the_listing_and_keeps_what_came_before() {
    let pool = pool(64, 64, 320);
    let (world, _events) = world(&pool, 2_000_000, 1000, 1, 16);
    let mut long = entry("x", Kind::RegularFile);
    long.raw_name = vec![b'x'; 766];
    let (input, _) = source(vec![entry("good", Kind::RegularFile), long]);
    let handle = world.start(Category::Files, input);
    work(&pool);
    let page = world.page(&handle.task_id, None, 2, 1).unwrap();
    assert_eq!(page.work.phase, Phase::Failed);
    assert!(page.work.issues.counts.contains_key("INVALID_ARGUMENT"));
    assert_eq!(page.entries.len(), 1);
    assert_eq!(page.entries[0].entry_id, format!("{}-entry-1", handle.task_id));
}

#[test]
fn the_longest_names_are_listed() {
    let pool = pool(64, 64, 320);
    let (world, _events) = world(&pool, 2_000_000, 1000, 1, 16);
    let mut file = entry("x", Kind::RegularFile);
    file.raw_name = "\u{d55c}".repeat(255).into_bytes();
    assert_eq!(file.raw_name.len(), 765);
    let mut folder = entry("y", Kind::Directory);
    folder.raw_name = "\u{d55c}".repeat(255).into_bytes();
    let (input, _) = source(vec![file]);
    let handle = world.start(Category::Files, input);
    work(&pool);
    let page = world.page(&handle.task_id, None, 2, 1).unwrap();
    assert_eq!(page.work.phase, Phase::Completed);
    assert_eq!(page.entries.len(), 1);
    let (input, _) = source(vec![folder]);
    let handle = world.start(Category::Directories, input);
    work(&pool);
    let page = world.page(&handle.task_id, None, 2, 1).unwrap();
    assert_eq!(page.work.phase, Phase::Completed);
    assert_eq!(page.entries.len(), 1);
}

#[test]
fn a_failure_in_the_middle_keeps_what_came_before() {
    let pool = pool(64, 64, 320);
    let (world, _events) = world(&pool, 2_000_000, 1000, 1, 16);
    let (mut input, _) = source(files("f", 1));
    input.end_error = Some(listing_issue("IO"));
    let handle = world.start(Category::Files, input);
    work(&pool);
    let page = world.page(&handle.task_id, None, 2, 1).unwrap();
    assert_eq!(page.work.phase, Phase::Failed);
    assert_eq!(page.coverage, Coverage::Partial);
    assert_eq!(page.entries.len(), 1);
}

#[test]
fn a_task_leaves_its_listing_as_it_ended() {
    assert_eq!(outcome_of(Status::Completed), (Phase::Completed, None));
    assert_eq!(outcome_of(Status::Cancelled), (Phase::Cancelled, None));
    assert_eq!(
        outcome_of(Status::Failed),
        (Phase::Failed, Some(listing_issue("INTERNAL")))
    );
    assert_eq!(
        outcome_of(Status::ResourceLimit),
        (Phase::Completed, Some(listing_issue("RESOURCE_LIMIT")))
    );
}

struct ScanCursor {
    rows: VecDeque<Observation>,
    counts: Rc<Counts>,
}

impl Drop for ScanCursor {
    fn drop(&mut self) {
        self.counts.closed.set(self.counts.closed.get() + 1);
    }
}

/// A tree whose calls can be interrupted by what the control side does meanwhile.
struct ScanSource {
    rows: BTreeMap<u64, Vec<Observation>>,
    counts: Rc<Counts>,
    on_open: Option<Box<dyn FnOnce()>>,
    on_next: Option<Box<dyn FnOnce()>>,
    open_error: Option<FsIssue>,
}

impl ObservationSource for ScanSource {
    type Cursor = ScanCursor;
    fn open(&mut self, directory: &Observation) -> Result<ScanCursor, FsIssue> {
        self.counts.opened.set(self.counts.opened.get() + 1);
        if let Some(hook) = self.on_open.take() {
            hook();
        }
        if let Some(error) = self.open_error.take() {
            return Err(error);
        }
        Ok(ScanCursor {
            rows: self.rows.get(&directory.node).cloned().unwrap_or_default().into(),
            counts: self.counts.clone(),
        })
    }
    fn next(&mut self, cursor: &mut ScanCursor) -> Result<Option<Observation>, FsIssue> {
        self.counts.next.set(self.counts.next.get() + 1);
        if let Some(hook) = self.on_next.take() {
            hook();
        }
        Ok(cursor.rows.pop_front())
    }
}

fn observation(node: u64, name: &str, kind: Kind, bytes: u64) -> Observation {
    Observation {
        node,
        raw_name: name.as_bytes().to_vec(),
        kind,
        identity: Some(FileIdentity { device: 1, inode: node }),
        link_count: 1,
        mount: 1,
        logical: Metric::Known(bytes),
        allocated: Metric::Known(bytes * 8),
    }
}

fn tree(rows: Vec<Observation>) -> (ScanSource, Rc<Counts>) {
    let counts = Rc::new(Counts::default());
    (
        ScanSource {
            rows: BTreeMap::from([(1, rows)]),
            counts: counts.clone(),
            on_open: None,
            on_next: None,
            open_error: None,
        },
        counts,
    )
}

fn setup(pool: &Pool, capacity: usize, generation: u64) -> (Rc<World>, Receiver<WorkEvent>) {
    world(pool, 2_000_000, 1000, generation, capacity)
}

fn gives(measure: &Measure, reason: Reason) -> bool {
    matches!(measure, Measure::Partial { reasons, .. } if reasons.contains(&reason))
}

#[test]
fn blocked_root_open_is_off_control_thread_and_duplicate_start_does_not_reopen() {
    let pool = pool(64, 64, 320);
    let (service, _events) = setup(&pool, 16, 1);
    let (mut input, counts) = tree(vec![]);
    let control = service.clone();
    let id: Rc<RefCell<String>> = Rc::default();
    let known = id.clone();
    let seen = counts.clone();
    input.on_open = Some(Box::new(move || {
        let id = known.borrow().clone();
        let (unused, unused_counts) = tree(vec![]);
        assert_eq!(control.scan(unused).task_id, id);
        assert_eq!(unused_counts.opened.get(), 0);
        assert_eq!(seen.next.get(), 0);
        let (status, accepted) = control.cancel_usage(&id).unwrap();
        assert_eq!(status, CancelStatus::Accepted);
        assert_eq!(accepted.phase, Phase::Running);
        assert_eq!(accepted.wait_reason, Some(WaitReason::Draining));
        assert_eq!(control.open_handles(), 1);
    }));
    let started = service.scan(input);
    assert_eq!(service.root_usage().logical, Measure::Unknown);
    *id.borrow_mut() = started.task_id.clone();
    work(&pool);
    assert_eq!(service.usage_work(&started.task_id).unwrap().phase, Phase::Cancelled);
    assert_eq!(service.open_handles(), 0);
    assert_eq!(counts.next.get(), 0);
    let usage = service.root_usage();
    assert_eq!(usage.scan_state, ScanState::Cancelled);
    assert!(gives(&usage.logical, Reason::Cancelled));
}

#[test]
fn late_metadata_after_cancel_is_discarded_and_terminal_event_follows_cached_partial() {
    let pool = pool(64, 64, 320);
    let (service, events) = setup(&pool, 16, 1);
    let (mut input, counts) = tree(vec![observation(2, "late", Kind::RegularFile, 1_000_000)]);
    let control = service.clone();
    let id: Rc<RefCell<String>> = Rc::default();
    let known = id.clone();
    input.on_next = Some(Box::new(move || {
        let id = known.borrow().clone();
        control.cancel_usage(&id).unwrap();
    }));
    let started = service.scan(input);
    *id.borrow_mut() = started.task_id.clone();
    work(&pool);
    let done = service.usage_work(&started.task_id).unwrap();
    assert_eq!(done.phase, Phase::Cancelled);
    assert_eq!(done.processed_entries, 0_u64.into());
    assert!(
        matches!(&service.root_usage().logical, Measure::Partial { observed_bytes, reasons }
            if *observed_bytes == 1_u64.into() && reasons.contains(&Reason::Cancelled))
    );
    let terminal = events.try_iter().find(|event| event.kind == EventKind::Terminal).unwrap();
    assert_eq!(terminal.sequence, done.sequence);
    assert_eq!(counts.closed.get(), 1);
    assert_eq!(service.open_handles(), 0);
    assert_eq!(
        service.cancel_usage(&started.task_id).unwrap().0,
        CancelStatus::AlreadyTerminal
    );
}

#[test]
fn missing_events_recover_from_cached_work_and_usage_without_new_io() {
    let pool = pool(64, 64, 320);
    let (service, events) = setup(&pool, 0, 1);
    let (input, counts) = tree(
        (2..1002).map(|n| observation(n, &format!("f{n}"), Kind::RegularFile, 1)).collect(),
    );
    let started = service.scan(input);
    work(&pool);
    let done = service.usage_work(&started.task_id).unwrap();
    assert_eq!(done.phase, Phase::Completed);
    assert_eq!(done.processed_entries, 1000_u64.into());
    assert!(events.try_recv().is_err());
    let calls = counts.next.get();
    for _ in 0..100 {
        assert_eq!(service.usage_work(&started.task_id).unwrap(), done);
        assert_eq!(
            service.root_usage().logical,
            Measure::Complete { bytes: 1001_u64.into() }
        );
    }
    assert_eq!(counts.next.get(), calls);
    let (unused, unused_counts) = tree(vec![]);
    assert_eq!(service.scan(unused), done);
    assert_eq!(unused_counts.opened.get(), 0);
}

#[test]
fn equal_sequences_show_equal_work() {
    let pool = pool(64, 64, 320);
    let (service, _events) = setup(&pool, 16, 1);
    let (input, _) = tree(
        (2..12).map(|n| observation(n, &format!("f{n}"), Kind::RegularFile, 1)).collect(),
    );
    let started = service.scan(input);
    let mut shown = vec![started.clone()];
    shown.push(service.usage_work(&started.task_id).unwrap());
    shown.push(service.usage_work(&started.task_id).unwrap());
    work(&pool);
    for _ in 0..3 {
        shown.push(service.usage_work(&started.task_id).unwrap());
    }
    for pair in shown.windows(2) {
        assert!(pair[0].sequence <= pair[1].sequence);
        assert_eq!(pair[0].sequence == pair[1].sequence, pair[0] == pair[1]);
    }
    assert!(shown[0].sequence < shown[5].sequence);
    assert_eq!(service.usage_work("other"), Err(UsageError::TaskExpired));
}

#[test]
fn root_permission_error_is_failed_with_native_code_but_cancel_discards_late_error() {
    for cancelled in [false, true] {
        let pool = pool(64, 64, 320);
        let (service, _events) = setup(&pool, 16, 1);
        let (mut input, _) = tree(vec![]);
        input.open_error = Some(FsIssue {
            code: "PERMISSION_DENIED".into(),
            operation: "scanUsage".into(),
            scope: IssueScope::Root,
            entry_id: None,
            native_code: Some(13),
        });
        let control = service.clone();
        let id: Rc<RefCell<String>> = Rc::default();
        let known = id.clone();
        input.on_open = Some(Box::new(move || {
            if cancelled {
                let id = known.borrow().clone();
                control.cancel_usage(&id).unwrap();
            }
        }));
        let started = service.scan(input);
        *id.borrow_mut() = started.task_id.clone();
        work(&pool);
        let done = service.usage_work(&started.task_id).unwrap();
        if cancelled {
            assert_eq!(done.phase, Phase::Cancelled);
            assert!(done.issues.counts.is_empty());
        } else {
            assert_eq!(done.phase, Phase::Failed);
            assert_eq!(done.issues.samples[0].native_code, Some(13));
            assert_eq!(service.root_usage().scan_state, ScanState::Failed);
        }
        assert_eq!(service.open_handles(), 0);
    }
}

#[test]
fn generation_close_suppresses_old_events_and_new_scan_waits_for_same_worker() {
    let pool = pool(64, 64, 320);
    let (old, events) = setup(&pool, 16, 1);
    let (new, _new_events) = setup(&pool, 16, 2);
    let (mut input, _) = tree(vec![observation(2, "late", Kind::RegularFile, 100)]);
    let (closing, opening) = (old.clone(), new.clone());
    let id: Rc<RefCell<String>> = Rc::default();
    let known = id.clone();
    let next: Rc<RefCell<String>> = Rc::default();
    let started_next = next.clone();
    input.on_next = Some(Box::new(move || {
        closing.close_usage();
        let id = known.borrow().clone();
        assert_eq!(closing.usage_work(&id), Err(UsageError::SessionClosed));
        let (input, counts) = tree(vec![observation(3, "new", Kind::RegularFile, 9)]);
        let work = opening.scan(input);
        assert_eq!(
            opening.usage_work(&work.task_id).unwrap().wait_reason,
            Some(WaitReason::Draining)
        );
        assert_eq!(counts.opened.get(), 0);
        *started_next.borrow_mut() = work.task_id;
    }));
    let started = old.scan(input);
    *id.borrow_mut() = started.task_id.clone();
    work(&pool);
    let next = next.borrow().clone();
    assert_eq!(new.usage_work(&next).unwrap().phase, Phase::Completed);
    assert_eq!(new.root_usage().logical, Measure::Complete { bytes: 10_u64.into() });
    assert!(events.try_recv().is_err());
    assert_eq!(new.open_handles(), 0);
}

#[test]
fn queued_cancel_opens_nothing_and_batch_validation_never_starts_a_scan() {
    struct Block;
    impl Job for Block {
        type Handles = SharedHandles;
        fn step(&mut self, _: &Cancellation, _: &SharedHandles) -> JobStep {
            JobStep::Completed
        }
        fn stopped(&mut self, _: Status) {}
    }
    let pool = pool(64, 64, 320);
    pool.borrow_mut()
        .submit(
            "occupy".into(),
            Scope { session_id: "other".into(), generation: 1 },
            Lane::Background,
            AnyJob(Box::new(Block)),
        )
        .ok()
        .unwrap();
    let occupying = pool.borrow_mut().next_job(Lane::Background).unwrap();
    let (service, _events) = setup(&pool, 16, 1);
    assert_eq!(
        service.read_usage(&vec![service.root.clone(); 1001]),
        Err(UsageError::InvalidArgument)
    );
    assert_eq!(
        service.read_usage(&[service.root.clone(), "other-generation".into()]),
        Err(UsageError::EntryExpired)
    );
    assert_eq!(service.read_usage(&vec![service.root.clone(); 1000]).unwrap().len(), 1000);
    let (input, counts) = tree(vec![]);
    let started = service.scan(input);
    assert_eq!(service.cancel_usage(&started.task_id).unwrap().0, CancelStatus::Accepted);
    assert_eq!(service.usage_work(&started.task_id).unwrap().phase, Phase::Cancelled);
    assert_eq!(counts.opened.get(), 0);
    assert_eq!(service.root_usage().scan_state, ScanState::Cancelled);
    let (retired, next) =
        pool.borrow_mut().settle(Lane::Background, occupying, JobStep::Completed);
    assert!(retired.is_some() && next.is_none());
}

#[test]
fn a_shared_handle_limit_is_partial_resource_limit_without_opening_the_source() {
    let pool = pool(64, 64, 0);
    let (service, _events) = setup(&pool, 16, 1);
    let (input, counts) = tree(vec![]);
    let started = service.scan(input);
    work(&pool);
    let done = service.usage_work(&started.task_id).unwrap();
    assert_eq!(done.phase, Phase::Completed);
    assert!(done.issues.counts.contains_key("RESOURCE_LIMIT"));
    assert_eq!(counts.opened.get(), 0);
    assert!(gives(&service.root_usage().logical, Reason::ResourceLimit));
}

#[test]
fn queue_admission_failure_preserves_failure_without_opening_a_source() {
    let pool = pool(0, 64, 320);
    let (service, events) = setup(&pool, 16, 1);
    let (input, counts) = tree(vec![]);
    assert_eq!(
        service.scan_root(observation(1, "root", Kind::Directory, 1), input),
        Err(UsageError::ResourceLimit)
    );
    assert_eq!(counts.opened.get(), 0);
    let usage = service.root_usage();
    assert_eq!(usage.scan_state, ScanState::Failed);
    assert!(gives(&usage.logical, Reason::ResourceLimit));
    assert_eq!(events.try_recv().unwrap().kind, EventKind::Terminal);
}

#[test]
fn retirement_before_final_publication_is_not_reported_as_already_terminal() {
    let pool = pool(64, 64, 320);
    let (service, _events) = setup(&pool, 16, 1);
    let control = service.clone();
    let id: Rc<RefCell<String>> = Rc::default();
    let known = id.clone();
    *service.on_sample.borrow_mut() = Some((
        3,
        Box::new(move || {
            let id = known.borrow().clone();
            let (status, pending) = control.cancel_usage(&id).unwrap();
            assert_eq!(status, CancelStatus::Accepted);
            assert_eq!(pending.phase, Phase::Running);
        }),
    ));
    let (input, _) = tree(vec![]);
    let started = service.scan(input);
    *id.borrow_mut() = started.task_id.clone();
    work(&pool);
    assert!(service.on_sample.borrow().is_none());
    assert_eq!(service.usage_work(&started.task_id).unwrap().phase, Phase::Completed);
    assert_eq!(
        service.cancel_usage(&started.task_id).unwrap().0,
        CancelStatus::AlreadyTerminal
    );
}

#[test]
fn a_panicking_source_finishes_failed_and_the_same_worker_runs_the_next_generation() {
    let pool = pool(64, 64, 320);
    let (service, events) = setup(&pool, 16, 1);
    let (input, _) = tree(vec![]);
    let started = service.scan(input);
    // A worker reports a failed step for a source that panics.
    work_lane(&pool, Lane::Background, true);
    let failed = service.usage_work(&started.task_id).unwrap();
    assert_eq!(failed.phase, Phase::Failed);
    assert!(failed.issues.counts.contains_key("INTERNAL"));
    assert_eq!(service.root_usage().scan_state, ScanState::Failed);
    assert!(events.try_iter().any(|event| event.kind == EventKind::Terminal));
    let (next, _next_events) = setup(&pool, 16, 2);
    let (input, _) = tree(vec![]);
    let started = next.scan(input);
    work(&pool);
    assert_eq!(next.usage_work(&started.task_id).unwrap().phase, Phase::Completed);
    assert_eq!(next.open_handles(), 0);
}

#[test]
fn an_index_cannot_be_reused_for_another_session_or_generation() {
    let pool = pool(64, 64, 320);
    let (service, _events) = setup(&pool, 16, 1);
    for scope in [
        Scope { session_id: "fixture".into(), generation: 2 },
        Scope { session_id: "other".into(), generation: 1 },
    ] {
        let result = UsageService::new(
            scope,
            service.root.clone(),
            &mut service.index.borrow_mut(),
            &mut service.pools.borrow_mut(),
        );
        assert!(matches!(result, Err(UsageError::InvalidArgument)));
    }
}

#[test]
fn a_usage_service_needs_a_known_root_and_a_valid_scope() {
    let (mut index, mut pools) = DirectoryIndex::new("g1".into(), 100_000, 100_000);
    let scope = Scope { session_id: "s".into(), generation: 1 };
    assert!(matches!(
        UsageService::new(scope.clone(), "nobody".into(), &mut index, &mut pools),
        Err(UsageError::EntryExpired)
    ));
    let root = index
        .register(
            &mut pools,
            DirectoryKey { parent_id: None, raw_name: b"root".to_vec() },
            Origin::Foreground,
        )
        .unwrap();
    let child = index
        .register(
            &mut pools,
            DirectoryKey { parent_id: Some(root.clone()), raw_name: b"child".to_vec() },
            Origin::Foreground,
        )
        .unwrap();
    assert!(matches!(
        UsageService::new(scope.clone(), child, &mut index, &mut pools),
        Err(UsageError::InvalidArgument)
    ));
    let empty = Scope { session_id: "".into(), generation: 1 };
    assert!(matches!(
        UsageService::new(empty, root.clone(), &mut index, &mut pools),
        Err(UsageError::InvalidArgument)
    ));
    assert_eq!(UsageService::new(scope, root.clone(), &mut index, &mut pools).ok().unwrap().root_id(), root);
    let (mut index, mut pools) = DirectoryIndex::new("g1".into(), 100_000, 3000);
    let root = index
        .register(
            &mut pools,
            DirectoryKey { parent_id: None, raw_name: b"root".to_vec() },
            Origin::Background,
        )
        .unwrap();
    let long = Scope { session_id: "s".repeat(128), generation: 1 };
    let filler = index
        .register(
            &mut pools,
            DirectoryKey { parent_id: Some(root.clone()), raw_name: vec![b'x'; 300] },
            Origin::Foreground,
        )
        .unwrap();
    assert_ne!(filler, root);
    assert!(matches!(
        UsageService::new(long, root, &mut index, &mut pools),
        Err(UsageError::ResourceLimit)
    ));
}

#[test]
fn a_scan_needs_the_root_that_was_registered() {
    let pool = pool(64, 64, 320);
    let (service, _events) = setup(&pool, 16, 1);
    assert_eq!(
        service.scan_root(observation(1, "root", Kind::RegularFile, 1), tree(vec![]).0),
        Err(UsageError::InvalidArgument)
    );
    assert_eq!(
        service.scan_root(observation(1, "other", Kind::Directory, 1), tree(vec![]).0),
        Err(UsageError::InvalidArgument)
    );
    assert_eq!(service.usage_work("usage-task-0"), Err(UsageError::TaskExpired));
    assert_eq!(service.cancel_usage("usage-task-0").err(), Some(UsageError::TaskExpired));
    service.close_usage();
    assert_eq!(
        service.scan_root(observation(1, "root", Kind::Directory, 1), tree(vec![]).0),
        Err(UsageError::SessionClosed)
    );
    assert_eq!(
        service.read_usage(&[service.root.clone()]),
        Err(UsageError::SessionClosed)
    );
}

#[test]
fn measurements_become_partial_for_a_reason() {
    assert_eq!(
        partial(Measure::Complete { bytes: 7_u64.into() }, Reason::Cancelled),
        Measure::Partial { observed_bytes: 7_u64.into(), reasons: vec![Reason::Cancelled] }
    );
    assert_eq!(
        partial(
            Measure::Partial {
                observed_bytes: 7_u64.into(),
                reasons: vec![Reason::ReadError, Reason::ResourceLimit],
            },
            Reason::Cancelled
        ),
        Measure::Partial {
            observed_bytes: 7_u64.into(),
            reasons: vec![Reason::ReadError, Reason::Cancelled, Reason::ResourceLimit],
        }
    );
    assert_eq!(
        partial(Measure::Unavailable { reason: Reason::Unsupported }, Reason::Cancelled),
        Measure::Partial {
            observed_bytes: 0_u64.into(),
            reasons: vec![Reason::Cancelled, Reason::Unsupported],
        }
    );
    assert_eq!(
        partial(Measure::Unavailable { reason: Reason::Unsupported }, Reason::Unsupported),
        Measure::Partial { observed_bytes: 0_u64.into(), reasons: vec![Reason::Unsupported] }
    );
    assert_eq!(
        partial(Measure::Unknown, Reason::Scanning),
        Measure::Partial { observed_bytes: 0_u64.into(), reasons: vec![Reason::Scanning] }
    );
    assert_eq!(unknown("d", STAMP).usage_revision, 0);
}

#[test]
fn steps_and_endings_follow_the_scan() {
    assert_eq!(step_after(ScanPhase::Running, false), JobStep::Yield);
    assert_eq!(step_after(ScanPhase::Completed, true), JobStep::Failed);
    assert_eq!(step_after(ScanPhase::Completed, false), JobStep::Completed);
    assert_eq!(step_after(ScanPhase::Cancelled, true), JobStep::Completed);
    assert_eq!(step_without_scan("RESOURCE_LIMIT"), JobStep::ResourceLimit);
    assert_eq!(step_without_scan("NOT_DIRECTORY"), JobStep::Failed);
    assert_eq!(
        ending_of(Status::Cancelled),
        (Phase::Cancelled, Some(Reason::Cancelled), ScanState::Cancelled)
    );
    assert_eq!(
        ending_of(Status::ResourceLimit),
        (Phase::Completed, Some(Reason::ResourceLimit), ScanState::Settled)
    );
    assert_eq!(ending_of(Status::Completed), (Phase::Completed, None, ScanState::Settled));
    assert_eq!(fallback_issue(Status::Failed).unwrap().code, "INTERNAL");
    assert_eq!(fallback_issue(Status::ResourceLimit).unwrap().code, "RESOURCE_LIMIT");
    assert!(fallback_issue(Status::Cancelled).is_none());
}

/// A listing that is read without sharing anything, until its task stops reading.
fn read_alone(rows: Vec<ListedEntry>, limit: usize) -> (ListingPage, JobStep, usize) {
    let pool = pool(64, 64, 320);
    let (world, events) = world(&pool, 2_000_000, 1000, 1, 16);
    let (unused, _) = source(vec![]);
    let handle = world.start_with(Category::Files, limit, unused).unwrap();
    let (input, _) = source(rows);
    let mut job: ListingJob<Source, SharedHandles> =
        ListingJob::new(input, handle.task_id.clone(), world.root.clone(), Category::Files);
    let mut step = JobStep::Yield;
    let mut own: Scheduler<AnyJob> = Scheduler::default();
    while step == JobStep::Yield {
        step = job.step(
            &Cancellation::default(),
            &SharedHandles(pool.clone()),
            &StampClock(0),
            &world.sink,
            &mut world.listings.borrow_mut(),
            &mut world.index.borrow_mut(),
            &mut world.pools.borrow_mut(),
            &mut world.memory.borrow_mut(),
            &mut own,
            &mut world.gone.borrow_mut(),
        );
    }
    let page = world.page(&handle.task_id, None, limit, 0).unwrap();
    (page, step, events.try_iter().count())
}

#[test]
fn a_listing_is_read_to_its_end_or_to_its_demand() {
    let (page, step, offered) = read_alone(files("f", 3), 2);
    assert_eq!(step, JobStep::Completed);
    assert_eq!(page.work.phase, Phase::Completed);
    assert_eq!(page.entries.len(), 2);
    assert_eq!(offered, 0);
    let (page, step, offered) = read_alone(files("f", 9), 2);
    assert_eq!(step, JobStep::Paused);
    assert!(page.next_cursor.is_some());
    assert_eq!(page.entries[1].display_name, "f1");
    assert_eq!(offered, 1);
}

#[test]
fn a_stopped_listing_takes_nothing_that_comes_late() {
    let pool = pool(64, 64, 320);
    let (world, _events) = world(&pool, 2_000_000, 1000, 1, 16);
    let (unused, _) = source(vec![]);
    let handle = world.start_with(Category::Files, 2, unused).unwrap();
    let (mut input, counts) = source(files("late", 1));
    let cancel = Cancellation::default();
    let told = cancel.clone();
    input.on_next = Some(Box::new(move || told.cancel()));
    let mut job: ListingJob<Source, SharedHandles> =
        ListingJob::new(input, handle.task_id.clone(), world.root.clone(), Category::Files);
    let step = job.step(
        &cancel,
        &SharedHandles(pool.clone()),
        &StampClock(0),
        &world.sink,
        &mut world.listings.borrow_mut(),
        &mut world.index.borrow_mut(),
        &mut world.pools.borrow_mut(),
        &mut world.memory.borrow_mut(),
        &mut Scheduler::<AnyJob>::default(),
        &mut world.gone.borrow_mut(),
    );
    assert_eq!(step, JobStep::Completed);
    assert_eq!(counts.next.get(), 1);
    let page = world.page(&handle.task_id, None, 2, 0).unwrap();
    assert_eq!(page.work.phase, Phase::Cancelled);
    assert!(page.entries.is_empty());
}

#[test]
fn a_scan_is_measured_step_by_step() {
    let pool = pool(64, 64, 320);
    let (world, events) = setup(&pool, 16, 1);
    let (unused, _) = tree(vec![]);
    let started = world.scan(unused);
    let (input, counts) = tree(
        (2..302).map(|n| observation(n, &format!("f{n}"), Kind::RegularFile, 1)).collect(),
    );
    let mut job: UsageJob<ScanSource, SharedHandles> = UsageJob::new(
        input,
        observation(1, "root", Kind::Directory, 1),
        ScanLimits::default(),
    );
    let mut steps = vec![];
    while steps.last() != Some(&JobStep::Completed) {
        steps.push(job.step(
            &Cancellation::default(),
            &SharedHandles(pool.clone()),
            &StampClock(0),
            &world.sink,
            &mut world.usage.borrow_mut(),
            &mut world.index.borrow_mut(),
            &mut world.pools.borrow_mut(),
        ));
    }
    assert!(steps.len() >= 3);
    assert_eq!(counts.opened.get(), 1);
    assert_eq!(counts.next.get(), 301);
    assert_eq!(world.usage_work(&started.task_id).unwrap().processed_entries, 300_u64.into());
    assert!(events.try_iter().all(|event| event.kind == EventKind::UsageChanged));
    job.stopped(
        Status::Completed,
        &StampClock(1),
        &world.sink,
        &mut world.usage.borrow_mut(),
        &mut world.index.borrow_mut(),
    );
    assert_eq!(world.usage_work(&started.task_id).unwrap().phase, Phase::Completed);
    assert_eq!(events.try_recv().unwrap().kind, EventKind::Terminal);
    assert_eq!(world.root_usage().logical, Measure::Complete { bytes: 301_u64.into() });
}

#[test]
fn a_scan_of_something_else_is_refused() {
    let pool = pool(64, 64, 320);
    let (world, _events) = setup(&pool, 16, 1);
    let (input, counts) = tree(vec![]);
    let mut job: UsageJob<ScanSource, SharedHandles> = UsageJob::new(
        input,
        observation(1, "root", Kind::RegularFile, 1),
        ScanLimits::default(),
    );
    let mut step = || {
        job.step(
            &Cancellation::default(),
            &SharedHandles(pool.clone()),
            &StampClock(0),
            &world.sink,
            &mut world.usage.borrow_mut(),
            &mut world.index.borrow_mut(),
            &mut world.pools.borrow_mut(),
        )
    };
    assert_eq!(step(), JobStep::Failed);
    assert_eq!(step(), JobStep::Failed);
    assert_eq!(counts.opened.get(), 0);
}
