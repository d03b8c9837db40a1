//! The task that fills a listing: one directory cursor, read in quanta and only on demand. A step
//! looks at the listing, reads from the source and hands over what it read, in turns. Whoever
//! shares the listings with others makes the same moves in the same order, and shares them only
//! while looking and handing over.
use std::time::Instant;

use vstd::prelude::*;

use crate::domain::controller::Cancellation;
use crate::domain::index::{DirectoryIndex, IndexPools};
use crate::domain::model::{Category, EventKind, FsIssue, IssueView, Kind, Phase};
use crate::listing::cache;
use crate::listing::cache::CacheError;
use crate::listing::service;
use crate::listing::service::{
    issue, Desk, Find, ListedEntry, ListingService, ServiceView, Shelf, Taken, Tally, TallyView,
};
use crate::runtime::clock;
use crate::runtime::clock::{quantum_is_over, Clock, TimeView};
use crate::runtime::events;
use crate::runtime::events::{EventSink, TaskEvents, TaskEventsView};
use crate::runtime::memory::{ByteBudget, PoolView};
use crate::scheduler::handles;
use crate::scheduler::{Handles, JobStep, Pending, Scheduler, Status, SubmitError};

verus! {

/// Where the entries of a directory come from. Making a source must not perform I/O. It owns at
/// most one directory cursor, for which the task holds a handle. A source may say more of its
/// answers than that they are its own.
pub trait ListingSource {
    type Cursor;

    /// Whether opening a directory can lead from one state of the source to another with this
    /// answer.
    open spec fn opens(
        before: &Self,
        directory_id: Seq<char>,
        after: &Self,
        opened: Result<Self::Cursor, FsIssue>,
    ) -> bool {
        true
    }

    /// Whether reading on can lead from one state of the source and a cursor to another with this
    /// answer.
    open spec fn gives(
        before: &Self,
        from: &Self::Cursor,
        after: &Self,
        to: &Self::Cursor,
        found: Result<Option<ListedEntry>, FsIssue>,
    ) -> bool {
        true
    }

    fn open(&mut self, directory_id: &str) -> (opened: Result<Self::Cursor, FsIssue>)
        ensures
            Self::opens(old(self), directory_id@, final(self), opened),
    ;

    fn next(&mut self, cursor: &mut Self::Cursor) -> (found: Result<Option<ListedEntry>, FsIssue>)
        ensures
            Self::gives(old(self), old(cursor), final(self), final(cursor), found),
    ;
}

/// The task of one listing.
pub struct ListingJob<S: ListingSource, H: Handles> {
    source: S,
    cursor: Option<S::Cursor>,
    permit: Option<H::Permit>,
    tally: Tally,
    events: TaskEvents,
}

/// What a task has read, whether its directory is open, and what was offered of it.
#[verifier::ext_equal]
pub struct JobView {
    pub tally: TallyView,
    pub open: bool,
    pub events: TaskEventsView,
}

impl JobView {
    /// The state of the listing was offered at a time, if there still is a listing.
    pub open spec fn offered(self, service: ServiceView, now: u64) -> JobView {
        let listings = service.cache.snapshots;
        if listings.contains_key(self.tally.task) {
            JobView { events: self.events.after(listings[self.tally.task].work, now), ..self }
        } else {
            self
        }
    }

    /// Whether offering the state of the listing at a time comes to this. Where there is a
    /// listing, the time is one that the clock gives, and what is due goes to the sink.
    pub open spec fn announces<C: Clock + ?Sized, E: EventSink + ?Sized>(
        self,
        service: ServiceView,
        clock: &C,
        sink: &E,
        time: TimeView,
        after: JobView,
    ) -> bool {
        let listings = service.cache.snapshots;
        let work = listings[self.tally.task].work;
        &&& after == self.offered(service, time.monotonic_ms)
        &&& listings.contains_key(self.tally.task) ==> {
            &&& clock::reads(clock, time)
            &&& self.events.offers(work, time.monotonic_ms) ==> events::offered(
                sink,
                self.events.offer(work, EventKind::ListingAvailable),
            )
        }
    }
}

impl<S: ListingSource, H: Handles> View for ListingJob<S, H> {
    type V = JobView;

    closed spec fn view(&self) -> JobView {
        JobView { tally: self.tally@, open: self.cursor is Some, events: self.events@ }
    }
}

/// The step that ends a task in a phase.
pub open spec fn last_step(phase: Phase) -> JobStep {
    if phase is Failed {
        JobStep::Failed
    } else {
        JobStep::Completed
    }
}

fn step_of(phase: Phase) -> (step: JobStep)
    ensures
        step == last_step(phase),
{
    if phase == Phase::Failed {
        JobStep::Failed
    } else {
        JobStep::Completed
    }
}

/// The step that is over after a look at a listing: a stop was asked for, the listing has enough,
/// or it is gone.
pub open spec fn looked_at(service: ServiceView, task: Seq<char>, stop: bool) -> Option<JobStep> {
    if stop {
        Some(last_step(service.end_phase(task, Phase::Cancelled)))
    } else {
        match service.demand(task) {
            Ok(true) => None,
            Ok(false) => Some(JobStep::Paused),
            Err(_) => Some(JobStep::Completed),
        }
    }
}

/// Whether a look at a listing comes to this.
pub open spec fn is_look(
    before: ServiceView,
    task: Seq<char>,
    stop: bool,
    after: ServiceView,
    verdict: Option<JobStep>,
) -> bool {
    &&& verdict == looked_at(before, task, stop)
    &&& after == (if stop {
        before.finished(task, Phase::Cancelled, None)
    } else {
        before
    })
}

/// The step that is over once something was taken, if one is.
pub open spec fn taken_step(taken: Taken) -> Option<JobStep> {
    match taken {
        Taken::Over => Some(JobStep::Completed),
        Taken::Ended(phase) => Some(last_step(phase)),
        Taken::Skipped => None,
        Taken::Kept => None,
    }
}

/// What reading came to: a stop that was asked for meanwhile, no handle, a directory that could
/// not be opened, or something that the source gave.
pub enum Reading {
    Stopped,
    NoHandle,
    Unopened(FsIssue),
    Found(Result<Option<ListedEntry>, FsIssue>),
}

/// What reading came to, by what it shows.
#[verifier::ext_equal]
pub enum ReadingView {
    Stopped,
    NoHandle,
    Unopened(IssueView),
    Found(Find),
}

impl View for Reading {
    type V = ReadingView;

    open spec fn view(&self) -> ReadingView {
        match self {
            Reading::Stopped => ReadingView::Stopped,
            Reading::NoHandle => ReadingView::NoHandle,
            Reading::Unopened(issue) => ReadingView::Unopened(issue@),
            Reading::Found(found) => ReadingView::Found(service::find_of(*found)),
        }
    }
}

impl TallyView {
    /// The tally once something was found.
    pub open spec fn with(self, find: Find) -> TallyView {
        match find {
            Find::Row(row) => self.after(row.entry.kind),
            _ => self,
        }
    }
}

/// A task together with all that it works on: the listings and their tasks, the index, and the
/// pool in which the listings have their hold.
#[verifier::ext_equal]
pub struct Course<J> {
    pub desk: Desk<J>,
    pub shelf: Shelf,
    pub pool: PoolView,
    pub hold: int,
    pub job: JobView,
}

/// What the outside decides of one turn: whether a stop was asked for before it, what reading came
/// to and whether the directory is open then, and what registering a directory costs.
pub struct Turn {
    pub stop: bool,
    pub reading: ReadingView,
    pub open: bool,
    pub cost: nat,
}

/// How many turns a step makes at most.
pub const STEP_TURNS: usize = 128;

/// What a step does next.
#[derive(Debug, Clone, Copy, PartialEq, Eq, Structural)]
pub enum Move {
    /// The listing is looked at.
    Look,
    /// The source is read.
    Read,
    /// What was read is handed over.
    Accept,
    /// The state of the listing is offered; then the step is over.
    Publish(JobStep),
    /// The step is over.
    Over(JobStep),
}

/// What follows once it is known how a step ends: a task that goes on later offers what it leaves.
pub open spec fn ending_move(step: JobStep) -> Move {
    if step is Paused || step is Yield {
        Move::Publish(step)
    } else {
        Move::Over(step)
    }
}

/// What a step does after a part of it, by the step that is over then, if one is, and by whether
/// there may be another turn.
pub open spec fn move_after(part: Move, verdict: Option<JobStep>, on: bool) -> Move {
    match part {
        Move::Look => match verdict {
            Some(step) => ending_move(step),
            None => Move::Read,
        },
        Move::Read => Move::Accept,
        Move::Accept => match verdict {
            Some(step) => ending_move(step),
            None => if on {
                Move::Look
            } else {
                ending_move(JobStep::Yield)
            },
        },
        Move::Publish(step) => Move::Over(step),
        Move::Over(step) => Move::Over(step),
    }
}

fn ending(step: JobStep) -> (next: Move)
    ensures
        next == ending_move(step),
{
    if step == JobStep::Paused || step == JobStep::Yield {
        Move::Publish(step)
    } else {
        Move::Over(step)
    }
}

/// What a step does after a part of it, by the step that is over then, if one is, and by whether
/// there may be another turn.
pub fn next_move(part: Move, verdict: Option<JobStep>, on: bool) -> (next: Move)
    ensures
        next == move_after(part, verdict, on),
{
    match part {
        Move::Look => match verdict {
            Some(step) => ending(step),
            None => Move::Read,
        },
        Move::Read => Move::Accept,
        Move::Accept => match verdict {
            Some(step) => ending(step),
            None => if on {
                Move::Look
            } else {
                ending(JobStep::Yield)
            },
        },
        Move::Publish(step) => Move::Over(step),
        Move::Over(step) => Move::Over(step),
    }
}

impl<J> Course<J> {
    /// What others hold in the pool.
    pub open spec fn others(self) -> nat {
        (self.pool.used - self.desk.service.cache.used()) as nat
    }

    /// The listing was ended in a phase.
    pub open spec fn finished(self, phase: Phase, issue: Option<IssueView>) -> Course<J> {
        Course { desk: self.desk.finished(self.job.tally.task, phase, issue), ..self }
    }

    /// The step that ends the listing in a phase.
    pub open spec fn last(self, phase: Phase) -> JobStep {
        last_step(self.desk.service.end_phase(self.job.tally.task, phase))
    }

    /// What a look at the listing leaves.
    pub open spec fn looked(self, stop: bool) -> Course<J> {
        if stop {
            self.finished(Phase::Cancelled, None)
        } else {
            self
        }
    }

    /// The step that is over after a look at the listing.
    pub open spec fn look(self, stop: bool) -> Option<JobStep> {
        looked_at(self.desk.service, self.job.tally.task, stop)
    }

    /// How a listing ends that nothing could be read for.
    pub open spec fn ending(reading: ReadingView) -> (Phase, Option<IssueView>) {
        match reading {
            ReadingView::NoHandle => (
                Phase::Completed,
                Some(service::listing_issue("RESOURCE_LIMIT"@)),
            ),
            ReadingView::Unopened(issue) => (Phase::Failed, Some(issue)),
            _ => (Phase::Cancelled, None),
        }
    }

    /// What handing over leaves, and the step that is over then, if one is.
    pub open spec fn accepted(self, reading: ReadingView, cost: nat) -> (
        Course<J>,
        Option<JobStep>,
    ) {
        match reading {
            ReadingView::Found(find) => {
                let tally = self.job.tally.with(find);
                let (desk, shelf, taken) = self.desk.taken(
                    self.shelf,
                    self.pool.limit,
                    self.others(),
                    tally,
                    find,
                    cost,
                );
                (
                    Course {
                        desk,
                        shelf,
                        pool: self.pool.resized(self.hold, desk.service.cache.used()),
                        job: JobView { tally, ..self.job },
                        ..self
                    },
                    taken_step(taken),
                )
            },
            _ => {
                let (phase, issue) = Self::ending(reading);
                (self.finished(phase, issue), Some(self.last(phase)))
            },
        }
    }

    /// Whether handing over can cost this much.
    pub open spec fn charges(self, reading: ReadingView, cost: nat) -> bool {
        reading matches ReadingView::Found(find) ==> self.desk.charges(
            self.shelf.index,
            self.job.tally.with(find),
            find,
            cost,
        )
    }

    /// The task with its directory open, or not.
    pub open spec fn opened(self, open: bool) -> Course<J> {
        Course { job: JobView { open, ..self.job }, ..self }
    }

    /// Whether reading can have come to this: nothing is found in a directory that is not open,
    /// and one that is open is not opened again.
    pub open spec fn reads(self, reading: ReadingView, open: bool) -> bool {
        &&& self.job.open ==> open
        &&& reading is Found ==> open
        &&& reading is NoHandle || reading is Unopened ==> !open
    }

    /// Whether a turn can have come to this.
    #[verifier::opaque]
    pub open spec fn allows(self, turn: Turn) -> bool {
        self.look(turn.stop) is None ==> self.reads(turn.reading, turn.open) && self.charges(
            turn.reading,
            turn.cost,
        )
    }

    /// What a turn leaves, and the step that is over then, if one is.
    #[verifier::opaque]
    pub open spec fn turned(self, turn: Turn) -> (Course<J>, Option<JobStep>) {
        match self.look(turn.stop) {
            Some(step) => (self.looked(turn.stop), Some(step)),
            None => self.opened(turn.open).accepted(turn.reading, turn.cost),
        }
    }

    /// Whether a turn can have come to this end.
    pub open spec fn turns_to(self, turn: Turn, end: Course<J>, verdict: Option<JobStep>) -> bool {
        self.allows(turn) && self.turned(turn) == (end, verdict)
    }

    /// What some turns leave.
    pub open spec fn after(self, turns: Seq<Turn>) -> Course<J>
        decreases turns.len(),
    {
        if turns.len() == 0 {
            self
        } else {
            self.after(turns.drop_last()).turned(turns.last()).0
        }
    }

    /// Whether turns can have come to this, with none that ended the step.
    pub open spec fn passes(self, turns: Seq<Turn>) -> bool
        decreases turns.len(),
    {
        turns.len() == 0 || {
            let now = self.after(turns.drop_last());
            &&& self.passes(turns.drop_last())
            &&& now.allows(turns.last())
            &&& now.turned(turns.last()).1 is None
        }
    }

    /// The state of the listing was offered at a time.
    pub open spec fn published(self, now: u64) -> Course<J> {
        Course { job: self.job.offered(self.desk.service, now), ..self }
    }

    /// What a step leaves that is over after a turn, or cut short. What a task leaves that goes on
    /// later is offered.
    pub open spec fn closes(self, step: JobStep, now: u64) -> Course<J> {
        if step is Paused || step is Yield {
            self.published(now)
        } else {
            self
        }
    }

    /// Whether a step of these turns comes to an end: only the last turn ends it, and a step that
    /// no turn ends yields.
    pub open spec fn steps_to(
        self,
        turns: Seq<Turn>,
        now: u64,
        end: Course<J>,
        step: JobStep,
    ) -> bool {
        let before = self.after(turns.drop_last());
        let (after, verdict) = before.turned(turns.last());
        &&& 0 < turns.len() <= STEP_TURNS
        &&& self.passes(turns.drop_last())
        &&& before.allows(turns.last())
        &&& step == (match verdict {
            Some(step) => step,
            None => JobStep::Yield,
        })
        &&& end == after.closes(step, now)
    }
}

/// Whether a step of this many turns kept to its time: it was not over after any turn but the last,
/// and a step that yields before the last turn it may make yields because it is over.
pub open spec fn timed(started: Instant, turns: nat, step: JobStep) -> bool {
    &&& clock::is_now(started)
    &&& turns > 1 ==> clock::spent(&started, false)
    &&& step is Yield && turns < STEP_TURNS ==> clock::spent(&started, true)
}

/// How a task that is done with leaves its listing.
pub open spec fn outcome(status: Status) -> (Phase, Option<IssueView>) {
    match status {
        Status::Cancelled => (Phase::Cancelled, None),
        Status::Failed => (Phase::Failed, Some(service::listing_issue("INTERNAL"@))),
        Status::ResourceLimit => (
            Phase::Completed,
            Some(service::listing_issue("RESOURCE_LIMIT"@)),
        ),
        _ => (Phase::Completed, None),
    }
}

/// How a task that is done with leaves its listing.
pub fn outcome_of(status: Status) -> (left: (Phase, Option<FsIssue>))
    ensures
        left.0 == outcome(status).0,
        cache::optional_issue(left.1) == outcome(status).1,
{
    match status {
        Status::Cancelled => (Phase::Cancelled, None),
        Status::Failed => (Phase::Failed, Some(issue("INTERNAL"))),
        Status::ResourceLimit => (Phase::Completed, Some(issue("RESOURCE_LIMIT"))),
        _ => (Phase::Completed, None),
    }
}

impl<S: ListingSource, H: Handles> ListingJob<S, H> {
    /// The source as it stands.
    pub closed spec fn source(&self) -> S {
        self.source
    }

    /// The cursor on the directory, if it is open.
    pub closed spec fn cursor(&self) -> Option<S::Cursor> {
        self.cursor
    }

    /// The right to the handle that the cursor takes.
    pub closed spec fn permit(&self) -> Option<H::Permit> {
        self.permit
    }

    /// A task shows whether it has a cursor.
    pub proof fn lemma_open(&self)
        ensures
            self@.open == self.cursor() is Some,
    {
    }

    /// The task together with all that it works on.
    pub open spec fn course<J>(
        &self,
        service: &ListingService,
        index: &DirectoryIndex,
        pools: &IndexPools,
        pool: &ByteBudget,
        scheduler: &Scheduler<J>,
        gone: &Vec<Pending<J>>,
    ) -> Course<J> {
        Course {
            desk: service.desk(scheduler, gone),
            shelf: service::shelf(index, pools),
            pool: pool@,
            hold: service.hold(),
            job: self@,
        }
    }

    /// A task that has read nothing.
    pub fn new(source: S, task: String, target: String, category: Category) -> (job: Self)
        ensures
            job@.tally == (TallyView {
                task: task@,
                target: target@,
                category,
                observed: 0,
                directories: 0,
            }),
            !job@.open,
            job@.events == TaskEventsView::none(),
            job.source() == source,
            job.cursor() is None,
            job.permit() is None,
    {
        ListingJob {
            source,
            cursor: None,
            permit: None,
            tally: Tally { task, target, category, observed: 0, directories: 0 },
            events: TaskEvents::default(),
        }
    }

    /// Whether the step that began at `started` makes another turn: for as long as the time
    /// allows, and at least one.
    pub fn goes_on(&self, done: usize, started: &Instant) -> (on: bool)
        ensures
            done == 0 ==> on,
            done >= STEP_TURNS ==> !on,
            0 < done < STEP_TURNS ==> clock::spent(started, !on),
    {
        done < STEP_TURNS && (done == 0 || !quantum_is_over(started))
    }

    /// Offers the state of the listing.
    pub fn publish<C: Clock + ?Sized, E: EventSink + ?Sized>(
        &mut self,
        service: &ListingService,
        clock: &C,
        sink: &E,
    )
        requires
            service.wf(),
        ensures
            Self::same_gear(old(self), final(self)),
            exists|time: TimeView| #[trigger]
                old(self)@.announces(service@, clock, sink, time, final(self)@),
    {
        let ghost before = self@;
        match service.peek(self.tally.task.as_str()) {
            Some(work) => {
                let time = clock.sample();
                let now: u64 = time.monotonic_ms;
                let _taken = self.events.publish(&work, EventKind::ListingAvailable, now, sink);
                proof {
                    assert(call_ensures(C::sample, (clock,), time));
                    assert(clock::reads(clock, time@));
                    if before.events.offers(work@, now) {
                        assert(events::handed(
                            sink,
                            before.events.offer(work@, EventKind::ListingAvailable),
                            _taken,
                        ));
                    }
                    assert(self@ =~= before.offered(service@, now));
                    assert(before.announces(service@, clock, sink, time@, self@));
                }
            },
            None => {
                assert(before.announces(service@, clock, sink, arbitrary::<TimeView>(), self@));
            },
        }
    }

    /// Looks at the listing, and gives the step that is over: a stop was asked for, the listing
    /// has enough, or it is gone.
    pub fn look(&mut self, cancel: &Cancellation, service: &mut ListingService) -> (verdict: Option<
        JobStep,
    >)
        requires
            old(service).wf(),
        ensures
            final(service).wf(),
            final(service).hold() == old(service).hold(),
            forall|pool: &ByteBudget| old(service).backed(pool) ==> final(service).backed(pool),
            *final(self) == *old(self),
            exists|stop: bool|
                {
                    &&& cancel.tells(stop)
                    &&& #[trigger] is_look(
                        old(service)@,
                        old(self)@.tally.task,
                        stop,
                        final(service)@,
                        verdict,
                    )
                },
    {
        let ghost before = service@;
        if cancel.is_cancelled() {
            let phase = service.finish(self.tally.task.as_str(), Phase::Cancelled, None);
            let verdict = Some(step_of(phase));
            assert(is_look(before, self@.tally.task, true, service@, verdict));
            return verdict;
        }
        let verdict = match service.demand(self.tally.task.as_str()) {
            Ok(true) => None,
            Ok(false) => Some(JobStep::Paused),
            Err(_) => Some(JobStep::Completed),
        };
        assert(is_look(before, self@.tally.task, false, service@, verdict));
        verdict
    }

    /// Whether reading on comes to this: what the source gives on the cursor is found, unless the
    /// token told of a stop after the call.
    pub open spec fn reads_on(
        source: S,
        from: S::Cursor,
        cancel: &Cancellation,
        after: S,
        to: S::Cursor,
        reading: Reading,
    ) -> bool {
        match reading {
            Reading::Found(found) => {
                &&& cancel.tells(false)
                &&& S::gives(&source, &from, &after, &to, found)
            },
            Reading::Stopped => {
                &&& cancel.tells(true)
                &&& exists|found: Result<Option<ListedEntry>, FsIssue>| #[trigger]
                    S::gives(&source, &from, &after, &to, found)
            },
            _ => false,
        }
    }

    /// Whether a directory that was opened with this answer comes to this: it is read on, unless
    /// it could not be opened or the token told of a stop after the call.
    pub open spec fn opens_to(
        middle: S,
        opened: Result<S::Cursor, FsIssue>,
        cancel: &Cancellation,
        after: S,
        cursor: Option<S::Cursor>,
        reading: Reading,
    ) -> bool {
        ||| {
            &&& reading is Stopped
            &&& cancel.tells(true)
            &&& after == middle
            &&& cursor is None || opened is Ok && cursor->0 == opened->Ok_0
        }
        ||| {
            &&& opened is Err
            &&& cancel.tells(false)
            &&& reading == Reading::Unopened(opened->Err_0)
            &&& after == middle
            &&& cursor is None
        }
        ||| {
            &&& opened is Ok
            &&& cancel.tells(false)
            &&& cursor is Some
            &&& Self::reads_on(middle, opened->Ok_0, cancel, after, cursor->0, reading)
        }
    }

    /// Whether a source that is at `middle` after it was to open the task's directory answered so.
    pub open spec fn opened_at(
        before: &Self,
        middle: S,
        opened: Result<S::Cursor, FsIssue>,
    ) -> bool {
        S::opens(&before.source(), before@.tally.target, &middle, opened)
    }

    /// Whether reading comes to this. A task whose directory is open reads on. Any other asks for a
    /// handle, and opens its own directory only with one in hand.
    pub open spec fn reads(
        before: &Self,
        cancel: &Cancellation,
        handles: &H,
        after: &Self,
        reading: Reading,
    ) -> bool {
        match before.cursor() {
            Some(from) => {
                &&& after.permit() == before.permit()
                &&& after.cursor() is Some
                &&& Self::reads_on(
                    before.source(),
                    from,
                    cancel,
                    after.source(),
                    after.cursor()->0,
                    reading,
                )
            },
            None => {
                ||| {
                    &&& reading is NoHandle
                    &&& exists|error: SubmitError| #[trigger]
                        handles::answers(handles, Err(error))
                    &&& after.source() == before.source()
                    &&& after.cursor() is None
                    &&& after.permit() == before.permit()
                }
                ||| {
                    &&& after.permit() is Some
                    &&& handles::answers(handles, Ok(after.permit()->0))
                    &&& exists|middle: S, opened: Result<S::Cursor, FsIssue>|
                        {
                            &&& #[trigger] Self::opened_at(before, middle, opened)
                            &&& Self::opens_to(
                                middle,
                                opened,
                                cancel,
                                after.source(),
                                after.cursor(),
                                reading,
                            )
                        }
                }
            },
        }
    }

    /// Whether two states of a task have the same source, cursor and handle, and are of the same
    /// directory.
    pub open spec fn same_gear(before: &Self, after: &Self) -> bool {
        &&& after.source() == before.source()
        &&& after.cursor() == before.cursor()
        &&& after.permit() == before.permit()
        &&& after@.tally.target == before@.tally.target
    }

    /// Whether a turn was made so: the token was asked before it, and where it reads, reading
    /// comes to what the turn says.
    pub open spec fn makes(
        before: &Self,
        cancel: &Cancellation,
        handles: &H,
        turn: Turn,
        goes: bool,
        after: &Self,
    ) -> bool {
        &&& cancel.tells(turn.stop)
        &&& if goes {
            exists|reading: Reading|
                reading@ == turn.reading && #[trigger] Self::reads(
                    before,
                    cancel,
                    handles,
                    after,
                    reading,
                )
        } else {
            Self::same_gear(before, after)
        }
    }

    /// Whether one of some turns of a course was made so, from one state of the task to the next.
    pub open spec fn made_at<J>(
        jobs: Seq<Self>,
        course: Course<J>,
        cancel: &Cancellation,
        handles: &H,
        turns: Seq<Turn>,
        i: int,
    ) -> bool {
        let now = course.after(turns.take(i));
        &&& jobs[i]@ == now.job
        &&& Self::makes(
            &jobs[i],
            cancel,
            handles,
            turns[i],
            now.look(turns[i].stop) is None,
            &jobs[i + 1],
        )
    }

    /// Whether some turns of a course were made one after the other, through these states of the
    /// task.
    pub open spec fn made<J>(
        jobs: Seq<Self>,
        course: Course<J>,
        cancel: &Cancellation,
        handles: &H,
        turns: Seq<Turn>,
    ) -> bool {
        &&& jobs.len() == turns.len() + 1
        &&& forall|i: int|
            0 <= i < turns.len() ==> #[trigger] Self::made_at(
                jobs,
                course,
                cancel,
                handles,
                turns,
                i,
            )
    }

    /// One more turn was made.
    proof fn lemma_made_more<J>(
        jobs: Seq<Self>,
        course: Course<J>,
        cancel: &Cancellation,
        handles: &H,
        turns: Seq<Turn>,
        turn: Turn,
        last: Self,
    )
        requires
            Self::made(jobs, course, cancel, handles, turns),
            jobs.last()@ == course.after(turns).job,
            Self::makes(
                &jobs.last(),
                cancel,
                handles,
                turn,
                course.after(turns).look(turn.stop) is None,
                &last,
            ),
        ensures
            Self::made(jobs.push(last), course, cancel, handles, turns.push(turn)),
    {
        let more = turns.push(turn);
        assert forall|i: int| 0 <= i < more.len() implies #[trigger] Self::made_at(
            jobs.push(last),
            course,
            cancel,
            handles,
            more,
            i,
        ) by {
            assert(more.take(i) =~= turns.take(i));
            if i < turns.len() {
                assert(Self::made_at(jobs, course, cancel, handles, turns, i));
            } else {
                assert(turns.take(i) =~= turns);
            }
        }
    }

    /// Reads at most one entry; the directory is opened before the first, with a handle in hand.
    /// Cancellation is checked immediately after every call of the source.
    pub fn read(&mut self, cancel: &Cancellation, handles: &H) -> (reading: Reading)
        ensures
            final(self)@.tally == old(self)@.tally,
            final(self)@.events == old(self)@.events,
            old(self)@.open ==> final(self)@.open,
            reading is Found ==> final(self)@.open,
            reading is NoHandle || reading is Unopened ==> !final(self)@.open,
            Self::reads(old(self), cancel, handles, final(self), reading),
    {
        if self.cursor.is_none() {
            match handles.acquire() {
                Ok(permit) => {
                    self.permit = Some(permit);
                },
                Err(error) => {
                    assert(handles::answers(handles, Err::<H::Permit, SubmitError>(error)));
                    return Reading::NoHandle;
                },
            }
            let opened = self.source.open(self.tally.target.as_str());
            assert(Self::opened_at(old(self), self.source, opened));
            if cancel.is_cancelled() {
                return Reading::Stopped;
            }
            match opened {
                Ok(cursor) => {
                    self.cursor = Some(cursor);
                },
                Err(error) => {
                    return Reading::Unopened(error);
                },
            }
            if cancel.is_cancelled() {
                return Reading::Stopped;
            }
        }
        let found = match &mut self.cursor {
            Some(cursor) => self.source.next(cursor),
            None => Ok(None),
        };
        if cancel.is_cancelled() {
            return Reading::Stopped;
        }
        Reading::Found(found)
    }

    /// Hands over what was read, and gives the step that is over then, if one is.
    pub fn accept<J>(
        &mut self,
        reading: Reading,
        service: &mut ListingService,
        index: &mut DirectoryIndex,
        pools: &mut IndexPools,
        pool: &mut ByteBudget,
        scheduler: &mut Scheduler<J>,
        gone: &mut Vec<Pending<J>>,
    ) -> (verdict: Option<JobStep>)
        requires
            old(service).wf(),
            old(service).backed(old(pool)),
            old(index).wf(),
            old(index).backed(old(pools)),
            old(scheduler).wf(),
        ensures
            final(service).wf(),
            final(service).backed(final(pool)),
            final(index).wf(),
            final(index).backed(final(pools)),
            final(index).same_holds(old(index)),
            final(pools).background@ == old(pools).background@,
            final(scheduler).wf(),
            final(scheduler).budget() == old(scheduler).budget(),
            Self::same_gear(old(self), final(self)),
            exists|cost: nat|
                {
                    &&& (
                        final(self).course(
                            final(service),
                            final(index),
                            final(pools),
                            final(pool),
                            final(scheduler),
                            final(gone),
                        ),
                        verdict,
                    ) == #[trigger] old(self).course(
                        old(service),
                        old(index),
                        old(pools),
                        old(pool),
                        old(scheduler),
                        old(gone),
                    ).accepted(reading@, cost)
                    &&& old(self).course(
                        old(service),
                        old(index),
                        old(pools),
                        old(pool),
                        old(scheduler),
                        old(gone),
                    ).charges(reading@, cost)
                },
    {
        let ghost start = self.course(service, index, pools, pool, scheduler, gone);
        let ghost shown = reading@;
        let (phase, error): (Phase, Option<FsIssue>) = match reading {
            Reading::Found(found) => {
                let kind: Option<Kind> = match &found {
                    Ok(Some(row)) => Some(row.entry.kind),
                    _ => None,
                };
                if let Some(kind) = kind {
                    self.tally.observed = self.tally.observed.saturating_add(1);
                    if kind == Kind::Directory {
                        self.tally.directories = self.tally.directories.saturating_add(1);
                    }
                }
                assert(self@.tally =~= start.job.tally.with(service::find_of(found)));
                let ghost find = service::find_of(found);
                let taken = service.take(
                    index,
                    pools,
                    pool,
                    scheduler,
                    gone,
                    &self.tally,
                    found,
                );
                let ghost end = self.course(service, index, pools, pool, scheduler, gone);
                proof {
                    let cost = choose|cost: nat|
                        {
                            &&& #[trigger] start.desk.is_taken(
                                start.shelf,
                                start.pool.limit,
                                start.others(),
                                self@.tally,
                                find,
                                cost,
                                end.desk,
                                end.shelf,
                                taken,
                            )
                            &&& start.desk.charges(start.shelf.index, self@.tally, find, cost)
                        };
                    assert(end =~= start.accepted(shown, cost).0);
                    assert(taken_step(taken) == start.accepted(shown, cost).1);
                }
                return match taken {
                    Taken::Over => Some(JobStep::Completed),
                    Taken::Ended(phase) => Some(step_of(phase)),
                    Taken::Skipped => None,
                    Taken::Kept => None,
                };
            },
            Reading::Stopped => (Phase::Cancelled, None),
            Reading::NoHandle => (Phase::Completed, Some(issue("RESOURCE_LIMIT"))),
            Reading::Unopened(error) => (Phase::Failed, Some(error)),
        };
        let actual = service.finish(self.tally.task.as_str(), phase, error);
        let ghost end = self.course(service, index, pools, pool, scheduler, gone);
        assert(end =~= start.accepted(shown, 0).0);
        Some(step_of(actual))
    }

    /// One turn: at most one entry is read. Cancellation is checked before the source is called
    /// and again immediately after every call. Gives what the step does next; `done` turns were
    /// made before.
    #[verifier::spinoff_prover]
    #[verifier::rlimit(40)]
    fn turn<J>(
        &mut self,
        done: usize,
        started: &Instant,
        cancel: &Cancellation,
        handles: &H,
        service: &mut ListingService,
        index: &mut DirectoryIndex,
        pools: &mut IndexPools,
        pool: &mut ByteBudget,
        scheduler: &mut Scheduler<J>,
        gone: &mut Vec<Pending<J>>,
    ) -> (next: Move)
        requires
            old(service).wf(),
            old(service).backed(old(pool)),
            old(index).wf(),
            old(index).backed(old(pools)),
            old(scheduler).wf(),
            done < STEP_TURNS,
        ensures
            final(service).wf(),
            final(service).backed(final(pool)),
            final(index).wf(),
            final(index).backed(final(pools)),
            final(index).same_holds(old(index)),
            final(pools).background@ == old(pools).background@,
            final(scheduler).wf(),
            final(scheduler).budget() == old(scheduler).budget(),
            next is Look ==> done + 1 < STEP_TURNS && clock::spent(started, false),
            next == Move::Publish(JobStep::Yield) && done + 1 < STEP_TURNS ==> clock::spent(
                started,
                true,
            ),
            exists|turn: Turn, verdict: Option<JobStep>|
                {
                    &&& #[trigger] old(self).course(
                        old(service),
                        old(index),
                        old(pools),
                        old(pool),
                        old(scheduler),
                        old(gone),
                    ).turns_to(
                        turn,
                        final(self).course(
                            final(service),
                            final(index),
                            final(pools),
                            final(pool),
                            final(scheduler),
                            final(gone),
                        ),
                        verdict,
                    )
                    &&& Self::makes(
                        old(self),
                        cancel,
                        handles,
                        turn,
                        old(self).course(
                            old(service),
                            old(index),
                            old(pools),
                            old(pool),
                            old(scheduler),
                            old(gone),
                        ).look(turn.stop) is None,
                        final(self),
                    )
                    &&& verdict != Some(JobStep::Yield)
                    &&& next == move_after(Move::Accept, verdict, next is Look)
                },
    {
        let ghost start = self.course(service, index, pools, pool, scheduler, gone);
        proof {
            reveal(Course::turned);
            reveal(Course::allows);
        }
        let looked = self.look(cancel, service);
        let ghost stop = choose|stop: bool|
            {
                &&& cancel.tells(stop)
                &&& #[trigger] is_look(
                    start.desk.service,
                    start.job.tally.task,
                    stop,
                    service@,
                    looked,
                )
            };
        assert(looked == start.look(stop));
        let next = next_move(Move::Look, looked, true);
        if looked.is_some() {
            proof {
                let turn = Turn { stop, reading: ReadingView::Stopped, open: false, cost: 0 };
                let end = self.course(service, index, pools, pool, scheduler, gone);
                assert(end =~= start.looked(stop));
                assert(start.allows(turn));
                assert(start.turns_to(turn, end, looked));
            }
            return next;
        }
        let ghost first = *self;
        let reading = self.read(cancel, handles);
        let ghost given = reading;
        let ghost shown = reading@;
        let ghost open = self@.open;
        let ghost middle = self.course(service, index, pools, pool, scheduler, gone);
        assert(middle =~= start.opened(open));
        let verdict = self.accept(reading, service, index, pools, pool, scheduler, gone);
        proof {
            let end = self.course(service, index, pools, pool, scheduler, gone);
            let cost = choose|cost: nat|
                (end, verdict) == #[trigger] middle.accepted(shown, cost) && middle.charges(
                    shown,
                    cost,
                );
            let turn = Turn { stop, reading: shown, open, cost };
            assert(start.allows(turn));
            assert(Self::reads(&first, cancel, handles, self, given));
            assert(start.turns_to(turn, end, verdict));
        }
        let on = self.goes_on(done + 1, started);
        next_move(Move::Accept, verdict, on)
    }

    /// Reads on until the listing has enough, for as long as the time allows and for at least one
    /// turn.
    #[verifier::spinoff_prover]
    #[verifier::rlimit(40)]
    pub fn step<J, C: Clock + ?Sized, E: EventSink + ?Sized>(
        &mut self,
        cancel: &Cancellation,
        handles: &H,
        clock: &C,
        sink: &E,
        service: &mut ListingService,
        index: &mut DirectoryIndex,
        pools: &mut IndexPools,
        pool: &mut ByteBudget,
        scheduler: &mut Scheduler<J>,
        gone: &mut Vec<Pending<J>>,
    ) -> (step: JobStep)
        requires
            old(service).wf(),
            old(service).backed(old(pool)),
            old(index).wf(),
            old(index).backed(old(pools)),
            old(scheduler).wf(),
        ensures
            final(service).wf(),
            final(service).backed(final(pool)),
            final(index).wf(),
            final(index).backed(final(pools)),
            final(index).same_holds(old(index)),
            final(pools).background@ == old(pools).background@,
            final(scheduler).wf(),
            final(scheduler).budget() == old(scheduler).budget(),
            exists|turns: Seq<Turn>, jobs: Seq<Self>, time: TimeView, started: Instant|
                {
                    let course = old(self).course(
                        old(service),
                        old(index),
                        old(pools),
                        old(pool),
                        old(scheduler),
                        old(gone),
                    );
                    &&& #[trigger] old(self).course(
                        old(service),
                        old(index),
                        old(pools),
                        old(pool),
                        old(scheduler),
                        old(gone),
                    ).steps_to(
                        turns,
                        time.monotonic_ms,
                        final(self).course(
                            final(service),
                            final(index),
                            final(pools),
                            final(pool),
                            final(scheduler),
                            final(gone),
                        ),
                        step,
                    )
                    &&& jobs[0] == *old(self)
                    &&& #[trigger] Self::made(
                        jobs,
                        old(self).course(
                            old(service),
                            old(index),
                            old(pools),
                            old(pool),
                            old(scheduler),
                            old(gone),
                        ),
                        cancel,
                        handles,
                        turns,
                    )
                    &&& jobs.last()@ == course.after(turns).job
                    &&& Self::same_gear(&jobs.last(), final(self))
                    &&& #[trigger] timed(started, turns.len(), step)
                    &&& step is Paused || step is Yield ==> course.after(turns).job.announces(
                        final(service)@,
                        clock,
                        sink,
                        time,
                        final(self)@,
                    )
                },
    {
        let ghost start = self.course(service, index, pools, pool, scheduler, gone);
        let ghost mut turns: Seq<Turn> = Seq::empty();
        let ghost mut jobs: Seq<Self> = seq![*self];
        let started = clock::begin();
        let mut done: usize = 0;
        loop
            invariant
                done < STEP_TURNS,
                turns.len() == done,
                clock::is_now(started),
                done > 0 ==> clock::spent(&started, false),
                service.wf(),
                service.backed(pool),
                index.wf(),
                index.backed(pools),
                index.same_holds(old(index)),
                pools.background@ == old(pools).background@,
                scheduler.wf(),
                scheduler.budget() == old(scheduler).budget(),
                start.passes(turns),
                start.after(turns) == self.course(service, index, pools, pool, scheduler, gone),
                jobs[0] == *old(self),
                jobs.len() > 0,
                jobs.last() == *self,
                Self::made(jobs, start, cancel, handles, turns),
                start == old(self).course(
                    old(service),
                    old(index),
                    old(pools),
                    old(pool),
                    old(scheduler),
                    old(gone),
                ),
            decreases STEP_TURNS - done,
        {
            let ghost now = self.course(service, index, pools, pool, scheduler, gone);
            let ghost before = *self;
            let next = self.turn(
                done,
                &started,
                cancel,
                handles,
                service,
                index,
                pools,
                pool,
                scheduler,
                gone,
            );
            let ghost after = self.course(service, index, pools, pool, scheduler, gone);
            let ghost last = *self;
            proof {
                let (turn, verdict) = choose|turn: Turn, verdict: Option<JobStep>|
                    {
                        &&& #[trigger] now.turns_to(turn, after, verdict)
                        &&& Self::makes(
                            &before,
                            cancel,
                            handles,
                            turn,
                            now.look(turn.stop) is None,
                            &last,
                        )
                        &&& verdict != Some(JobStep::Yield)
                        &&& next == move_after(Move::Accept, verdict, next is Look)
                    };
                assert(turns.push(turn).drop_last() =~= turns);
                Self::lemma_made_more(jobs, start, cancel, handles, turns, turn, last);
                turns = turns.push(turn);
                jobs = jobs.push(last);
            }
            match next {
                Move::Look => {
                    done = done + 1;
                },
                Move::Publish(step) => {
                    self.publish(service, clock, sink);
                    proof {
                        let end = self.course(service, index, pools, pool, scheduler, gone);
                        let time = choose|time: TimeView| #[trigger]
                            after.job.announces(service@, clock, sink, time, self@);
                        assert(end =~= after.published(time.monotonic_ms));
                        assert(start.steps_to(turns, time.monotonic_ms, end, step));
                        assert(timed(started, turns.len(), step));
                    }
                    return step;
                },
                Move::Over(step) => {
                    proof {
                        let time = arbitrary::<TimeView>();
                        assert(start.steps_to(turns, time.monotonic_ms, after, step));
                        assert(timed(started, turns.len(), step));
                    }
                    return step;
                },
                _ => {
                    assert(false);
                    return JobStep::Failed;
                },
            }
        }
    }

    /// Ends the listing as the task ended, and offers the end.
    pub fn stopped<C: Clock + ?Sized, E: EventSink + ?Sized>(
        &mut self,
        status: Status,
        clock: &C,
        sink: &E,
        service: &mut ListingService,
    )
        requires
            old(service).wf(),
        ensures
            final(service).wf(),
            final(service).hold() == old(service).hold(),
            forall|pool: &ByteBudget| old(service).backed(pool) ==> final(service).backed(pool),
            final(service)@ == old(service)@.finished(
                old(self)@.tally.task,
                outcome(status).0,
                outcome(status).1,
            ),
            exists|time: TimeView| #[trigger]
                old(self)@.announces(final(service)@, clock, sink, time, final(self)@),
    {
        let (phase, error) = outcome_of(status);
        let _actual = service.finish(self.tally.task.as_str(), phase, error);
        self.publish(service, clock, sink);
    }
}

/// Nothing is read for a listing that has enough: its task parks, unless a stop was asked for, and
/// neither opens its directory nor touches the index or any listing.
pub proof fn reading_follows_demand<J>(
    course: Course<J>,
    turn: Turn,
    end: Course<J>,
    verdict: Option<JobStep>,
)
    requires
        course.turns_to(turn, end, verdict),
        course.desk.service.demand(course.job.tally.task) == Ok::<bool, CacheError>(false),
    ensures
        end.job == course.job,
        end.shelf == course.shelf,
        end.pool == course.pool,
        !turn.stop ==> verdict == Some(JobStep::Paused) && end == course,
{
    reveal(Course::turned);
}

/// What a source gives after a stop was asked for is not taken: the listing ends as cancelled with
/// what it has, and the index is left alone.
pub proof fn a_stopped_turn_takes_nothing<J>(
    course: Course<J>,
    turn: Turn,
    end: Course<J>,
    verdict: Option<JobStep>,
)
    requires
        course.turns_to(turn, end, verdict),
        turn.stop || course.look(false) is None && turn.reading is Stopped,
    ensures
        end.shelf == course.shelf,
        end.pool == course.pool,
        end.job.tally == course.job.tally,
        end.desk == course.desk.finished(course.job.tally.task, Phase::Cancelled, None),
        verdict == Some(JobStep::Completed),
{
    reveal(Course::turned);
}

/// A directory is opened once: a task whose directory is open stays open and is never refused a
/// handle.
pub proof fn a_listing_is_opened_once<J>(
    course: Course<J>,
    turn: Turn,
    end: Course<J>,
    verdict: Option<JobStep>,
)
    requires
        course.turns_to(turn, end, verdict),
        course.job.open,
    ensures
        end.job.open,
        course.look(turn.stop) is None ==> !(turn.reading is NoHandle || turn.reading is Unopened),
{
    reveal(Course::turned);
    reveal(Course::allows);
}

} // verus!
