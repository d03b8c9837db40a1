//! Two fixed application-wide lanes of work. What runs, waits or is parked is decided here;
//! whoever owns the scheduler runs the jobs that it hands out.
use std::collections::HashMap;

use vstd::prelude::*;

use crate::domain::controller::{Cancellation, Scope, ScopeView};
use crate::domain::model::Value;
use crate::text;
use crate::text::{same_text, side_of, Side};

pub mod books;
pub mod handles;
pub mod laws;

pub use crate::scheduler::handles::{HandleBudget, HandlePermit, Handles};

verus! {

broadcast use {vstd::std_specs::hash::group_hash_axioms, vstd::set::group_set_axioms};

/// Which worker a job runs on.
#[derive(Debug, Clone, Copy, PartialEq, Eq, Structural)]
pub enum Lane {
    Foreground,
    Background,
}

/// What became of one step of a job.
#[derive(Debug, Clone, Copy, PartialEq, Eq, Structural)]
pub enum JobStep {
    Yield,
    Paused,
    Completed,
    Failed,
    ResourceLimit,
}

/// Where a task stands.
#[derive(Debug, Clone, Copy, PartialEq, Eq, Structural)]
pub enum Status {
    Queued,
    Running,
    Paused,
    Completed,
    Cancelled,
    Failed,
    ResourceLimit,
}

impl Status {
    /// A task that came to its end.
    pub open spec fn is_terminal(self) -> bool {
        self is Completed || self is Cancelled || self is Failed || self is ResourceLimit
    }

    /// Whether the task came to its end.
    pub fn terminal(self) -> (terminal: bool)
        ensures
            terminal == self.is_terminal(),
    {
        match self {
            Status::Completed | Status::Cancelled | Status::Failed | Status::ResourceLimit => true,
            _ => false,
        }
    }
}

/// What a task waits for.
#[derive(Debug, Clone, Copy, PartialEq, Eq, Structural)]
pub enum Wait {
    Slot,
    Draining,
    PageDemand,
}

/// Why a request was refused.
#[derive(Debug, Clone, Copy, PartialEq, Eq, Structural)]
pub enum SubmitError {
    ResourceLimit,
    Duplicate,
    Closed,
    Missing,
}

/// Work that is done in steps. A job may say more of its steps than that they are its own.
pub trait Job {
    type Handles;

    /// Whether a step of the job as it is can come to this.
    open spec fn can_step(
        &self,
        cancel: &Cancellation,
        handles: &Self::Handles,
        step: JobStep,
    ) -> bool {
        true
    }

    fn step(&mut self, cancel: &Cancellation, handles: &Self::Handles) -> (step: JobStep)
        ensures
            old(self).can_step(cancel, handles, step),
    ;

    /// Runs once after retirement. No new I/O.
    fn stopped(&mut self, status: Status);
}

/// What a submitted task is known by.
pub struct Ticket {
    id: String,
    scope: Scope,
    cancel: Cancellation,
    serial: u64,
}

/// A task's id, its scope, the token that asks it to stop, and its number among all tasks of one
/// scheduler.
#[verifier::ext_equal]
pub struct TicketView {
    pub id: Seq<char>,
    pub scope: ScopeView,
    pub token: Cancellation,
    pub serial: u64,
}

impl View for Ticket {
    type V = TicketView;

    closed spec fn view(&self) -> TicketView {
        TicketView {
            id: self.id@,
            scope: self.scope@,
            token: self.cancel,
            serial: self.serial,
        }
    }
}

impl Clone for Ticket {
    fn clone(&self) -> (other: Self)
        ensures
            other@ == self@,
    {
        Ticket {
            id: self.id.clone(),
            scope: self.scope.copy(),
            cancel: self.cancel.clone(),
            serial: self.serial,
        }
    }
}

impl Ticket {
    /// The id that the task was submitted under.
    pub fn id(&self) -> (id: &str)
        ensures
            id@ == self@.id,
    {
        self.id.as_str()
    }

    /// Where the task stands, as long as the scheduler remembers it.
    pub fn status<J>(&self, scheduler: &Scheduler<J>) -> (status: Option<Status>)
        ensures
            status == scheduler@.status(self@.serial),
    {
        scheduler.status_of(self.serial)
    }
}

/// A task that waits, or that was handed out to run.
pub struct Pending<J> {
    ticket: Ticket,
    lane: Lane,
    pub job: J,
}

/// A task, its lane and its job.
#[verifier::ext_equal]
pub struct PendingView<J> {
    pub ticket: TicketView,
    pub lane: Lane,
    pub job: J,
}

impl<J> View for Pending<J> {
    type V = PendingView<J>;

    closed spec fn view(&self) -> PendingView<J> {
        PendingView { ticket: self.ticket@, lane: self.lane, job: self.job }
    }
}

impl<J> Pending<J> {
    /// The task's ticket.
    pub fn ticket(&self) -> (ticket: &Ticket)
        ensures
            ticket@ == self@.ticket,
    {
        &self.ticket
    }
}

impl<J: Job> Pending<J> {
    /// Whether this is an answer that the task's token tells.
    pub open spec fn tells(&self, answer: bool) -> bool {
        self@.ticket.token.tells(answer)
    }

    /// Whether a step of the job, with the task's token, can come to this.
    pub open spec fn can_step(&self, handles: &J::Handles, step: JobStep) -> bool {
        self@.job.can_step(&self@.ticket.token, handles, step)
    }

    /// One step of the job, unless a stop was asked for.
    pub fn advance(&mut self, handles: &J::Handles) -> (step: JobStep)
        ensures
            final(self)@.ticket == old(self)@.ticket,
            final(self)@.lane == old(self)@.lane,
            ({
                ||| {
                    &&& old(self).tells(true)
                    &&& step is Completed
                    &&& final(self)@ == old(self)@
                }
                ||| old(self).tells(false) && old(self).can_step(handles, step)
            }),
    {
        if self.ticket.cancel.is_cancelled() {
            JobStep::Completed
        } else {
            self.job.step(&self.ticket.cancel, handles)
        }
    }
}

/// What the scheduler remembers of a task.
#[derive(Debug, Clone, Copy, PartialEq, Eq, Structural)]
pub struct TaskRecord {
    pub status: Status,
    pub cancelled: bool,
    pub woken: bool,
}

/// What a new task brings: the token that was made for it, and its job.
#[verifier::ext_equal]
pub struct Seat<J> {
    pub token: Cancellation,
    pub job: J,
}

/// The waiting tasks by what they show.
pub open spec fn waiting<J>(queue: Seq<Pending<J>>) -> Seq<PendingView<J>> {
    Seq::new(queue.len(), |i: int| queue[i]@)
}

/// Whether all of some tasks were asked to stop.
pub open spec fn all_asked<J>(tasks: Seq<PendingView<J>>) -> bool {
    forall|i: int| 0 <= i < tasks.len() ==> (#[trigger] tasks[i]).ticket.token.asked()
}

/// The tickets of waiting tasks.
pub open spec fn tickets_of<J>(queue: Seq<PendingView<J>>) -> Seq<TicketView> {
    Seq::new(queue.len(), |i: int| queue[i].ticket)
}

/// Whether a waiting task has this id.
pub open spec fn has_id<J>(queue: Seq<PendingView<J>>, id: Seq<char>) -> bool {
    exists|i: int| 0 <= i < queue.len() && (#[trigger] queue[i]).ticket.id == id
}

/// The tasks of a scope, in order.
pub open spec fn of_scope<J>(queue: Seq<PendingView<J>>, scope: ScopeView) -> Seq<PendingView<J>>
    decreases queue.len(),
{
    if queue.len() == 0 {
        queue
    } else {
        let head = of_scope(queue.drop_last(), scope);
        if queue.last().ticket.scope == scope {
            head.push(queue.last())
        } else {
            head
        }
    }
}

/// The tasks of all other scopes, in order.
pub open spec fn beside_scope<J>(
    queue: Seq<PendingView<J>>,
    scope: ScopeView,
) -> Seq<PendingView<J>>
    decreases queue.len(),
{
    if queue.len() == 0 {
        queue
    } else {
        let head = beside_scope(queue.drop_last(), scope);
        if queue.last().ticket.scope == scope {
            head
        } else {
            head.push(queue.last())
        }
    }
}

/// A task put among parked ones, which stand in the order of their ids.
pub open spec fn sorted_in<J>(
    parked: Seq<PendingView<J>>,
    task: PendingView<J>,
) -> Seq<PendingView<J>>
    decreases parked.len(),
{
    if parked.len() == 0 || text::text_before(parked.last().ticket.id, task.ticket.id) {
        parked.push(task)
    } else {
        sorted_in(parked.drop_last(), task).push(parked.last())
    }
}

/// The first waiting task with this id.
pub open spec fn place_of<J>(queue: Seq<PendingView<J>>, id: Seq<char>) -> Option<int>
    decreases queue.len(),
{
    if queue.len() == 0 {
        None
    } else {
        match place_of(queue.drop_last(), id) {
            Some(at) => Some(at),
            None => if queue.last().ticket.id == id {
                Some(queue.len() - 1)
            } else {
                None
            },
        }
    }
}

/// The first task with this serial.
pub open spec fn seat_of<J>(queue: Seq<PendingView<J>>, serial: u64) -> Option<int>
    decreases queue.len(),
{
    if queue.len() == 0 {
        None
    } else {
        match seat_of(queue.drop_last(), serial) {
            Some(at) => Some(at),
            None => if queue.last().ticket.serial == serial {
                Some(queue.len() - 1)
            } else {
                None
            },
        }
    }
}

/// The record of every listed task, now cancelled.
pub open spec fn all_cancelled<J>(
    records: Map<u64, TaskRecord>,
    tasks: Seq<PendingView<J>>,
) -> Map<u64, TaskRecord>
    decreases tasks.len(),
{
    if tasks.len() == 0 {
        records
    } else {
        let head = all_cancelled(records, tasks.drop_last());
        let serial = tasks.last().ticket.serial;
        head.insert(
            serial,
            TaskRecord { status: Status::Cancelled, cancelled: true, ..head[serial] },
        )
    }
}

/// What a scheduler holds.
#[verifier::ext_equal]
pub struct SchedulerView<J> {
    pub foreground: Seq<PendingView<J>>,
    pub background: Seq<PendingView<J>>,
    pub active_foreground: Option<TicketView>,
    pub active_background: Option<TicketView>,
    /// The parked tasks, in the order of their ids.
    pub parked: Seq<PendingView<J>>,
    pub closed: bool,
    pub queue_limit: nat,
    pub parked_limit: nat,
    pub records: Map<u64, TaskRecord>,
    pub next: u64,
}

/// What follows when a step of a job is over: the scheduler, the task that is done with, and the
/// one to run next.
#[verifier::ext_equal]
pub struct SettledView<J> {
    pub scheduler: SchedulerView<J>,
    pub retired: Option<PendingView<J>>,
    pub next: Option<PendingView<J>>,
}

/// The ticket of an active task, if there is one.
pub open spec fn one(active: Option<TicketView>) -> Seq<TicketView> {
    match active {
        Some(ticket) => seq![ticket],
        None => Seq::empty(),
    }
}

impl<J> SchedulerView<J> {
    /// The waiting tasks of a lane.
    pub open spec fn queue(self, lane: Lane) -> Seq<PendingView<J>> {
        match lane {
            Lane::Foreground => self.foreground,
            Lane::Background => self.background,
        }
    }

    /// The same with other waiting tasks in a lane.
    pub open spec fn with_queue(self, lane: Lane, queue: Seq<PendingView<J>>) -> SchedulerView<J> {
        match lane {
            Lane::Foreground => SchedulerView { foreground: queue, ..self },
            Lane::Background => SchedulerView { background: queue, ..self },
        }
    }

    /// The task that a lane runs.
    pub open spec fn active(self, lane: Lane) -> Option<TicketView> {
        match lane {
            Lane::Foreground => self.active_foreground,
            Lane::Background => self.active_background,
        }
    }

    /// The same with another task running in a lane.
    pub open spec fn with_active(self, lane: Lane, ticket: Option<TicketView>) -> SchedulerView<J> {
        match lane {
            Lane::Foreground => SchedulerView { active_foreground: ticket, ..self },
            Lane::Background => SchedulerView { active_background: ticket, ..self },
        }
    }

    /// How many tasks wait for a worker.
    pub open spec fn queued(self) -> nat {
        self.foreground.len() + self.background.len()
    }

    /// Where a task stands, if it is remembered.
    pub open spec fn status(self, serial: u64) -> Option<Status> {
        if self.records.contains_key(serial) {
            Some(self.records[serial].status)
        } else {
            None
        }
    }

    /// Whether a lane runs a task with this id.
    pub open spec fn runs(self, lane: Lane, id: Seq<char>) -> bool {
        self.active(lane) is Some && self.active(lane)->0.id == id
    }

    /// Whether a task with this id runs, waits or is parked.
    pub open spec fn is_live(self, id: Seq<char>) -> bool {
        ||| self.runs(Lane::Foreground, id)
        ||| self.runs(Lane::Background, id)
        ||| has_id(self.parked, id)
        ||| has_id(self.foreground, id)
        ||| has_id(self.background, id)
    }

    /// The same with a task recorded otherwise.
    pub open spec fn recorded(self, serial: u64, record: TaskRecord) -> SchedulerView<J> {
        SchedulerView { records: self.records.insert(serial, record), ..self }
    }

    /// The same with a task in another status.
    pub open spec fn marked(self, serial: u64, status: Status) -> SchedulerView<J> {
        self.recorded(serial, TaskRecord { status, ..self.records[serial] })
    }

    /// The same with a stop asked for.
    pub open spec fn signalled(self, serial: u64) -> SchedulerView<J> {
        self.recorded(serial, TaskRecord { cancelled: true, ..self.records[serial] })
    }

    /// The tickets of the tasks that wait in the foreground, wait in the background, are parked,
    /// run in the foreground or run in the background.
    pub open spec fn part(self, p: int) -> Seq<TicketView> {
        if p == 0 {
            tickets_of(self.foreground)
        } else if p == 1 {
            tickets_of(self.background)
        } else if p == 2 {
            tickets_of(self.parked)
        } else if p == 3 {
            one(self.active_foreground)
        } else {
            one(self.active_background)
        }
    }

    /// Whether a task stands at place `i` of part `p`.
    pub open spec fn place(self, p: int, i: int) -> bool {
        0 <= p < 5 && 0 <= i < self.part(p).len()
    }

    /// No two live tasks share an id or a serial.
    pub open spec fn all_differ(self) -> bool {
        forall|p: int, i: int, q: int, j: int|
            self.place(p, i) && self.place(q, j) && (p != q || i != j) ==> (
            #[trigger] self.part(p)[i]).id != (#[trigger] self.part(q)[j]).id
                && self.part(p)[i].serial != self.part(q)[j].serial
    }

    /// Whether the task at a place is recorded as what it is.
    pub open spec fn agrees(self, p: int, i: int) -> bool {
        let serial = self.part(p)[i].serial;
        &&& self.records.contains_key(serial)
        &&& self.records[serial].status == (if p < 2 {
            Status::Queued
        } else if p == 2 {
            Status::Paused
        } else {
            Status::Running
        })
        &&& p <= 2 ==> !self.records[serial].cancelled
    }

    /// Every live task is recorded as what it is, every waiting task is in its lane, and serials
    /// that were not given yet are not recorded.
    pub open spec fn in_order(self) -> bool {
        &&& forall|p: int, i: int| self.place(p, i) ==> #[trigger] self.agrees(p, i)
        &&& forall|lane: Lane, i: int|
            0 <= i < self.queue(lane).len() ==> (#[trigger] self.queue(lane)[i]).lane == lane
        &&& forall|serial: u64| #[trigger] self.records.contains_key(serial) ==> serial < self.next
    }

    /// Within the limits, no two live tasks share an id, and every live task is recorded as what
    /// it is.
    pub open spec fn wf(self) -> bool {
        &&& self.queued() <= self.queue_limit
        &&& self.parked.len() <= self.parked_limit
        &&& self.all_differ()
        &&& self.in_order()
    }

    /// Why a task with this id is not accepted.
    pub open spec fn refusal(self, id: Seq<char>) -> Option<SubmitError> {
        if self.closed {
            Some(SubmitError::Closed)
        } else if self.queued() >= self.queue_limit {
            Some(SubmitError::ResourceLimit)
        } else if self.is_live(id) {
            Some(SubmitError::Duplicate)
        } else {
            None
        }
    }

    /// The same with one more task at the end of a lane.
    pub open spec fn submitted(
        self,
        id: Seq<char>,
        scope: ScopeView,
        token: Cancellation,
        lane: Lane,
        job: J,
    ) -> SchedulerView<J> {
        let ticket = TicketView { id, scope, token, serial: self.next };
        SchedulerView {
            next: (self.next + 1) as u64,
            ..self.with_queue(lane, self.queue(lane).push(PendingView { ticket, lane, job }))
        }.recorded(
            self.next,
            TaskRecord { status: Status::Queued, cancelled: false, woken: false },
        )
    }

    /// The answer to a demand for more of a task.
    pub open spec fn resume_answer(self, id: Seq<char>) -> Result<(), SubmitError> {
        if self.closed {
            Err(SubmitError::Closed)
        } else if self.runs(Lane::Foreground, id) || self.runs(Lane::Background, id) || has_id(
            self.foreground,
            id,
        ) || has_id(self.background, id) {
            Ok(())
        } else if self.queued() >= self.queue_limit {
            Err(SubmitError::ResourceLimit)
        } else if place_of(self.parked, id) is None {
            Err(SubmitError::Missing)
        } else {
            Ok(())
        }
    }

    /// The same with a demand for more of the task that a lane runs.
    pub open spec fn woken(self, lane: Lane) -> SchedulerView<J> {
        let serial = self.active(lane)->0.serial;
        self.recorded(serial, TaskRecord { woken: true, ..self.records[serial] })
    }

    /// The same with a parked task at the end of its lane.
    pub open spec fn unparked(self, at: int) -> SchedulerView<J> {
        let task = self.parked[at];
        SchedulerView {
            parked: self.parked.remove(at),
            ..self.with_queue(task.lane, self.queue(task.lane).push(task))
        }.marked(task.ticket.serial, Status::Queued)
    }

    /// The scheduler after a demand for more of a task. What runs is told, what is parked goes
    /// to the end of its lane.
    pub open spec fn resumed(self, id: Seq<char>) -> SchedulerView<J> {
        if self.closed {
            self
        } else if self.runs(Lane::Foreground, id) {
            self.woken(Lane::Foreground)
        } else if self.runs(Lane::Background, id) {
            self.woken(Lane::Background)
        } else if has_id(self.foreground, id) || has_id(self.background, id) {
            self
        } else if self.queued() >= self.queue_limit || place_of(self.parked, id) is None {
            self
        } else {
            self.unparked(place_of(self.parked, id)->0)
        }
    }

    /// Whether a task is remembered and not at its end.
    pub open spec fn unfinished(self, serial: u64) -> bool {
        self.records.contains_key(serial) && !self.records[serial].status.is_terminal()
    }

    /// The task that a cancellation takes out of its queue or its parking place.
    pub open spec fn withdrawn(self, serial: u64) -> Option<PendingView<J>> {
        if !self.unfinished(serial) {
            None
        } else if seat_of(self.foreground, serial) is Some {
            Some(self.foreground[seat_of(self.foreground, serial)->0])
        } else if seat_of(self.background, serial) is Some {
            Some(self.background[seat_of(self.background, serial)->0])
        } else if seat_of(self.parked, serial) is Some {
            Some(self.parked[seat_of(self.parked, serial)->0])
        } else {
            None
        }
    }

    /// The scheduler after a cancellation. A task that waits or is parked is taken out; one that
    /// runs is told to stop.
    pub open spec fn without_task(self, serial: u64) -> SchedulerView<J> {
        let gone = TaskRecord {
            status: Status::Cancelled,
            cancelled: true,
            ..self.records[serial]
        };
        if !self.unfinished(serial) {
            self
        } else if seat_of(self.foreground, serial) is Some {
            SchedulerView {
                foreground: self.foreground.remove(seat_of(self.foreground, serial)->0),
                ..self
            }.recorded(serial, gone)
        } else if seat_of(self.background, serial) is Some {
            SchedulerView {
                background: self.background.remove(seat_of(self.background, serial)->0),
                ..self
            }.recorded(serial, gone)
        } else if seat_of(self.parked, serial) is Some {
            SchedulerView {
                parked: self.parked.remove(seat_of(self.parked, serial)->0),
                ..self
            }.recorded(serial, gone)
        } else {
            self.signalled(serial)
        }
    }

    /// The same with the running tasks of a scope told to stop.
    pub open spec fn told(self, lane: Lane, scope: ScopeView) -> SchedulerView<J> {
        if self.active(lane) is Some && self.active(lane)->0.scope == scope {
            self.signalled(self.active(lane)->0.serial)
        } else {
            self
        }
    }

    /// The waiting and parked tasks of a scope.
    pub open spec fn members(self, scope: ScopeView) -> Seq<PendingView<J>> {
        of_scope(self.foreground, scope) + of_scope(self.background, scope) + of_scope(
            self.parked,
            scope,
        )
    }

    /// The scheduler after a whole scope was cancelled.
    pub open spec fn without_scope(self, scope: ScopeView) -> SchedulerView<J> {
        let told = self.told(Lane::Foreground, scope).told(Lane::Background, scope);
        SchedulerView {
            foreground: beside_scope(self.foreground, scope),
            background: beside_scope(self.background, scope),
            parked: beside_scope(self.parked, scope),
            records: all_cancelled(told.records, self.members(scope)),
            ..told
        }
    }

    /// The same with the running task of a lane told to stop.
    pub open spec fn stopping(self, lane: Lane) -> SchedulerView<J> {
        if self.active(lane) is Some {
            self.signalled(self.active(lane)->0.serial)
        } else {
            self
        }
    }

    /// All waiting and parked tasks.
    pub open spec fn everyone(self) -> Seq<PendingView<J>> {
        self.foreground + self.background + self.parked
    }

    /// The scheduler after its shutdown.
    pub open spec fn shut(self) -> SchedulerView<J> {
        let told = self.stopping(Lane::Foreground).stopping(Lane::Background);
        SchedulerView {
            foreground: Seq::empty(),
            background: Seq::empty(),
            parked: Seq::empty(),
            closed: true,
            records: all_cancelled(told.records, self.everyone()),
            ..told
        }
    }

    /// The lane in which a task with this id waits.
    pub open spec fn lane_of(self, id: Seq<char>) -> Option<Lane> {
        if has_id(self.foreground, id) {
            Some(Lane::Foreground)
        } else if has_id(self.background, id) {
            Some(Lane::Background)
        } else {
            None
        }
    }

    /// Whether a stop was asked for of the task that a lane runs, by the books or by what its
    /// token told.
    pub open spec fn drains(self, lane: Lane, told: bool) -> bool {
        self.active(lane) is Some && (told || self.records.contains_key(
            self.active(lane)->0.serial,
        ) && self.records[self.active(lane)->0.serial].cancelled)
    }

    /// Whether this is an answer of the token that decides what a task waits for: its own while
    /// it runs, and while it waits that of the task which its lane runs. Where there is none,
    /// nothing was told.
    pub open spec fn told_by(self, ticket: TicketView, told: bool) -> bool {
        match self.status(ticket.serial) {
            Some(Status::Running) => ticket.token.tells(told),
            Some(Status::Queued) => match self.lane_of(ticket.id) {
                Some(lane) => match self.active(lane) {
                    Some(active) => active.token.tells(told),
                    None => !told,
                },
                None => !told,
            },
            _ => !told,
        }
    }

    /// What a task waits for, by what the token told that decides it.
    pub open spec fn wait_given(self, ticket: TicketView, told: bool) -> Option<Wait> {
        match self.status(ticket.serial) {
            Some(Status::Paused) => Some(Wait::PageDemand),
            Some(Status::Running) => if told || self.records[ticket.serial].cancelled {
                Some(Wait::Draining)
            } else {
                None
            },
            Some(Status::Queued) => match self.lane_of(ticket.id) {
                Some(lane) => if self.drains(lane, told) {
                    Some(Wait::Draining)
                } else {
                    Some(Wait::Slot)
                },
                None => None,
            },
            _ => None,
        }
    }

    /// The scheduler after a lane took its first waiting task to run it.
    pub open spec fn taken(self, lane: Lane) -> SchedulerView<J> {
        let task = self.queue(lane)[0];
        self.with_queue(lane, self.queue(lane).drop_first()).with_active(
            lane,
            Some(task.ticket),
        ).marked(task.ticket.serial, Status::Running)
    }

    /// The scheduler after the task that a lane ran came to its end.
    pub open spec fn ended(self, lane: Lane, task: PendingView<J>, status: Status) -> SettledView<
        J,
    > {
        SettledView {
            scheduler: self.with_active(lane, None).marked(task.ticket.serial, status),
            retired: Some(task),
            next: None,
        }
    }

    /// The scheduler after the task that a lane ran was parked.
    pub open spec fn with_parked(self, lane: Lane, task: PendingView<J>) -> SchedulerView<J> {
        SchedulerView {
            parked: sorted_in(self.parked, task),
            ..self.with_active(lane, None)
        }.marked(task.ticket.serial, Status::Paused)
    }

    /// What follows when a step of the task that a lane runs is over. A task that yields goes to
    /// the end of its lane, and the lane goes on with the first one. A pause that was overtaken by
    /// a demand is a yield.
    pub open spec fn settled(
        self,
        lane: Lane,
        task: PendingView<J>,
        step: JobStep,
        signalled: bool,
    ) -> SettledView<J> {
        let serial = task.ticket.serial;
        let record = self.records[serial];
        if self.closed || record.cancelled || signalled {
            self.ended(lane, task, Status::Cancelled)
        } else {
            match step {
                JobStep::Completed => self.ended(lane, task, Status::Completed),
                JobStep::Failed => self.ended(lane, task, Status::Failed),
                JobStep::ResourceLimit => self.ended(lane, task, Status::ResourceLimit),
                JobStep::Paused => if record.woken {
                    self.recorded(serial, TaskRecord { woken: false, ..record }).rotated(lane, task)
                } else if self.parked.len() >= self.parked_limit {
                    self.ended(lane, task, Status::ResourceLimit)
                } else {
                    SettledView {
                        scheduler: self.with_parked(lane, task),
                        retired: None,
                        next: None,
                    }
                },
                JobStep::Yield => self.rotated(lane, task),
            }
        }
    }

    /// What follows when the task that a lane runs goes to the end of the lane.
    pub open spec fn rotated(self, lane: Lane, task: PendingView<J>) -> SettledView<J> {
        let waiting = self.with_queue(lane, self.queue(lane).push(task)).marked(
            task.ticket.serial,
            Status::Queued,
        );
        SettledView {
            scheduler: waiting.taken(lane),
            retired: None,
            next: Some(waiting.queue(lane)[0]),
        }
    }
}

/// The waiting, running and parked tasks of two lanes.
pub struct Scheduler<J> {
    foreground: Vec<Pending<J>>,
    background: Vec<Pending<J>>,
    active_foreground: Option<Ticket>,
    active_background: Option<Ticket>,
    parked: Vec<Pending<J>>,
    closed: bool,
    queue_limit: usize,
    parked_limit: usize,
    records: HashMap<u64, TaskRecord>,
    next: u64,
    handles: HandleBudget,
}

/// The ticket of an active task by what it shows.
spec fn shown(active: Option<Ticket>) -> Option<TicketView> {
    match active {
        Some(ticket) => Some(ticket@),
        None => None,
    }
}

impl<J> View for Scheduler<J> {
    type V = SchedulerView<J>;

    closed spec fn view(&self) -> SchedulerView<J> {
        SchedulerView {
            foreground: waiting(self.foreground@),
            background: waiting(self.background@),
            active_foreground: shown(self.active_foreground),
            active_background: shown(self.active_background),
            parked: waiting(self.parked@),
            closed: self.closed,
            queue_limit: self.queue_limit as nat,
            parked_limit: self.parked_limit as nat,
            records: self.records@,
            next: self.next,
        }
    }
}

impl<J> Scheduler<J> {
    /// The scheduler is in order, and so are its handles.
    pub open spec fn wf(&self) -> bool {
        self@.wf() && self.budget().wf()
    }

    /// The handles that its jobs share.
    pub closed spec fn budget(&self) -> HandleBudget {
        self.handles
    }

    /// A scheduler without tasks.
    pub fn new(queue_limit: usize, parked_limit: usize, handle_limit: usize) -> (scheduler: Self)
        ensures
            scheduler.wf(),
            scheduler@ == (SchedulerView::<J> {
                foreground: Seq::empty(),
                background: Seq::empty(),
                active_foreground: None,
                active_background: None,
                parked: Seq::empty(),
                closed: false,
                queue_limit: queue_limit as nat,
                parked_limit: parked_limit as nat,
                records: Map::empty(),
                next: 0,
            }),
            scheduler.budget()@ == (crate::runtime::memory::PoolView {
                limit: handle_limit as nat,
                used: 0,
                peak: 0,
                sizes: Seq::empty(),
            }),
    {
        let scheduler = Scheduler {
            foreground: Vec::new(),
            background: Vec::new(),
            active_foreground: None,
            active_background: None,
            parked: Vec::new(),
            closed: false,
            queue_limit,
            parked_limit,
            records: HashMap::new(),
            next: 0,
            handles: HandleBudget::new(handle_limit),
        };
        proof {
            assert(scheduler@.foreground =~= Seq::<PendingView<J>>::empty());
            assert(scheduler@.background =~= Seq::<PendingView<J>>::empty());
            assert(scheduler@.parked =~= Seq::<PendingView<J>>::empty());
        }
        scheduler
    }

    fn status_of(&self, serial: u64) -> (status: Option<Status>)
        ensures
            status == self@.status(serial),
    {
        match self.records.get(&serial) {
            Some(record) => Some(record.status),
            None => None,
        }
    }
}

/// The first task of a queue with this id.
fn find_id<J>(queue: &Vec<Pending<J>>, id: &str) -> (found: Option<usize>)
    ensures
        found is Some <==> has_id(waiting(queue@), id@),
        match found {
            Some(at) => place_of(waiting(queue@), id@) == Some(at as int) && at < queue@.len(),
            None => place_of(waiting(queue@), id@) is None,
        },
{
    let ghost all = waiting(queue@);
    let len: usize = queue.len();
    let mut i: usize = 0;
    assert(all.take(0) =~= Seq::<PendingView<J>>::empty());
    while i < len
        invariant
            i <= len,
            len == queue@.len(),
            all == waiting(queue@),
            all.len() == len,
            place_of(all.take(i as int), id@) is None,
            forall|j: int| 0 <= j < i ==> (#[trigger] all[j]).ticket.id != id@,
        decreases len - i,
    {
        assert(all.take(i + 1).drop_last() =~= all.take(i as int));
        assert(all.take(i + 1).last() == queue@[i as int]@);
        if same_text(queue[i].ticket.id.as_str(), id) {
            proof {
                assert(all[i as int].ticket.id == id@);
                lemma_place_found(all, id@, i as int);
            }
            return Some(i);
        }
        i = i + 1;
    }
    assert(all.take(len as int) =~= all);
    None
}

/// The place of an id is settled by the tasks up to it.
proof fn lemma_place_found<J>(queue: Seq<PendingView<J>>, id: Seq<char>, at: int)
    requires
        0 <= at < queue.len(),
        place_of(queue.take(at + 1), id) == Some(at),
    ensures
        place_of(queue, id) == Some(at),
    decreases queue.len(),
{
    if at + 1 == queue.len() {
        assert(queue.take(at + 1) =~= queue);
    } else {
        assert(queue.drop_last().take(at + 1) =~= queue.take(at + 1));
        lemma_place_found(queue.drop_last(), id, at);
    }
}

/// The first task of a queue with this serial.
fn find_serial<J>(queue: &Vec<Pending<J>>, serial: u64) -> (found: Option<usize>)
    ensures
        match found {
            Some(at) => seat_of(waiting(queue@), serial) == Some(at as int) && at < queue@.len(),
            None => seat_of(waiting(queue@), serial) is None,
        },
{
    let ghost all = waiting(queue@);
    let len: usize = queue.len();
    let mut i: usize = 0;
    assert(all.take(0) =~= Seq::<PendingView<J>>::empty());
    while i < len
        invariant
            i <= len,
            len == queue@.len(),
            all == waiting(queue@),
            all.len() == len,
            seat_of(all.take(i as int), serial) is None,
        decreases len - i,
    {
        assert(all.take(i + 1).drop_last() =~= all.take(i as int));
        assert(all.take(i + 1).last() == queue@[i as int]@);
        if queue[i].ticket.serial == serial {
            proof {
                lemma_seat_found(all, serial, i as int);
            }
            return Some(i);
        }
        i = i + 1;
    }
    assert(all.take(len as int) =~= all);
    None
}

/// The seat of a serial is settled by the tasks up to it.
proof fn lemma_seat_found<J>(queue: Seq<PendingView<J>>, serial: u64, at: int)
    requires
        0 <= at < queue.len(),
        seat_of(queue.take(at + 1), serial) == Some(at),
    ensures
        seat_of(queue, serial) == Some(at),
    decreases queue.len(),
{
    if at + 1 == queue.len() {
        assert(queue.take(at + 1) =~= queue);
    } else {
        assert(queue.drop_last().take(at + 1) =~= queue.take(at + 1));
        lemma_seat_found(queue.drop_last(), serial, at);
    }
}

/// Takes one task out of a queue.
fn take_at<J>(queue: &mut Vec<Pending<J>>, at: usize) -> (task: Pending<J>)
    requires
        at < old(queue)@.len(),
    ensures
        waiting(final(queue)@) == waiting(old(queue)@).remove(at as int),
        task@ == waiting(old(queue)@)[at as int],
        task == old(queue)@[at as int],
{
    let task = queue.remove(at);
    assert(waiting(queue@) =~= waiting(old(queue)@).remove(at as int));
    task
}

/// Puts one task at the end of a queue.
fn put_last<J>(queue: &mut Vec<Pending<J>>, task: Pending<J>)
    ensures
        waiting(final(queue)@) == waiting(old(queue)@).push(task@),
{
    queue.push(task);
    assert(waiting(queue@) =~= waiting(old(queue)@).push(task@));
}

impl<J> Scheduler<J> {
    /// The handles that the jobs share.
    pub fn handles(&self) -> (handles: &HandleBudget)
        ensures
            *handles == self.budget(),
    {
        &self.handles
    }

    /// The handles that the jobs share, for change.
    pub fn handles_mut(&mut self) -> (handles: &mut HandleBudget)
        ensures
            *handles == old(self).budget(),
            final(self).budget() == *final(handles),
            final(self)@ == old(self)@,
    {
        &mut self.handles
    }

    fn put(&mut self, lane: Lane, task: Pending<J>)
        ensures
            final(self)@ == old(self)@.with_queue(lane, old(self)@.queue(lane).push(task@)),
            final(self).budget() == old(self).budget(),
    {
        match lane {
            Lane::Foreground => put_last(&mut self.foreground, task),
            Lane::Background => put_last(&mut self.background, task),
        }
    }

    fn record(&mut self, serial: u64, record: TaskRecord)
        ensures
            final(self)@ == old(self)@.recorded(serial, record),
            final(self).budget() == old(self).budget(),
    {
        self.records.insert(serial, record);
    }

    /// What is recorded of a task, or a fresh record.
    fn record_of(&self, serial: u64) -> (record: TaskRecord)
        ensures
            self@.records.contains_key(serial) ==> record == self@.records[serial],
    {
        match self.records.get(&serial) {
            Some(record) => *record,
            None => TaskRecord { status: Status::Queued, cancelled: false, woken: false },
        }
    }

    fn runs_id(&self, lane: Lane, id: &str) -> (runs: bool)
        ensures
            runs == self@.runs(lane, id@),
    {
        let active = match lane {
            Lane::Foreground => &self.active_foreground,
            Lane::Background => &self.active_background,
        };
        match active {
            Some(ticket) => same_text(ticket.id.as_str(), id),
            None => false,
        }
    }

    fn active_serial(&self, lane: Lane) -> (serial: Option<u64>)
        ensures
            match serial {
                Some(serial) => self@.active(lane) is Some && self@.active(lane)->0.serial
                    == serial,
                None => self@.active(lane) is None,
            },
    {
        let active = match lane {
            Lane::Foreground => &self.active_foreground,
            Lane::Background => &self.active_background,
        };
        match active {
            Some(ticket) => Some(ticket.serial),
            None => None,
        }
    }

    fn set_active(&mut self, lane: Lane, ticket: Option<Ticket>)
        ensures
            final(self)@ == old(self)@.with_active(lane, shown(ticket)),
            final(self).budget() == old(self).budget(),
    {
        match lane {
            Lane::Foreground => {
                self.active_foreground = ticket;
            },
            Lane::Background => {
                self.active_background = ticket;
            },
        }
    }

    /// How many tasks wait for a worker. Two queues hold no more than memory does.
    fn waits(&self) -> (queued: u128)
        ensures
            queued == self@.queued(),
    {
        self.foreground.len() as u128 + self.background.len() as u128
    }

    /// Puts a task at the end of a lane, unless the scheduler is shut down, the lanes are full,
    /// or a task with the same id is live.
    pub fn submit(&mut self, id: String, scope: Scope, lane: Lane, job: J) -> (result: Result<
        Ticket,
        SubmitError,
    >)
        requires
            old(self).wf(),
            old(self)@.next < u64::MAX,
        ensures
            final(self).wf(),
            final(self).budget() == old(self).budget(),
            match result {
                Ok(ticket) => {
                    &&& old(self)@.refusal(id@) is None
                    &&& ticket@.token.is_new()
                    &&& ticket@ == (TicketView {
                        id: id@,
                        scope: scope@,
                        token: ticket@.token,
                        serial: old(self)@.next,
                    })
                    &&& final(self)@ == old(self)@.submitted(
                        id@,
                        scope@,
                        ticket@.token,
                        lane,
                        job,
                    )
                },
                Err(error) => old(self)@.refusal(id@) == Some(error) && final(self)@ == old(self)@,
            },
    {
        if self.closed {
            return Err(SubmitError::Closed);
        }
        if self.waits() >= self.queue_limit as u128 {
            return Err(SubmitError::ResourceLimit);
        }
        if self.runs_id(Lane::Foreground, id.as_str()) || self.runs_id(
            Lane::Background,
            id.as_str(),
        ) || find_id(&self.parked, id.as_str()).is_some() || find_id(
            &self.foreground,
            id.as_str(),
        ).is_some() || find_id(&self.background, id.as_str()).is_some() {
            return Err(SubmitError::Duplicate);
        }
        let ghost before = self@;
        let serial: u64 = self.next;
        let ticket = Ticket { id, scope, cancel: Cancellation::default(), serial };
        let ghost shown_ticket = ticket@;
        proof {
            books::lemma_submitted(
                before,
                shown_ticket.id,
                shown_ticket.scope,
                shown_ticket.token,
                lane,
                job,
            );
        }
        let task = Pending { ticket: ticket.clone(), lane, job };
        self.next = serial + 1;
        self.put(lane, task);
        self.record(
            serial,
            TaskRecord { status: Status::Queued, cancelled: false, woken: false },
        );
        assert(self@ =~= before.submitted(
            shown_ticket.id,
            shown_ticket.scope,
            shown_ticket.token,
            lane,
            job,
        ));
        Ok(ticket)
    }

    /// A demand for more of a task. What is parked goes to the end of its lane. A demand for a
    /// task that runs is remembered, so that it is not lost when the task is about to pause.
    pub fn resume(&mut self, id: &str) -> (result: Result<(), SubmitError>)
        requires
            old(self).wf(),
        ensures
            final(self).wf(),
            final(self).budget() == old(self).budget(),
            result == old(self)@.resume_answer(id@),
            final(self)@ == old(self)@.resumed(id@),
    {
        let ghost before = self@;
        if self.closed {
            return Err(SubmitError::Closed);
        }
        if self.runs_id(Lane::Foreground, id) {
            self.wake(Lane::Foreground);
            return Ok(());
        }
        if self.runs_id(Lane::Background, id) {
            self.wake(Lane::Background);
            return Ok(());
        }
        if find_id(&self.foreground, id).is_some() || find_id(&self.background, id).is_some() {
            return Ok(());
        }
        if self.waits() >= self.queue_limit as u128 {
            return Err(SubmitError::ResourceLimit);
        }
        match find_id(&self.parked, id) {
            None => Err(SubmitError::Missing),
            Some(at) => {
                proof {
                    books::lemma_unparked(before, at as int);
                    assert(before.place(2, at as int));
                    assert(before.part(2)[at as int] == before.parked[at as int].ticket);
                    assert(before.agrees(2, at as int));
                }
                let task = take_at(&mut self.parked, at);
                let serial: u64 = task.ticket.serial;
                let lane = task.lane;
                let record = self.record_of(serial);
                self.put(lane, task);
                self.record(serial, TaskRecord { status: Status::Queued, ..record });
                assert(self@ =~= before.unparked(at as int));
                Ok(())
            },
        }
    }

    fn wake(&mut self, lane: Lane)
        requires
            old(self).wf(),
            old(self)@.active(lane) is Some,
        ensures
            final(self).wf(),
            final(self).budget() == old(self).budget(),
            final(self)@ == old(self)@.woken(lane),
    {
        let ghost before = self@;
        if let Some(serial) = self.active_serial(lane) {
            proof {
                let there = books::part_of(lane) + 3;
                assert(before.place(there, 0));
                assert(before.part(there)[0].serial == serial);
                assert(before.agrees(there, 0));
                books::lemma_noted(
                    before,
                    serial,
                    TaskRecord { woken: true, ..before.records[serial] },
                );
            }
            let record = self.record_of(serial);
            self.record(serial, TaskRecord { woken: true, ..record });
        }
    }

    /// Cancels one task. One that waits or is parked is taken out and handed back; one that runs
    /// is told to stop. The answer is whether the task had not come to its end.
    pub fn cancel_task(&mut self, ticket: &Ticket) -> (result: (bool, Option<Pending<J>>))
        requires
            old(self).wf(),
        ensures
            final(self).wf(),
            final(self).budget() == old(self).budget(),
            final(self)@ == old(self)@.without_task(ticket@.serial),
            result.0 == old(self)@.unfinished(ticket@.serial),
            result.0 ==> ticket@.token.asked(),
            match result.1 {
                Some(task) => old(self)@.withdrawn(ticket@.serial) == Some(task@),
                None => old(self)@.withdrawn(ticket@.serial) is None,
            },
    {
        let ghost before = self@;
        let serial: u64 = ticket.serial;
        match self.status_of(serial) {
            None => {
                return (false, None);
            },
            Some(status) => {
                if status.terminal() {
                    return (false, None);
                }
            },
        }
        proof {
            books::lemma_without_task(before, serial);
        }
        ticket.cancel.cancel();
        let record = self.record_of(serial);
        let gone = TaskRecord { status: Status::Cancelled, cancelled: true, ..record };
        if let Some(at) = find_serial(&self.foreground, serial) {
            let task = take_at(&mut self.foreground, at);
            self.record(serial, gone);
            assert(self@ =~= before.without_task(serial));
            return (true, Some(task));
        }
        if let Some(at) = find_serial(&self.background, serial) {
            let task = take_at(&mut self.background, at);
            self.record(serial, gone);
            assert(self@ =~= before.without_task(serial));
            return (true, Some(task));
        }
        if let Some(at) = find_serial(&self.parked, serial) {
            let task = take_at(&mut self.parked, at);
            self.record(serial, gone);
            assert(self@ =~= before.without_task(serial));
            return (true, Some(task));
        }
        self.record(serial, TaskRecord { cancelled: true, ..record });
        assert(self@ =~= before.without_task(serial));
        (true, None)
    }

    /// Tells the task that a lane runs to stop, when it belongs to the scope.
    fn tell(&mut self, lane: Lane, scope: &Scope)
        requires
            old(self)@.wf(),
        ensures
            final(self)@ == old(self)@.told(lane, scope@),
            final(self).budget() == old(self).budget(),
            old(self)@.active(lane) is Some && old(self)@.active(lane)->0.scope == scope@
                ==> old(self)@.active(lane)->0.token.asked(),
    {
        let ghost before = self@;
        let active = match lane {
            Lane::Foreground => &self.active_foreground,
            Lane::Background => &self.active_background,
        };
        if let Some(ticket) = active {
            if ticket.scope.same(scope) {
                ticket.cancel.cancel();
                let serial: u64 = ticket.serial;
                proof {
                    let there = books::part_of(lane) + 3;
                    assert(before.place(there, 0));
                    assert(before.part(there)[0].serial == serial);
                    assert(before.agrees(there, 0));
                }
                let record = self.record_of(serial);
                self.record(serial, TaskRecord { cancelled: true, ..record });
            }
        }
    }

    /// Records a task that was taken out as cancelled.
    fn note_gone(&mut self, task: &Pending<J>)
        requires
            old(self)@.records.contains_key(task@.ticket.serial),
        ensures
            final(self)@ == old(self)@.recorded(
                task@.ticket.serial,
                (TaskRecord {
                    status: Status::Cancelled,
                    cancelled: true,
                    ..old(self)@.records[task@.ticket.serial]
                }),
            ),
            final(self).budget() == old(self).budget(),
            task@.ticket.token.asked(),
    {
        task.ticket.cancel.cancel();
        let serial: u64 = task.ticket.serial;
        let record = self.record_of(serial);
        self.record(serial, TaskRecord { status: Status::Cancelled, cancelled: true, ..record });
    }
}

/// Parts a queue into the tasks of a scope and the others, both in order.
fn part<J>(queue: Vec<Pending<J>>, scope: &Scope) -> (parts: (Vec<Pending<J>>, Vec<Pending<J>>))
    ensures
        waiting(parts.0@) == of_scope(waiting(queue@), scope@),
        waiting(parts.1@) == beside_scope(waiting(queue@), scope@),
{
    let ghost all = waiting(queue@);
    let mut rest = queue;
    let mut inside: Vec<Pending<J>> = Vec::new();
    let mut outside: Vec<Pending<J>> = Vec::new();
    let ghost mut done: int = 0;
    assert(all.take(0) =~= Seq::<PendingView<J>>::empty());
    assert(waiting(inside@) =~= of_scope(all.take(0), scope@));
    assert(waiting(outside@) =~= beside_scope(all.take(0), scope@));
    assert(all.skip(0) =~= all);
    while rest.len() > 0
        invariant
            0 <= done <= all.len(),
            waiting(rest@) == all.skip(done),
            waiting(inside@) == of_scope(all.take(done), scope@),
            waiting(outside@) == beside_scope(all.take(done), scope@),
        decreases rest@.len(),
    {
        assert(waiting(rest@).len() == rest@.len());
        let task = take_at(&mut rest, 0);
        proof {
            assert(task@ == all[done]);
            assert(all.take(done + 1).drop_last() =~= all.take(done));
            assert(all.take(done + 1).last() == all[done]);
            assert(all.skip(done).remove(0) =~= all.skip(done + 1));
            done = done + 1;
        }
        if task.ticket.scope.same(scope) {
            put_last(&mut inside, task);
        } else {
            put_last(&mut outside, task);
        }
    }
    proof {
        assert(waiting(rest@).len() == 0);
        assert(done == all.len());
        assert(all.take(done) =~= all);
    }
    (inside, outside)
}

/// Appends the tasks of one list to another.
fn append<J>(to: &mut Vec<Pending<J>>, from: Vec<Pending<J>>)
    ensures
        waiting(final(to)@) == waiting(old(to)@) + waiting(from@),
{
    let mut from = from;
    let ghost tail = from@;
    to.append(&mut from);
    assert(waiting(to@) =~= waiting(old(to)@) + waiting(tail));
}

/// Every one of some live tasks is recorded, and stays so while others are cancelled.
proof fn lemma_recorded<J>(
    records: Map<u64, TaskRecord>,
    tasks: Seq<PendingView<J>>,
    serial: u64,
)
    requires
        records.contains_key(serial),
    ensures
        all_cancelled(records, tasks).contains_key(serial),
    decreases tasks.len(),
{
    if tasks.len() > 0 {
        lemma_recorded(records, tasks.drop_last(), serial);
    }
}

impl<J> Scheduler<J> {
    /// Records tasks that were taken out as cancelled.
    fn note_all_gone(&mut self, tasks: &Vec<Pending<J>>)
        requires
            forall|i: int|
                0 <= i < tasks@.len() ==> old(self)@.records.contains_key(
                    (#[trigger] tasks@[i])@.ticket.serial,
                ),
        ensures
            final(self)@ == (SchedulerView {
                records: all_cancelled(old(self)@.records, waiting(tasks@)),
                ..old(self)@
            }),
            final(self).budget() == old(self).budget(),
            all_asked(waiting(tasks@)),
    {
        let ghost before = self@;
        let ghost all = waiting(tasks@);
        let len: usize = tasks.len();
        let mut i: usize = 0;
        assert(all.take(0) =~= Seq::<PendingView<J>>::empty());
        while i < len
            invariant
                i <= len,
                len == tasks@.len(),
                all == waiting(tasks@),
                forall|j: int|
                    0 <= j < tasks@.len() ==> before.records.contains_key(
                        (#[trigger] tasks@[j])@.ticket.serial,
                    ),
                self@ == (SchedulerView {
                    records: all_cancelled(before.records, all.take(i as int)),
                    ..before
                }),
                self.budget() == old(self).budget(),
                forall|j: int| 0 <= j < i ==> (#[trigger] all[j]).ticket.token.asked(),
            decreases len - i,
        {
            proof {
                assert(all.take(i + 1).drop_last() =~= all.take(i as int));
                assert(all.take(i + 1).last() == tasks@[i as int]@);
                lemma_recorded(
                    before.records,
                    all.take(i as int),
                    tasks@[i as int]@.ticket.serial,
                );
            }
            self.note_gone(&tasks[i]);
            i = i + 1;
        }
        assert(all.take(len as int) =~= all);
    }

    /// Cancels every task of a scope. Those that wait or are parked are taken out and handed
    /// back; those that run are told to stop and keep their lane until they do.
    pub fn cancel_scope(&mut self, scope: &Scope) -> (retired: Vec<Pending<J>>)
        requires
            old(self).wf(),
        ensures
            final(self).wf(),
            final(self).budget() == old(self).budget(),
            final(self)@ == old(self)@.without_scope(scope@),
            waiting(retired@) == old(self)@.members(scope@),
            all_asked(old(self)@.members(scope@)),
            forall|lane: Lane|
                (#[trigger] old(self)@.active(lane)) is Some && old(self)@.active(lane)->0.scope
                    == scope@ ==> old(self)@.active(lane)->0.token.asked(),
    {
        let ghost before = self@;
        proof {
            books::lemma_without_scope(before, scope@);
        }
        self.tell(Lane::Foreground, scope);
        proof {
            if before.active(Lane::Foreground) is Some {
                books::lemma_signalled_active(before, Lane::Foreground);
            }
        }
        self.tell(Lane::Background, scope);
        let ghost told = self@;
        let mut foreground: Vec<Pending<J>> = Vec::new();
        let mut background: Vec<Pending<J>> = Vec::new();
        let mut parked: Vec<Pending<J>> = Vec::new();
        std::mem::swap(&mut foreground, &mut self.foreground);
        std::mem::swap(&mut background, &mut self.background);
        std::mem::swap(&mut parked, &mut self.parked);
        let (mut retired, keep) = part(foreground, scope);
        self.foreground = keep;
        let (gone, keep) = part(background, scope);
        self.background = keep;
        append(&mut retired, gone);
        let (gone, keep) = part(parked, scope);
        self.parked = keep;
        append(&mut retired, gone);
        proof {
            let members = before.members(scope@);
            assert(waiting(retired@) == members);
            assert(self@.records == told.records);
            assert forall|i: int| 0 <= i < retired@.len() implies told.records.contains_key(
                (#[trigger] retired@[i])@.ticket.serial,
            ) by {
                assert(members[i] == retired@[i]@);
                let place = books::lemma_member_place(before, scope@, i);
                assert(before.agrees(place.0, place.1));
            }
        }
        self.note_all_gone(&retired);
        assert(self@ =~= before.without_scope(scope@));
        retired
    }

    /// What a task waits for, by what its token tells now, or that of the task which it waits
    /// for.
    pub fn wait_reason(&self, ticket: &Ticket) -> (wait: Option<Wait>)
        ensures
            exists|told: bool|
                self@.told_by(ticket@, told) && wait == #[trigger] self@.wait_given(ticket@, told),
    {
        let told = self.hear(ticket);
        self.wait_given(ticket, told)
    }

    /// Asks the token that decides what a task waits for.
    fn hear(&self, ticket: &Ticket) -> (told: bool)
        ensures
            self@.told_by(ticket@, told),
    {
        match self.status_of(ticket.serial) {
            Some(Status::Running) => ticket.cancel.is_cancelled(),
            Some(Status::Queued) => {
                if find_id(&self.foreground, ticket.id.as_str()).is_some() {
                    self.hear_active(Lane::Foreground)
                } else if find_id(&self.background, ticket.id.as_str()).is_some() {
                    self.hear_active(Lane::Background)
                } else {
                    false
                }
            },
            _ => false,
        }
    }

    fn hear_active(&self, lane: Lane) -> (told: bool)
        ensures
            match self@.active(lane) {
                Some(active) => active.token.tells(told),
                None => !told,
            },
    {
        let active = match lane {
            Lane::Foreground => &self.active_foreground,
            Lane::Background => &self.active_background,
        };
        match active {
            Some(ticket) => ticket.cancel.is_cancelled(),
            None => false,
        }
    }

    /// What a task waits for, when it is known what the token told that decides it.
    pub fn wait_given(&self, ticket: &Ticket, told: bool) -> (wait: Option<Wait>)
        ensures
            wait == self@.wait_given(ticket@, told),
    {
        match self.status_of(ticket.serial) {
            Some(Status::Paused) => Some(Wait::PageDemand),
            Some(Status::Running) => {
                if told || self.record_of(ticket.serial).cancelled {
                    Some(Wait::Draining)
                } else {
                    None
                }
            },
            Some(Status::Queued) => {
                if find_id(&self.foreground, ticket.id.as_str()).is_some() {
                    Some(self.slot_wait(Lane::Foreground, told))
                } else if find_id(&self.background, ticket.id.as_str()).is_some() {
                    Some(self.slot_wait(Lane::Background, told))
                } else {
                    None
                }
            },
            _ => None,
        }
    }

    fn slot_wait(&self, lane: Lane, told: bool) -> (wait: Wait)
        ensures
            wait == (if self@.drains(lane, told) {
                Wait::Draining
            } else {
                Wait::Slot
            }),
    {
        match self.active_serial(lane) {
            Some(serial) => {
                if told || self.status_of(serial).is_some() && self.record_of(serial).cancelled {
                    Wait::Draining
                } else {
                    Wait::Slot
                }
            },
            None => Wait::Slot,
        }
    }

    /// How many tasks run, wait and are parked.
    pub fn counts(&self) -> (counts: (usize, usize, usize))
        requires
            self.wf(),
        ensures
            counts.0 == one(self@.active_foreground).len() + one(self@.active_background).len(),
            counts.1 == self@.queued(),
            counts.2 == self@.parked.len(),
    {
        let front: usize = if self.active_foreground.is_some() {
            1
        } else {
            0
        };
        let back: usize = if self.active_background.is_some() {
            1
        } else {
            0
        };
        assert(self@.queued() <= self.queue_limit);
        (front + back, self.foreground.len() + self.background.len(), self.parked.len())
    }

    /// Ends the work: nothing more is accepted, what runs is told to stop, and what waits or is
    /// parked is handed back.
    pub fn shutdown(&mut self) -> (retired: Vec<Pending<J>>)
        requires
            old(self).wf(),
        ensures
            final(self).wf(),
            final(self).budget() == old(self).budget(),
            final(self)@ == old(self)@.shut(),
            waiting(retired@) == old(self)@.everyone(),
            all_asked(old(self)@.everyone()),
            forall|lane: Lane|
                (#[trigger] old(self)@.active(lane)) is Some
                    ==> old(self)@.active(lane)->0.token.asked(),
    {
        let ghost before = self@;
        proof {
            books::lemma_shut(before);
            books::lemma_lane_recorded(before, Lane::Foreground);
            books::lemma_lane_recorded(before, Lane::Background);
        }
        self.closed = true;
        self.tell_to_stop(Lane::Foreground);
        proof {
            if before.active(Lane::Foreground) is Some {
                books::lemma_signalled_active(before, Lane::Foreground);
            }
        }
        self.tell_to_stop(Lane::Background);
        let ghost told = before.stopping(Lane::Foreground).stopping(Lane::Background);
        assert(self@.records == told.records);
        let mut retired: Vec<Pending<J>> = Vec::new();
        let mut background: Vec<Pending<J>> = Vec::new();
        let mut parked: Vec<Pending<J>> = Vec::new();
        std::mem::swap(&mut retired, &mut self.foreground);
        std::mem::swap(&mut background, &mut self.background);
        std::mem::swap(&mut parked, &mut self.parked);
        append(&mut retired, background);
        append(&mut retired, parked);
        proof {
            let everyone = before.everyone();
            assert(waiting(retired@) == everyone);
            assert forall|i: int| 0 <= i < retired@.len() implies told.records.contains_key(
                (#[trigger] retired@[i])@.ticket.serial,
            ) by {
                assert(everyone[i] == retired@[i]@);
                let place = books::lemma_everyone_place(before, i);
                assert(before.agrees(place.0, place.1));
            }
        }
        self.note_all_gone(&retired);
        proof {
            assert(self@.foreground =~= Seq::<PendingView<J>>::empty());
            assert(self@.background =~= Seq::<PendingView<J>>::empty());
            assert(self@.parked =~= Seq::<PendingView<J>>::empty());
            assert(self@ =~= before.shut());
        }
        retired
    }

    fn tell_to_stop(&mut self, lane: Lane)
        requires
            old(self)@.active(lane) is Some ==> old(self)@.records.contains_key(
                old(self)@.active(lane)->0.serial,
            ),
        ensures
            final(self)@ == old(self)@.stopping(lane),
            final(self).budget() == old(self).budget(),
            old(self)@.active(lane) is Some ==> old(self)@.active(lane)->0.token.asked(),
    {
        let active = match lane {
            Lane::Foreground => &self.active_foreground,
            Lane::Background => &self.active_background,
        };
        if let Some(ticket) = active {
            ticket.cancel.cancel();
            let serial: u64 = ticket.serial;
            let record = self.record_of(serial);
            self.record(serial, TaskRecord { cancelled: true, ..record });
        }
    }

    /// The next task for an idle worker. None comes after the shutdown, or while nothing waits.
    pub fn next_job(&mut self, lane: Lane) -> (task: Option<Pending<J>>)
        requires
            old(self).wf(),
            old(self)@.active(lane) is None,
        ensures
            final(self).wf(),
            final(self).budget() == old(self).budget(),
            task is Some <==> !old(self)@.closed && old(self)@.queue(lane).len() > 0,
            match task {
                Some(task) => {
                    &&& task@ == old(self)@.queue(lane)[0]
                    &&& task@.lane == lane
                    &&& final(self)@ == old(self)@.taken(lane)
                },
                None => final(self)@ == old(self)@,
            },
    {
        if self.closed {
            return None;
        }
        let empty = match lane {
            Lane::Foreground => self.foreground.len() == 0,
            Lane::Background => self.background.len() == 0,
        };
        if empty {
            return None;
        }
        proof {
            books::lemma_lane_recorded(self@, lane);
            books::lemma_taken(self@, lane);
            assert(self@.queue(lane)[0].lane == lane);
        }
        Some(self.take_first(lane))
    }

    fn take_first(&mut self, lane: Lane) -> (task: Pending<J>)
        requires
            old(self)@.queue(lane).len() > 0,
            old(self)@.records.contains_key(old(self)@.queue(lane)[0].ticket.serial),
        ensures
            final(self)@ == old(self)@.taken(lane),
            final(self).budget() == old(self).budget(),
            task@ == old(self)@.queue(lane)[0],
    {
        let ghost before = self@;
        let task = match lane {
            Lane::Foreground => take_at(&mut self.foreground, 0),
            Lane::Background => take_at(&mut self.background, 0),
        };
        assert(before.queue(lane).remove(0) =~= before.queue(lane).drop_first());
        let serial: u64 = task.ticket.serial;
        let record = self.record_of(serial);
        self.set_active(lane, Some(task.ticket.clone()));
        self.record(serial, TaskRecord { status: Status::Running, ..record });
        assert(self@ =~= before.taken(lane));
        task
    }

    /// Whether the scheduler was shut down.
    pub fn is_closed(&self) -> (closed: bool)
        ensures
            closed == self@.closed,
    {
        self.closed
    }

    /// What follows a step, when it is known whether a stop was asked for through the token.
    pub fn settle_signalled(
        &mut self,
        lane: Lane,
        task: Pending<J>,
        step: JobStep,
        signalled: bool,
    ) -> (result: (Option<Pending<J>>, Option<Pending<J>>))
        requires
            old(self).wf(),
            old(self)@.active(lane) == Some(task@.ticket),
            task@.lane == lane,
        ensures
            final(self).wf(),
            final(self).budget() == old(self).budget(),
            ({
                let wanted = old(self)@.settled(lane, task@, step, signalled);
                &&& final(self)@ == wanted.scheduler
                &&& seen(result.0) == wanted.retired
                &&& seen(result.1) == wanted.next
            }),
    {
        let ghost before = self@;
        let serial: u64 = task.ticket.serial;
        proof {
            books::lemma_settled(before, lane, task@, step, signalled);
            books::lemma_lane_recorded(before, lane);
            let there = books::part_of(lane) + 3;
            assert(before.place(there, 0));
            assert(before.part(there)[0].serial == serial);
            assert(before.agrees(there, 0));
        }
        let record = self.record_of(serial);
        if self.closed || record.cancelled || signalled {
            self.end(lane, serial, Status::Cancelled);
            return (Some(task), None);
        }
        match step {
            JobStep::Completed => {
                self.end(lane, serial, Status::Completed);
                (Some(task), None)
            },
            JobStep::Failed => {
                self.end(lane, serial, Status::Failed);
                (Some(task), None)
            },
            JobStep::ResourceLimit => {
                self.end(lane, serial, Status::ResourceLimit);
                (Some(task), None)
            },
            JobStep::Paused => {
                if record.woken {
                    self.record(serial, TaskRecord { woken: false, ..record });
                    (None, Some(self.rotate(lane, task)))
                } else if self.parked.len() >= self.parked_limit {
                    self.end(lane, serial, Status::ResourceLimit);
                    (Some(task), None)
                } else {
                    self.park(lane, task);
                    (None, None)
                }
            },
            JobStep::Yield => (None, Some(self.rotate(lane, task))),
        }
    }

    /// What follows a step of the task that a lane runs: the task that is done with, if it is,
    /// and the one to go on with.
    pub fn settle(&mut self, lane: Lane, task: Pending<J>, step: JobStep) -> (result: (
        Option<Pending<J>>,
        Option<Pending<J>>,
    ))
        requires
            old(self).wf(),
            old(self)@.active(lane) == Some(task@.ticket),
            task@.lane == lane,
        ensures
            final(self).wf(),
            final(self).budget() == old(self).budget(),
            exists|signalled: bool|
                {
                    let wanted = #[trigger] old(self)@.settled(lane, task@, step, signalled);
                    &&& task@.ticket.token.tells(signalled)
                    &&& final(self)@ == wanted.scheduler
                    &&& seen(result.0) == wanted.retired
                    &&& seen(result.1) == wanted.next
                },
    {
        let signalled = task.ticket.cancel.is_cancelled();
        self.settle_signalled(lane, task, step, signalled)
    }

    fn end(&mut self, lane: Lane, serial: u64, status: Status)
        requires
            old(self)@.records.contains_key(serial),
        ensures
            final(self)@ == old(self)@.with_active(lane, None).marked(serial, status),
            final(self).budget() == old(self).budget(),
    {
        let record = self.record_of(serial);
        self.set_active(lane, None);
        self.record(serial, TaskRecord { status, ..record });
    }

    fn park(&mut self, lane: Lane, task: Pending<J>)
        requires
            old(self)@.records.contains_key(task@.ticket.serial),
        ensures
            final(self)@ == old(self)@.with_parked(lane, task@),
            final(self).budget() == old(self).budget(),
    {
        let ghost before = self@;
        let serial: u64 = task.ticket.serial;
        let record = self.record_of(serial);
        self.set_active(lane, None);
        let ghost parked = waiting(self.parked@);
        let ghost wanted = books::lemma_sorted_in(parked, task@);
        let mut at: usize = self.parked.len();
        while at > 0 && !before_id(&self.parked[at - 1].ticket, &task.ticket)
            invariant
                at <= self.parked@.len(),
                parked == waiting(self.parked@),
                wanted <= at,
                0 <= wanted <= parked.len(),
                wanted > 0 ==> text::text_before(parked[wanted - 1].ticket.id, task@.ticket.id),
            decreases at,
        {
            assert(parked[at - 1] == self.parked@[at - 1]@);
            at = at - 1;
        }
        proof {
            if at > wanted {
                assert(parked[at - 1] == self.parked@[at - 1]@);
            }
            assert(at == wanted);
        }
        let ghost shown_task = task@;
        self.parked.insert(at, task);
        assert(waiting(self.parked@) =~= parked.insert(at as int, shown_task));
        self.record(serial, TaskRecord { status: Status::Paused, ..record });
        assert(self@ =~= before.with_parked(lane, shown_task));
    }

    fn rotate(&mut self, lane: Lane, task: Pending<J>) -> (next: Pending<J>)
        requires
            old(self)@.records.contains_key(task@.ticket.serial),
            old(self)@.queue(lane).len() > 0 ==> old(self)@.records.contains_key(
                old(self)@.queue(lane)[0].ticket.serial,
            ),
        ensures
            final(self)@ == old(self)@.rotated(lane, task@).scheduler,
            old(self)@.rotated(lane, task@).next == Some(next@),
            final(self).budget() == old(self).budget(),
    {
        let ghost before = self@;
        let ghost shown_task = task@;
        let serial: u64 = task.ticket.serial;
        let record = self.record_of(serial);
        self.put(lane, task);
        self.record(serial, TaskRecord { status: Status::Queued, ..record });
        self.take_first(lane)
    }

    /// Whether there is a number left for another task.
    pub fn has_number(&self) -> (left: bool)
        ensures
            left == (self@.next < u64::MAX),
    {
        self.next < u64::MAX
    }

    /// Forgets a task that came to its end.
    pub fn forget(&mut self, ticket: &Ticket)
        requires
            old(self).wf(),
        ensures
            final(self).wf(),
            final(self).budget() == old(self).budget(),
            final(self)@ == (if old(self)@.unfinished(ticket@.serial) {
                old(self)@
            } else {
                SchedulerView {
                    records: old(self)@.records.remove(ticket@.serial),
                    ..old(self)@
                }
            }),
    {
        let ghost before = self@;
        let serial: u64 = ticket.serial;
        match self.status_of(serial) {
            Some(status) => {
                if status.terminal() {
                    self.records.remove(&serial);
                    proof {
                        assert forall|p: int| #[trigger] self@.part(p) == before.part(p) by {}
                        assert forall|p: int, i: int| self@.place(p, i) implies #[trigger] self@.agrees(
                        p, i) by {
                            assert(before.agrees(p, i));
                        }
                        assert forall|l: Lane| #[trigger] self@.queue(l) == before.queue(l) by {}
                    }
                }
            },
            None => {
                assert(before.records.remove(serial) =~= before.records);
            },
        }
    }
}

/// A task by what it shows, if there is one.
pub open spec fn seen<J>(task: Option<Pending<J>>) -> Option<PendingView<J>> {
    match task {
        Some(task) => Some(task@),
        None => None,
    }
}

/// Whether one task's id comes before another's.
fn before_id(a: &Ticket, b: &Ticket) -> (before: bool)
    ensures
        before == text::text_before(a@.id, b@.id),
{
    match side_of(a.id.as_str(), b.id.as_str()) {
        Side::Before => true,
        _ => false,
    }
}

impl<J> Default for Scheduler<J> {
    fn default() -> (scheduler: Self)
        ensures
            scheduler.wf(),
            scheduler@ == (SchedulerView::<J> {
                foreground: Seq::empty(),
                background: Seq::empty(),
                active_foreground: None,
                active_background: None,
                parked: Seq::empty(),
                closed: false,
                queue_limit: 64,
                parked_limit: 64,
                records: Map::empty(),
                next: 0,
            }),
            scheduler.budget()@ == (crate::runtime::memory::PoolView {
                limit: 320,
                used: 0,
                peak: 0,
                sizes: Seq::empty(),
            }),
    {
        Scheduler::new(64, 64, 320)
    }
}

} // verus!
