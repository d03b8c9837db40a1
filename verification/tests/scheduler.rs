use std::cell::RefCell;
use std::rc::Rc;
use std::time::{Duration, Instant};

use directory_ui_viewer::domain::controller::{Cancellation, Scope};
use directory_ui_viewer::scheduler::{
    HandleBudget, HandlePermit, Handles, Job, JobStep, Lane, Pending, Scheduler, Status,
    SubmitError, Ticket, Wait,
};

type Pool = Rc<RefCell<Scheduler<Task>>>;

#[derive(Clone)]
struct Shared(Pool);

struct Permit {
    pool: Pool,
    permit: Option<HandlePermit>,
}

impl Handles for Shared {
    type Permit = Permit;
    fn acquire(&self) -> Result<Permit, SubmitError> {
        let permit = self.0.borrow_mut().handles_mut().acquire()?;
        Ok(Permit { pool: self.0.clone(), permit: Some(permit) })
    }
}

impl Drop for Permit {
    fn drop(&mut self) {
        let permit = self.permit.take().unwrap();
        self.pool.borrow_mut().handles_mut().release(permit);
    }
}

/// A job that holds a handle if it wants one, signals its own token if it is to, and answers in
/// turn.
struct Task {
    answers: Vec<JobStep>,
    wants: bool,
    signals: bool,
    permit: Option<Permit>,
    ends: Rc<RefCell<Vec<Status>>>,
}

impl Job for Task {
    type Handles = Shared;
    fn step(&mut self, cancel: &Cancellation, handles: &Shared) -> JobStep {
        if self.signals {
            cancel.cancel();
        }
        if self.wants && self.permit.is_none() {
            self.permit = Some(handles.acquire().ok().unwrap());
        }
        self.answers.remove(0)
    }
    fn stopped(&mut self, status: Status) {
        self.ends.borrow_mut().push(status);
    }
}

fn task(wants: bool, answers: &[JobStep]) -> Task {
    Task { answers: answers.to_vec(), wants, signals: false, permit: None, ends: Rc::default() }
}

fn once() -> Task {
    task(false, &[JobStep::Completed])
}

fn block() -> Task {
    task(true, &[JobStep::Completed])
}

fn pause() -> Task {
    task(true, &[JobStep::Paused, JobStep::Completed])
}

fn scope(generation: u64) -> Scope {
    Scope { session_id: "session".into(), generation }
}

fn pool(queue: usize, parked: usize, handles: usize) -> Pool {
    Rc::new(RefCell::new(Scheduler::new(queue, parked, handles)))
}

fn submit(pool: &Pool, id: &str, generation: u64, lane: Lane, job: Task) -> Ticket {
    pool.borrow_mut().submit(id.into(), scope(generation), lane, job).ok().unwrap()
}

fn refused(pool: &Pool, id: &str, generation: u64) -> SubmitError {
    pool.borrow_mut()
        .submit(id.into(), scope(generation), Lane::Foreground, once())
        .err()
        .unwrap()
}

fn status(pool: &Pool, ticket: &Ticket) -> Status {
    ticket.status(&pool.borrow()).unwrap()
}

fn retire(pool: &Pool, mut gone: Pending<Task>) {
    let status = gone.ticket().status(&pool.borrow()).unwrap();
    gone.job.stopped(status);
}

fn cancel(pool: &Pool, ticket: &Ticket) -> bool {
    let (accepted, gone) = pool.borrow_mut().cancel_task(ticket);
    if let Some(gone) = gone {
        retire(pool, gone);
    }
    accepted
}

fn cancel_scope(pool: &Pool, generation: u64) -> usize {
    let gone = pool.borrow_mut().cancel_scope(&scope(generation));
    let count = gone.len();
    for task in gone {
        retire(pool, task);
    }
    count
}

/// A job in the middle of a step.
fn begin(pool: &Pool, lane: Lane) -> (Pending<Task>, JobStep) {
    let mut task = pool.borrow_mut().next_job(lane).unwrap();
    let step = task.advance(&Shared(pool.clone()));
    (task, step)
}

fn end(pool: &Pool, lane: Lane, task: Pending<Task>, step: JobStep) -> Option<Pending<Task>> {
    let (retired, next) = pool.borrow_mut().settle(lane, task, step);
    if let Some(gone) = retired {
        retire(pool, gone);
    }
    next
}

/// Goes on with a task until the lane has nothing left to do.
fn go_on(pool: &Pool, lane: Lane, task: Option<Pending<Task>>) {
    let mut current = task;
    loop {
        while let Some(mut task) = current.take() {
            let step = task.advance(&Shared(pool.clone()));
            current = end(pool, lane, task, step);
        }
        current = pool.borrow_mut().next_job(lane);
        if current.is_none() {
            return;
        }
    }
}

fn run(pool: &Pool, lane: Lane) {
    go_on(pool, lane, None);
}

fn open(pool: &Pool) -> usize {
    pool.borrow().handles().open()
}

#[test]
fn demand_arriving_before_park_is_not_lost() {
    let pool = pool(2, 2, 2);
    let ticket = submit(
        &pool,
        "demand-race",
        1,
        Lane::Foreground,
        task(false, &[JobStep::Paused, JobStep::Completed]),
    );
    let (task, step) = begin(&pool, Lane::Foreground);
    pool.borrow_mut().resume(ticket.id()).unwrap();
    let next = end(&pool, Lane::Foreground, task, step);
    assert_eq!(status(&pool, &ticket), Status::Running);
    go_on(&pool, Lane::Foreground, next);
    assert_eq!(status(&pool, &ticket), Status::Completed);
    assert_eq!(pool.borrow().counts(), (0, 0, 0));
}

#[test]
fn blocking_old_generation_retains_slot_but_control_and_other_lane_progress() {
    let pool = pool(2, 2, 2);
    let old = submit(&pool, "old", 1, Lane::Background, block());
    let (task, step) = begin(&pool, Lane::Background);
    let start = Instant::now();
    cancel_scope(&pool, 1);
    assert!(start.elapsed() < Duration::from_millis(100));
    assert_eq!(pool.borrow().wait_reason(&old), Some(Wait::Draining));
    let new = submit(&pool, "new", 2, Lane::Background, once());
    assert_eq!(pool.borrow().wait_reason(&new), Some(Wait::Draining));
    let front = submit(&pool, "front", 2, Lane::Foreground, once());
    run(&pool, Lane::Foreground);
    assert_eq!(status(&pool, &front), Status::Completed);
    assert_eq!(open(&pool), 1);
    let next = end(&pool, Lane::Background, task, step);
    assert!(next.is_none());
    run(&pool, Lane::Background);
    assert_eq!(status(&pool, &old), Status::Cancelled);
    assert_eq!(status(&pool, &new), Status::Completed);
    assert!(pool.borrow().handles().peak() <= 2);
}

#[test]
fn paused_cursor_releases_execution_slot_and_closes_on_generation_change() {
    let pool = pool(4, 2, 4);
    let paused = submit(&pool, "paused", 1, Lane::Foreground, pause());
    run(&pool, Lane::Foreground);
    assert_eq!(status(&pool, &paused), Status::Paused);
    assert_eq!(pool.borrow().wait_reason(&paused), Some(Wait::PageDemand));
    let later = submit(&pool, "later", 1, Lane::Foreground, once());
    run(&pool, Lane::Foreground);
    assert_eq!(status(&pool, &later), Status::Completed);
    assert_eq!(open(&pool), 1);
    cancel_scope(&pool, 1);
    assert_eq!(status(&pool, &paused), Status::Cancelled);
    assert_eq!(open(&pool), 0);
}

#[test]
fn repeated_generation_changes_keep_two_blocked_workers_and_bounded_control_latency() {
    let pool = pool(64, 64, 320);
    let mut blocked = vec![];
    let mut old_tickets = vec![];
    for (n, lane) in [Lane::Foreground, Lane::Background].into_iter().enumerate() {
        old_tickets.push(submit(&pool, &format!("old-{n}"), 1, lane, block()));
        blocked.push((lane, begin(&pool, lane)));
    }
    cancel_scope(&pool, 1);
    let mut samples = vec![];
    for generation in 2..=11 {
        for n in 0..64 {
            let lane = if n % 2 == 0 { Lane::Foreground } else { Lane::Background };
            submit(&pool, &format!("{generation}-{n}"), generation, lane, once());
        }
        assert_eq!(pool.borrow().counts(), (2, 64, 0));
        let start = Instant::now();
        assert_eq!(cancel_scope(&pool, generation), 64);
        samples.push(start.elapsed());
        assert_eq!(pool.borrow().counts(), (2, 0, 0));
        assert_eq!(open(&pool), 2);
    }
    assert!(samples.iter().all(|latency| *latency < Duration::from_millis(100)));
    for (lane, (task, step)) in blocked {
        end(&pool, lane, task, step);
    }
    for ticket in old_tickets {
        assert_eq!(status(&pool, &ticket), Status::Cancelled);
    }
}

#[test]
fn individual_cancel_releases_a_parked_cursor_without_cancelling_siblings() {
    let pool = pool(4, 4, 4);
    let paused = submit(&pool, "paused", 1, Lane::Foreground, pause());
    run(&pool, Lane::Foreground);
    assert_eq!(status(&pool, &paused), Status::Paused);
    assert!(cancel(&pool, &paused));
    assert_eq!(status(&pool, &paused), Status::Cancelled);
    assert_eq!(open(&pool), 0);
    assert!(!cancel(&pool, &paused));
    let sibling = submit(&pool, "sibling", 1, Lane::Foreground, once());
    run(&pool, Lane::Foreground);
    assert_eq!(status(&pool, &sibling), Status::Completed);
}

#[test]
fn queue_and_handle_limits_are_enforced_and_resume_reuses_worker() {
    let mut handles = HandleBudget::new(1);
    let permit = handles.acquire().ok().unwrap();
    assert!(matches!(handles.acquire(), Err(SubmitError::ResourceLimit)));
    handles.release(permit);
    assert_eq!(handles.open(), 0);
    assert_eq!(handles.peak(), 1);
    let pool = pool(1, 1, 2);
    let blocker = submit(&pool, "block", 1, Lane::Foreground, block());
    let (blocked, step) = begin(&pool, Lane::Foreground);
    let queued = submit(&pool, "queued", 1, Lane::Foreground, once());
    assert_eq!(refused(&pool, "overflow", 1), SubmitError::ResourceLimit);
    end(&pool, Lane::Foreground, blocked, step);
    run(&pool, Lane::Foreground);
    assert_eq!(status(&pool, &blocker), Status::Completed);
    assert_eq!(status(&pool, &queued), Status::Completed);
    let paused = submit(&pool, "pause", 1, Lane::Foreground, pause());
    run(&pool, Lane::Foreground);
    assert_eq!(status(&pool, &paused), Status::Paused);
    pool.borrow_mut().resume("pause").unwrap();
    run(&pool, Lane::Foreground);
    assert_eq!(status(&pool, &paused), Status::Completed);
}

#[test]
fn each_refusal_has_its_own_error() {
    let pool = pool(4, 4, 4);
    submit(&pool, "a", 1, Lane::Foreground, once());
    assert_eq!(refused(&pool, "a", 1), SubmitError::Duplicate);
    assert_eq!(pool.borrow_mut().resume("nobody"), Err(SubmitError::Missing));
    let gone = pool.borrow_mut().shutdown();
    assert_eq!(gone.len(), 1);
    for task in gone {
        retire(&pool, task);
    }
    assert!(pool.borrow().is_closed());
    assert_eq!(refused(&pool, "b", 1), SubmitError::Closed);
    assert_eq!(pool.borrow_mut().resume("a"), Err(SubmitError::Closed));
    assert_eq!(pool.borrow().counts(), (0, 0, 0));
}

#[test]
fn a_job_is_told_its_end_once() {
    let pool = pool(4, 0, 4);
    for (answer, told) in [
        (JobStep::Completed, Status::Completed),
        (JobStep::Failed, Status::Failed),
        (JobStep::ResourceLimit, Status::ResourceLimit),
        // There is no room to park a task.
        (JobStep::Paused, Status::ResourceLimit),
    ] {
        let job = task(false, &[answer]);
        let ends = job.ends.clone();
        submit(&pool, "job", 1, Lane::Background, job);
        run(&pool, Lane::Background);
        assert_eq!(*ends.borrow(), vec![told]);
    }
}

#[test]
fn tasks_of_a_lane_take_turns() {
    let pool = pool(4, 4, 4);
    let first = submit(
        &pool,
        "first",
        1,
        Lane::Foreground,
        task(false, &[JobStep::Yield, JobStep::Completed]),
    );
    let second = submit(&pool, "second", 1, Lane::Foreground, once());
    let (running, step) = begin(&pool, Lane::Foreground);
    assert_eq!(status(&pool, &first), Status::Running);
    assert_eq!(pool.borrow().wait_reason(&first), None);
    assert_eq!(pool.borrow().wait_reason(&second), Some(Wait::Slot));
    assert_eq!(pool.borrow().counts(), (1, 1, 0));
    let next = end(&pool, Lane::Foreground, running, step);
    assert_eq!(status(&pool, &first), Status::Queued);
    assert_eq!(status(&pool, &second), Status::Running);
    assert_eq!(next.as_ref().unwrap().ticket().id(), "second");
    go_on(&pool, Lane::Foreground, next);
    assert_eq!(status(&pool, &first), Status::Completed);
    pool.borrow_mut().forget(&first);
    assert!(first.status(&pool.borrow()).is_none());
}

#[test]
fn the_default_limits_are_64_queued_64_parked_and_320_handles() {
    let mut scheduler: Scheduler<Task> = Scheduler::default();
    for n in 0..64 {
        assert!(scheduler.submit(format!("{n}"), scope(1), Lane::Foreground, once()).is_ok());
    }
    assert!(scheduler.submit("full".into(), scope(1), Lane::Foreground, once()).is_err());
    let mut permits = vec![];
    for _ in 0..320 {
        permits.push(scheduler.handles_mut().acquire().ok().unwrap());
    }
    assert!(scheduler.handles_mut().acquire().is_err());
    assert_eq!(scheduler.handles().open(), 320);
}

#[test]
fn handles_that_were_granted_are_given_back_after_a_refusal() {
    let mut handles = HandleBudget::new(2);
    let first = handles.acquire().ok().unwrap();
    let second = handles.acquire().ok().unwrap();
    assert!(handles.acquire().is_err());
    handles.release(first);
    assert_eq!(handles.open(), 1);
    let third = handles.acquire().ok().unwrap();
    handles.release(second);
    handles.release(third);
    assert_eq!(handles.open(), 0);
}

#[test]
fn a_task_whose_token_another_holder_signalled_drains() {
    let pool = pool(4, 4, 4);
    let mut job = task(false, &[JobStep::Yield]);
    job.signals = true;
    let first = submit(&pool, "first", 1, Lane::Foreground, job);
    let second = submit(&pool, "second", 1, Lane::Foreground, once());
    let mut running = pool.borrow_mut().next_job(Lane::Foreground).unwrap();
    assert_eq!(pool.borrow().wait_reason(&first), None);
    assert_eq!(pool.borrow().wait_reason(&second), Some(Wait::Slot));
    let step = running.advance(&Shared(pool.clone()));
    assert_eq!(status(&pool, &first), Status::Running);
    assert_eq!(pool.borrow().wait_reason(&first), Some(Wait::Draining));
    assert_eq!(pool.borrow().wait_reason(&second), Some(Wait::Draining));
    let next = end(&pool, Lane::Foreground, running, step);
    assert!(next.is_none());
    assert_eq!(status(&pool, &first), Status::Cancelled);
    assert_eq!(pool.borrow().wait_reason(&first), None);
    assert_eq!(pool.borrow().wait_reason(&second), Some(Wait::Slot));
    run(&pool, Lane::Foreground);
    assert_eq!(status(&pool, &second), Status::Completed);
}

#[test]
fn what_a_task_waits_for_follows_what_was_told() {
    let pool = pool(4, 4, 4);
    let first = submit(&pool, "first", 1, Lane::Foreground, pause());
    let second = submit(&pool, "second", 2, Lane::Foreground, once());
    // Nothing runs in the lane yet.
    assert_eq!(pool.borrow().wait_given(&first, true), Some(Wait::Slot));
    let (running, step) = begin(&pool, Lane::Foreground);
    assert_eq!(pool.borrow().wait_given(&first, false), None);
    assert_eq!(pool.borrow().wait_given(&first, true), Some(Wait::Draining));
    assert_eq!(pool.borrow().wait_given(&second, false), Some(Wait::Slot));
    assert_eq!(pool.borrow().wait_given(&second, true), Some(Wait::Draining));
    assert!(end(&pool, Lane::Foreground, running, step).is_none());
    for told in [false, true] {
        assert_eq!(pool.borrow().wait_given(&first, told), Some(Wait::PageDemand));
    }
    let (running, step) = begin(&pool, Lane::Foreground);
    cancel_scope(&pool, 2);
    // What the books say needs no answer of the token.
    assert_eq!(pool.borrow().wait_given(&second, false), Some(Wait::Draining));
    assert!(end(&pool, Lane::Foreground, running, step).is_none());
    for told in [false, true] {
        assert_eq!(pool.borrow().wait_given(&second, told), None);
    }
}
