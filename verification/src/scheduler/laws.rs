//! What holds of the scheduler over several operations.
use vstd::prelude::*;

use crate::domain::controller::ScopeView;
use crate::scheduler;
use crate::scheduler::books;
use crate::scheduler::{
    JobStep, Lane, PendingView, SchedulerView, Seat, Status, SubmitError, TaskRecord, TicketView,
    Wait,
};

verus! {

/// A demand that arrives while a step is about to pause is not lost: the task is not parked, and
/// it waits or runs on.
pub proof fn demand_before_parking_is_not_lost<J>(
    scheduler: SchedulerView<J>,
    lane: Lane,
    task: PendingView<J>,
)
    requires
        scheduler.wf(),
        !scheduler.closed,
        scheduler.active(lane) == Some(task.ticket),
        task.lane == lane,
        !scheduler.records[task.ticket.serial].cancelled,
    ensures
        ({
            let demanded = scheduler.resumed(task.ticket.id);
            let after = demanded.settled(lane, task, JobStep::Paused, false);
            let status = after.scheduler.status(task.ticket.serial);
            &&& after.retired is None
            &&& after.scheduler.parked == scheduler.parked
            &&& status == Some(Status::Queued) || status == Some(Status::Running)
        }),
{
    let there = books::part_of(lane) + 3;
    assert(scheduler.place(there, 0));
    assert(scheduler.part(there)[0] == task.ticket);
    assert(scheduler.agrees(there, 0));
    if scheduler.runs(Lane::Foreground, task.ticket.id) && lane == Lane::Background {
        assert(scheduler.place(3, 0));
        assert(scheduler.part(3)[0].id == scheduler.part(4)[0].id);
    }
}

/// A task that is cancelled while it runs comes to its end with its next settlement, whatever
/// its step brought.
pub proof fn a_cancelled_task_ends_at_its_next_settlement<J>(
    scheduler: SchedulerView<J>,
    lane: Lane,
    task: PendingView<J>,
    step: JobStep,
    signalled: bool,
)
    requires
        scheduler.wf(),
        scheduler.active(lane) == Some(task.ticket),
    ensures
        ({
            let told = scheduler.without_task(task.ticket.serial);
            let after = told.settled(lane, task, step, signalled);
            &&& told.active(lane) == Some(task.ticket)
            &&& after.retired == Some(task)
            &&& after.next is None
            &&& after.scheduler.active(lane) is None
            &&& after.scheduler.status(task.ticket.serial) == Some(Status::Cancelled)
        }),
{
    let serial = task.ticket.serial;
    let there = books::part_of(lane) + 3;
    assert(scheduler.place(there, 0));
    assert(scheduler.part(there)[0] == task.ticket);
    assert(scheduler.agrees(there, 0));
    books::lemma_seat(scheduler.foreground, serial);
    books::lemma_seat(scheduler.background, serial);
    books::lemma_seat(scheduler.parked, serial);
    let front = scheduler::seat_of(scheduler.foreground, serial);
    let back = scheduler::seat_of(scheduler.background, serial);
    let parked = scheduler::seat_of(scheduler.parked, serial);
    if front is Some {
        assert(scheduler.part(0)[front->0].serial == serial);
    }
    if back is Some {
        assert(scheduler.part(1)[back->0].serial == serial);
    }
    if parked is Some {
        assert(scheduler.part(2)[parked->0].serial == serial);
    }
}

/// Cancelling one task leaves every other task where it stands.
pub proof fn cancelling_leaves_siblings<J>(scheduler: SchedulerView<J>, serial: u64, other: u64)
    requires
        scheduler.wf(),
        other != serial,
    ensures
        scheduler.without_task(serial).status(other) == scheduler.status(other),
        scheduler.without_task(serial).records.contains_key(other)
            ==> scheduler.without_task(serial).records[other] == scheduler.records[other],
{
}

/// A second cancellation finds nothing to do once the task was taken out.
pub proof fn cancelling_twice_is_cancelling_once<J>(scheduler: SchedulerView<J>, serial: u64)
    requires
        scheduler.wf(),
        scheduler.withdrawn(serial) is Some,
    ensures
        !scheduler.without_task(serial).unfinished(serial),
        scheduler.without_task(serial).without_task(serial) == scheduler.without_task(serial),
{
}

/// After a scope was cancelled none of its tasks waits or is parked, the tasks of other scopes
/// keep their order and their records, and the lanes keep what they run.
pub proof fn a_scope_is_cancelled_alone<J>(scheduler: SchedulerView<J>, scope: ScopeView)
    requires
        scheduler.wf(),
    ensures
        ({
            let after = scheduler.without_scope(scope);
            &&& after.members(scope).len() == 0
            &&& after.active_foreground == scheduler.active_foreground
            &&& after.active_background == scheduler.active_background
            &&& forall|lane: Lane, i: int|
                0 <= i < after.queue(lane).len() ==> {
                    let task = #[trigger] after.queue(lane)[i];
                    &&& scheduler.queue(lane).contains(task)
                    &&& after.status(task.ticket.serial) == Some(Status::Queued)
                }
        }),
{
    let after = scheduler.without_scope(scope);
    books::lemma_without_scope(scheduler, scope);
    lemma_nothing_left(scheduler.foreground, scope);
    lemma_nothing_left(scheduler.background, scope);
    lemma_nothing_left(scheduler.parked, scope);
    books::lemma_beside(scheduler.foreground, scope);
    books::lemma_beside(scheduler.background, scope);
    assert forall|lane: Lane, i: int| 0 <= i < after.queue(lane).len() implies {
        let task = #[trigger] after.queue(lane)[i];
        &&& scheduler.queue(lane).contains(task)
        &&& after.status(task.ticket.serial) == Some(Status::Queued)
    } by {
        let here = books::part_of(lane);
        let at = books::kept(scheduler.queue(lane), scope)[i];
        assert(after.queue(lane)[i] == scheduler.queue(lane)[at]);
        assert(after.place(here, i));
        assert(after.part(here)[i] == after.queue(lane)[i].ticket);
        assert(after.agrees(here, i));
    }
}

proof fn lemma_nothing_left<J>(queue: Seq<PendingView<J>>, scope: ScopeView)
    ensures
        scheduler::of_scope(scheduler::beside_scope(queue, scope), scope).len() == 0,
    decreases queue.len(),
{
    if queue.len() > 0 {
        lemma_nothing_left(queue.drop_last(), scope);
        let head = scheduler::beside_scope(queue.drop_last(), scope);
        if queue.last().ticket.scope != scope {
            assert(head.push(queue.last()).drop_last() =~= head);
        }
    }
}

/// A task that pauses frees its lane, and the same task comes out of its parking place when it is
/// demanded again, as far as the lanes have room.
pub proof fn a_parked_task_comes_back_on_demand<J>(
    scheduler: SchedulerView<J>,
    lane: Lane,
    task: PendingView<J>,
)
    requires
        scheduler.wf(),
        !scheduler.closed,
        scheduler.active(lane) == Some(task.ticket),
        task.lane == lane,
        !scheduler.records[task.ticket.serial].cancelled,
        !scheduler.records[task.ticket.serial].woken,
        scheduler.parked.len() < scheduler.parked_limit,
        scheduler.queued() < scheduler.queue_limit,
    ensures
        ({
            let paused = scheduler.settled(lane, task, JobStep::Paused, false).scheduler;
            let back = paused.resumed(task.ticket.id);
            &&& paused.active(lane) is None
            &&& paused.status(task.ticket.serial) == Some(Status::Paused)
            &&& back.parked == scheduler.parked
            &&& back.queue(lane) == scheduler.queue(lane).push(task)
            &&& back.status(task.ticket.serial) == Some(Status::Queued)
        }),
{
    let serial = task.ticket.serial;
    let there = books::part_of(lane) + 3;
    assert(scheduler.place(there, 0));
    assert(scheduler.part(there)[0] == task.ticket);
    assert(scheduler.agrees(there, 0));
    let paused = scheduler.with_parked(lane, task);
    books::lemma_parked(scheduler, lane, task);
    let at = books::lemma_sorted_in(scheduler.parked, task);
    assert(paused.parked[at] == task);
    assert(paused.place(2, at));
    assert(paused.part(2)[at] == task.ticket);
    assert(!paused.is_live_elsewhere(task.ticket.id)) by {
        if paused.runs(Lane::Foreground, task.ticket.id) {
            assert(paused.place(3, 0));
            assert(paused.part(3)[0].id == paused.part(2)[at].id);
        }
        if paused.runs(Lane::Background, task.ticket.id) {
            assert(paused.place(4, 0));
            assert(paused.part(4)[0].id == paused.part(2)[at].id);
        }
        if scheduler::has_id(paused.foreground, task.ticket.id) {
            let i = choose|i: int|
                0 <= i < paused.foreground.len() && (#[trigger] paused.foreground[i]).ticket.id
                    == task.ticket.id;
            assert(paused.place(0, i));
            assert(paused.part(0)[i].id == paused.part(2)[at].id);
        }
        if scheduler::has_id(paused.background, task.ticket.id) {
            let i = choose|i: int|
                0 <= i < paused.background.len() && (#[trigger] paused.background[i]).ticket.id
                    == task.ticket.id;
            assert(paused.place(1, i));
            assert(paused.part(1)[i].id == paused.part(2)[at].id);
        }
    }
    lemma_only_place(paused, at);
    assert(paused.parked.remove(at) =~= scheduler.parked);
}

/// The id of a parked task is found where the task is.
proof fn lemma_only_place<J>(scheduler: SchedulerView<J>, at: int)
    requires
        scheduler.all_differ(),
        0 <= at < scheduler.parked.len(),
    ensures
        scheduler::place_of(scheduler.parked, scheduler.parked[at].ticket.id) == Some(at),
{
    let id = scheduler.parked[at].ticket.id;
    assert forall|i: int| 0 <= i < scheduler.parked.len() && i != at implies (
    #[trigger] scheduler.parked[i]).ticket.id != id by {
        assert(scheduler.place(2, i) && scheduler.place(2, at));
        assert(scheduler.part(2)[i].id != scheduler.part(2)[at].id);
    }
    lemma_place_of_one(scheduler.parked, id, at);
}

proof fn lemma_place_of_one<J>(queue: Seq<PendingView<J>>, id: Seq<char>, at: int)
    requires
        0 <= at < queue.len() ==> queue[at].ticket.id == id,
        0 <= at,
        forall|i: int|
            0 <= i < queue.len() && i != at ==> (#[trigger] queue[i]).ticket.id != id,
    ensures
        scheduler::place_of(queue, id) == (if at < queue.len() {
            Some(at)
        } else {
            None
        }),
    decreases queue.len(),
{
    if queue.len() > 0 {
        lemma_place_of_one(queue.drop_last(), id, at);
    }
}

impl<J> SchedulerView<J> {
    spec fn is_live_elsewhere(self, id: Seq<char>) -> bool {
        ||| self.runs(Lane::Foreground, id)
        ||| self.runs(Lane::Background, id)
        ||| scheduler::has_id(self.foreground, id)
        ||| scheduler::has_id(self.background, id)
    }
}

/// The tasks that wait for a lane, the first to run first.
pub open spec fn line<J>(scheduler: SchedulerView<J>, lane: Lane) -> Seq<PendingView<J>> {
    match lane {
        Lane::Foreground => scheduler.foreground,
        Lane::Background => scheduler.background,
    }
}

/// The task that a lane runs.
pub open spec fn running<J>(scheduler: SchedulerView<J>, lane: Lane) -> Option<TicketView> {
    match lane {
        Lane::Foreground => scheduler.active_foreground,
        Lane::Background => scheduler.active_background,
    }
}

/// The other lane.
pub open spec fn beside(lane: Lane) -> Lane {
    match lane {
        Lane::Foreground => Lane::Background,
        Lane::Background => Lane::Foreground,
    }
}

/// Whether the other lane is as it was.
pub open spec fn leaves_other<J>(
    before: SchedulerView<J>,
    after: SchedulerView<J>,
    lane: Lane,
) -> bool {
    &&& line(after, beside(lane)) == line(before, beside(lane))
    &&& running(after, beside(lane)) == running(before, beside(lane))
}

/// Whether some task has this id.
pub open spec fn is_named<J>(tasks: Seq<PendingView<J>>, id: Seq<char>) -> bool {
    exists|i: int| 0 <= i < tasks.len() && (#[trigger] tasks[i]).ticket.id == id
}

/// Whether a task with this id waits, is parked or runs.
pub open spec fn is_known<J>(scheduler: SchedulerView<J>, id: Seq<char>) -> bool {
    ||| is_named(scheduler.foreground, id)
    ||| is_named(scheduler.background, id)
    ||| is_named(scheduler.parked, id)
    ||| scheduler.active_foreground is Some && scheduler.active_foreground->0.id == id
    ||| scheduler.active_background is Some && scheduler.active_background->0.id == id
}

/// Whether all other tasks are recorded as they were.
pub open spec fn records_but<J>(
    before: SchedulerView<J>,
    after: SchedulerView<J>,
    serial: u64,
) -> bool {
    forall|other: u64| #![auto]
        other != serial ==> after.records.contains_key(other) == before.records.contains_key(other)
            && after.records[other] == before.records[other]
}

/// A task is accepted unless the scheduler was shut down, as many tasks wait as may, or one with the
/// same id waits, is parked or runs. It goes to the end of its own lane; nothing else moves.
pub proof fn a_task_goes_to_the_end_of_its_lane<J>(
    scheduler: SchedulerView<J>,
    id: Seq<char>,
    scope: ScopeView,
    seat: Seat<J>,
    lane: Lane,
)
    requires
        scheduler.next < u64::MAX,
    ensures
        ({
            let after = scheduler.submitted(id, scope, seat.token, lane, seat.job);
            let full = scheduler.foreground.len() + scheduler.background.len()
                >= scheduler.queue_limit;
            let task = PendingView {
                ticket: TicketView { id, scope, token: seat.token, serial: scheduler.next },
                lane,
                job: seat.job,
            };
            &&& scheduler.refusal(id) == (if scheduler.closed {
                Some(SubmitError::Closed)
            } else if full {
                Some(SubmitError::ResourceLimit)
            } else if is_known(scheduler, id) {
                Some(SubmitError::Duplicate)
            } else {
                None
            })
            &&& line(after, lane) == line(scheduler, lane).push(task)
            &&& running(after, lane) == running(scheduler, lane)
            &&& leaves_other(scheduler, after, lane)
            &&& after.parked == scheduler.parked
            &&& after.closed == scheduler.closed
            &&& after.next == scheduler.next + 1
            &&& after.records.contains_key(scheduler.next)
            &&& after.records[scheduler.next] == (TaskRecord {
                status: Status::Queued,
                cancelled: false,
                woken: false,
            })
            &&& records_but(scheduler, after, scheduler.next)
        }),
{
    assert(scheduler::has_id(scheduler.foreground, id) == is_named(scheduler.foreground, id));
    assert(scheduler::has_id(scheduler.background, id) == is_named(scheduler.background, id));
    assert(scheduler::has_id(scheduler.parked, id) == is_named(scheduler.parked, id));
}

/// An idle lane runs the task that waits longest, and the others keep their order.
pub proof fn the_first_comes_first<J>(scheduler: SchedulerView<J>, lane: Lane)
    requires
        line(scheduler, lane).len() > 0,
    ensures
        ({
            let after = scheduler.taken(lane);
            let first = line(scheduler, lane)[0];
            &&& running(after, lane) == Some(first.ticket)
            &&& line(after, lane) == line(scheduler, lane).subrange(
                1,
                line(scheduler, lane).len() as int,
            )
            &&& after.records[first.ticket.serial].status is Running
            &&& records_but(scheduler, after, first.ticket.serial)
            &&& leaves_other(scheduler, after, lane)
            &&& after.parked == scheduler.parked
        }),
{
    assert(line(scheduler, lane).drop_first() =~= line(scheduler, lane).subrange(
        1,
        line(scheduler, lane).len() as int,
    ));
}

/// A task that yields lets all others of its lane run before it runs again: it goes to the end of
/// the lane, the first one runs, and every other one comes nearer by one place. Alone it runs on.
pub proof fn a_yielding_task_lets_all_others_run<J>(
    scheduler: SchedulerView<J>,
    lane: Lane,
    task: PendingView<J>,
)
    requires
        scheduler.wf(),
        !scheduler.closed,
        scheduler.active(lane) == Some(task.ticket),
        !scheduler.records[task.ticket.serial].cancelled,
    ensures
        ({
            let after = scheduler.settled(lane, task, JobStep::Yield, false);
            let before = line(scheduler, lane);
            let now = line(after.scheduler, lane);
            &&& after.retired is None
            &&& now.len() == before.len()
            &&& leaves_other(scheduler, after.scheduler, lane)
            &&& after.scheduler.parked == scheduler.parked
            &&& before.len() == 0 ==> {
                &&& after.next == Some(task)
                &&& running(after.scheduler, lane) == Some(task.ticket)
                &&& after.scheduler.status(task.ticket.serial) == Some(Status::Running)
            }
            &&& before.len() > 0 ==> {
                &&& after.next == Some(before[0])
                &&& running(after.scheduler, lane) == Some(before[0].ticket)
                &&& after.scheduler.status(before[0].ticket.serial) == Some(Status::Running)
                &&& now.last() == task
                &&& after.scheduler.status(task.ticket.serial) == Some(Status::Queued)
                &&& forall|i: int|
                    0 < i < before.len() ==> #[trigger] now[i - 1] == #[trigger] before[i]
            }
        }),
{
    let there = books::part_of(lane) + 3;
    assert(scheduler.place(there, 0));
    assert(scheduler.part(there)[0] == task.ticket);
    let before = line(scheduler, lane);
    let all = before.push(task);
    if before.len() > 0 {
        let here = books::part_of(lane);
        assert(scheduler.place(here, 0));
        assert(scheduler.part(here)[0] == before[0].ticket);
        assert(scheduler.part(here)[0].serial != scheduler.part(there)[0].serial);
        assert(all[0] == before[0]);
        assert(all.drop_first().last() == task);
    } else {
        assert(all[0] == task);
        assert(all.drop_first() =~= before);
    }
}

/// A task that came to its end leaves its lane idle and is handed back, in the status that belongs
/// to its last step. One that was told to stop, by anybody, ends as cancelled whatever its step
/// was, and so does every task once the scheduler was shut down.
pub proof fn a_task_ends_as_its_step_says<J>(
    scheduler: SchedulerView<J>,
    lane: Lane,
    task: PendingView<J>,
    step: JobStep,
    signalled: bool,
)
    ensures
        ({
            let after = scheduler.settled(lane, task, step, signalled);
            let serial = task.ticket.serial;
            let told = scheduler.closed || scheduler.records[serial].cancelled || signalled;
            &&& told || step is Completed || step is Failed || step is ResourceLimit ==> {
                &&& after.retired == Some(task)
                &&& after.next is None
                &&& running(after.scheduler, lane) is None
                &&& line(after.scheduler, lane) == line(scheduler, lane)
                &&& leaves_other(scheduler, after.scheduler, lane)
                &&& after.scheduler.parked == scheduler.parked
                &&& records_but(scheduler, after.scheduler, serial)
            }
            &&& told ==> after.scheduler.status(serial) == Some(Status::Cancelled)
            &&& !told && step is Completed ==> after.scheduler.status(serial) == Some(
                Status::Completed,
            )
            &&& !told && step is Failed ==> after.scheduler.status(serial) == Some(Status::Failed)
            &&& !told && step is ResourceLimit ==> after.scheduler.status(serial) == Some(
                Status::ResourceLimit,
            )
        }),
{
}

/// A task that pauses is parked and frees its lane, as long as there is a parking place; without one
/// it ends for want of room. A demand that came meanwhile makes it go on as if it had yielded.
pub proof fn a_pausing_task_is_parked<J>(
    scheduler: SchedulerView<J>,
    lane: Lane,
    task: PendingView<J>,
)
    requires
        scheduler.wf(),
        !scheduler.closed,
        scheduler.active(lane) == Some(task.ticket),
        !scheduler.records[task.ticket.serial].cancelled,
    ensures
        ({
            let after = scheduler.settled(lane, task, JobStep::Paused, false);
            let serial = task.ticket.serial;
            let woken = scheduler.records[serial].woken;
            let room = scheduler.parked.len() < scheduler.parked_limit;
            &&& !woken && room ==> {
                &&& after.retired is None
                &&& after.next is None
                &&& running(after.scheduler, lane) is None
                &&& line(after.scheduler, lane) == line(scheduler, lane)
                &&& leaves_other(scheduler, after.scheduler, lane)
                &&& after.scheduler.status(serial) == Some(Status::Paused)
                &&& after.scheduler.parked.len() == scheduler.parked.len() + 1
                &&& after.scheduler.parked.contains(task)
                &&& forall|other: PendingView<J>| #[trigger]
                    scheduler.parked.contains(other) ==> after.scheduler.parked.contains(other)
            }
            &&& !woken && !room ==> {
                &&& after.retired == Some(task)
                &&& after.scheduler.status(serial) == Some(Status::ResourceLimit)
                &&& running(after.scheduler, lane) is None
                &&& after.scheduler.parked == scheduler.parked
            }
            &&& woken ==> {
                &&& after.retired is None
                &&& after.next is Some
                &&& after.scheduler.parked == scheduler.parked
                &&& after.next == scheduler.settled(lane, task, JobStep::Yield, false).next
                &&& line(after.scheduler, lane) == line(
                    scheduler.settled(lane, task, JobStep::Yield, false).scheduler,
                    lane,
                )
            }
        }),
{
    let there = books::part_of(lane) + 3;
    assert(scheduler.place(there, 0));
    assert(scheduler.part(there)[0] == task.ticket);
    assert(scheduler.agrees(there, 0));
    let at = books::lemma_sorted_in(scheduler.parked, task);
    let parked = scheduler::sorted_in(scheduler.parked, task);
    assert(parked[at] == task);
    assert forall|other: PendingView<J>| #[trigger]
        scheduler.parked.contains(other) implies parked.contains(other) by {
        let i = choose|i: int| 0 <= i < scheduler.parked.len() && scheduler.parked[i] == other;
        if i < at {
            assert(parked[i] == other);
        } else {
            assert(parked[i + 1] == other);
        }
    }
}

/// A demand wakes the task that it names: one that is parked goes to the end of its own lane, one
/// that runs is told so, one that waits waits on. It is refused once the scheduler was shut down,
/// where as many tasks wait as may, and where there is no such task.
pub proof fn a_demand_wakes_its_task<J>(scheduler: SchedulerView<J>, id: Seq<char>, at: int)
    requires
        scheduler.wf(),
    ensures
        ({
            let answer = scheduler.resume_answer(id);
            let after = scheduler.resumed(id);
            let waits = is_named(scheduler.foreground, id) || is_named(scheduler.background, id);
            let runs = scheduler.active_foreground is Some && scheduler.active_foreground->0.id
                == id || scheduler.active_background is Some && scheduler.active_background->0.id
                == id;
            let full = scheduler.foreground.len() + scheduler.background.len()
                >= scheduler.queue_limit;
            &&& answer == (if scheduler.closed {
                Err(SubmitError::Closed)
            } else if waits || runs {
                Ok(())
            } else if full {
                Err(SubmitError::ResourceLimit)
            } else if is_named(scheduler.parked, id) {
                Ok(())
            } else {
                Err::<(), SubmitError>(SubmitError::Missing)
            })
            &&& answer is Err ==> after == scheduler
            &&& 0 <= at < scheduler.parked.len() && scheduler.parked[at].ticket.id == id
                && !scheduler.closed && !full ==> {
                let task = scheduler.parked[at];
                &&& line(after, task.lane) == line(scheduler, task.lane).push(task)
                &&& leaves_other(scheduler, after, task.lane)
                &&& after.parked == scheduler.parked.remove(at)
                &&& after.status(task.ticket.serial) == Some(Status::Queued)
                &&& records_but(scheduler, after, task.ticket.serial)
            }
        }),
{
    assert(scheduler::has_id(scheduler.foreground, id) == is_named(scheduler.foreground, id));
    assert(scheduler::has_id(scheduler.background, id) == is_named(scheduler.background, id));
    lemma_place_found(scheduler.parked, id);
    if 0 <= at < scheduler.parked.len() && scheduler.parked[at].ticket.id == id {
        lemma_only_place(scheduler, at);
        lemma_nowhere_else(scheduler, at);
        assert(scheduler.place(2, at));
        assert(scheduler.part(2)[at] == scheduler.parked[at].ticket);
        assert(scheduler.agrees(2, at));
    }
}

proof fn lemma_place_found<J>(queue: Seq<PendingView<J>>, id: Seq<char>)
    ensures
        scheduler::place_of(queue, id) is Some <==> is_named(queue, id),
    decreases queue.len(),
{
    if queue.len() > 0 {
        let head = queue.drop_last();
        lemma_place_found(head, id);
        if is_named(queue, id) {
            let i = choose|i: int| 0 <= i < queue.len() && (#[trigger] queue[i]).ticket.id == id;
            if i < head.len() {
                assert(head[i] == queue[i]);
                assert(is_named(head, id));
            }
        }
        if is_named(head, id) {
            let i = choose|i: int| 0 <= i < head.len() && (#[trigger] head[i]).ticket.id == id;
            assert(queue[i] == head[i]);
        }
        if queue.last().ticket.id == id {
            assert(queue[queue.len() - 1].ticket.id == id);
        }
    }
}

proof fn lemma_nowhere_else<J>(scheduler: SchedulerView<J>, at: int)
    requires
        scheduler.wf(),
        0 <= at < scheduler.parked.len(),
    ensures
        !scheduler.is_live_elsewhere(scheduler.parked[at].ticket.id),
{
    let id = scheduler.parked[at].ticket.id;
    assert(scheduler.place(2, at));
    assert(scheduler.part(2)[at].id == id);
    if scheduler.runs(Lane::Foreground, id) {
        assert(scheduler.place(3, 0));
        assert(scheduler.part(3)[0].id == id);
    }
    if scheduler.runs(Lane::Background, id) {
        assert(scheduler.place(4, 0));
        assert(scheduler.part(4)[0].id == id);
    }
    if scheduler::has_id(scheduler.foreground, id) {
        let i = choose|i: int|
            0 <= i < scheduler.foreground.len() && (#[trigger] scheduler.foreground[i]).ticket.id
                == id;
        assert(scheduler.place(0, i));
        assert(scheduler.part(0)[i].id == id);
    }
    if scheduler::has_id(scheduler.background, id) {
        let i = choose|i: int|
            0 <= i < scheduler.background.len() && (#[trigger] scheduler.background[i]).ticket.id
                == id;
        assert(scheduler.place(1, i));
        assert(scheduler.part(1)[i].id == id);
    }
}

/// A task that waits and is cancelled is taken out of its lane and handed back; the others keep
/// their order, and it ends as cancelled.
pub proof fn a_waiting_task_is_withdrawn<J>(scheduler: SchedulerView<J>, lane: Lane, at: int)
    requires
        scheduler.wf(),
        0 <= at < line(scheduler, lane).len(),
    ensures
        ({
            let task = line(scheduler, lane)[at];
            let serial = task.ticket.serial;
            let after = scheduler.without_task(serial);
            &&& scheduler.withdrawn(serial) == Some(task)
            &&& line(after, lane) == line(scheduler, lane).remove(at)
            &&& running(after, lane) == running(scheduler, lane)
            &&& leaves_other(scheduler, after, lane)
            &&& after.parked == scheduler.parked
            &&& after.status(serial) == Some(Status::Cancelled)
            &&& records_but(scheduler, after, serial)
        }),
{
    let here = books::part_of(lane);
    let task = line(scheduler, lane)[at];
    let serial = task.ticket.serial;
    assert(scheduler.place(here, at));
    assert(scheduler.part(here)[at] == task.ticket);
    assert(scheduler.agrees(here, at));
    books::lemma_seat(scheduler.foreground, serial);
    books::lemma_seat(scheduler.background, serial);
    let front = scheduler::seat_of(scheduler.foreground, serial);
    let back = scheduler::seat_of(scheduler.background, serial);
    if front is Some {
        assert(scheduler.place(0, front->0));
        assert(scheduler.part(0)[front->0].serial == serial);
    } else {
        assert(lane is Background);
    }
    if back is Some {
        assert(scheduler.place(1, back->0));
        assert(scheduler.part(1)[back->0].serial == serial);
    }
}

/// After a shutdown nothing waits, is parked or is accepted; every task that waited or was parked
/// is handed back, and those that run are told to stop.
pub proof fn a_shutdown_ends_everything<J>(
    scheduler: SchedulerView<J>,
    id: Seq<char>,
    lane: Lane,
    task: PendingView<J>,
)
    requires
        scheduler.wf(),
    ensures
        ({
            let after = scheduler.shut();
            &&& after.foreground.len() == 0
            &&& after.background.len() == 0
            &&& after.parked.len() == 0
            &&& after.refusal(id) == Some(SubmitError::Closed)
            &&& after.resume_answer(id) == Err::<(), SubmitError>(SubmitError::Closed)
            &&& after.active_foreground == scheduler.active_foreground
            &&& after.active_background == scheduler.active_background
            &&& scheduler.everyone() == scheduler.foreground + scheduler.background
                + scheduler.parked
            &&& after.settled(lane, task, JobStep::Yield, false).retired == Some(task)
        }),
{
}

/// What a task is said to wait for: a parked one for a demand; one that runs for nothing, unless it
/// was told to stop and drains; one that waits for the task that its lane runs, which drains where
/// that one was told to stop, and else for a free place.
pub proof fn tasks_say_what_they_wait_for<J>(
    scheduler: SchedulerView<J>,
    lane: Lane,
    at: int,
    told: bool,
)
    requires
        scheduler.wf(),
        0 <= at < line(scheduler, lane).len(),
    ensures
        ({
            let ticket = line(scheduler, lane)[at].ticket;
            let ahead = running(scheduler, lane);
            scheduler.wait_given(ticket, told) == Some(
                if ahead is Some && (told || scheduler.records[ahead->0.serial].cancelled) {
                    Wait::Draining
                } else {
                    Wait::Slot
                },
            )
        }),
        running(scheduler, lane) is Some ==> scheduler.wait_given(
            running(scheduler, lane)->0,
            told,
        ) == (if told || scheduler.records[running(scheduler, lane)->0.serial].cancelled {
            Some(Wait::Draining)
        } else {
            None
        }),
        forall|i: int|
            0 <= i < scheduler.parked.len() ==> scheduler.wait_given(
                (#[trigger] scheduler.parked[i]).ticket,
                told,
            ) == Some(Wait::PageDemand),
{
    let here = books::part_of(lane);
    let task = line(scheduler, lane)[at];
    assert(scheduler.place(here, at));
    assert(scheduler.part(here)[at] == task.ticket);
    assert(scheduler.agrees(here, at));
    assert(scheduler::has_id(line(scheduler, lane), task.ticket.id));
    if lane is Background && scheduler::has_id(scheduler.foreground, task.ticket.id) {
        let i = choose|i: int|
            0 <= i < scheduler.foreground.len() && (#[trigger] scheduler.foreground[i]).ticket.id
                == task.ticket.id;
        assert(scheduler.place(0, i));
        assert(scheduler.part(0)[i].id == scheduler.part(1)[at].id);
    }
    if running(scheduler, lane) is Some {
        let there = here + 3;
        assert(scheduler.place(there, 0));
        assert(scheduler.part(there)[0] == running(scheduler, lane)->0);
        assert(scheduler.agrees(there, 0));
    }
    assert forall|i: int| 0 <= i < scheduler.parked.len() implies scheduler.wait_given(
        (#[trigger] scheduler.parked[i]).ticket,
        told,
    ) == Some(Wait::PageDemand) by {
        assert(scheduler.place(2, i));
        assert(scheduler.part(2)[i] == scheduler.parked[i].ticket);
        assert(scheduler.agrees(2, i));
    }
}

/// Cancelling a scope takes out its own tasks and no others: every task of another scope that waited
/// or was parked still does.
pub proof fn other_scopes_stay<J>(
    scheduler: SchedulerView<J>,
    scope: ScopeView,
    lane: Lane,
    task: PendingView<J>,
)
    requires
        task.ticket.scope != scope,
    ensures
        line(scheduler, lane).contains(task) ==> line(
            scheduler.without_scope(scope),
            lane,
        ).contains(task),
        scheduler.parked.contains(task) ==> scheduler.without_scope(scope).parked.contains(task),
{
    lemma_stays(line(scheduler, lane), scope, task);
    lemma_stays(scheduler.parked, scope, task);
}

proof fn lemma_stays<J>(queue: Seq<PendingView<J>>, scope: ScopeView, task: PendingView<J>)
    requires
        task.ticket.scope != scope,
    ensures
        queue.contains(task) ==> scheduler::beside_scope(queue, scope).contains(task),
    decreases queue.len(),
{
    if queue.contains(task) {
        let i = choose|i: int| 0 <= i < queue.len() && queue[i] == task;
        let head = queue.drop_last();
        let kept = scheduler::beside_scope(head, scope);
        let all = scheduler::beside_scope(queue, scope);
        lemma_stays(head, scope, task);
        if i < head.len() {
            assert(head[i] == task);
            assert(kept.contains(task));
            let j = choose|j: int| 0 <= j < kept.len() && kept[j] == task;
            assert(all[j] == task);
        } else {
            assert(all[kept.len() as int] == task);
        }
    }
}

proof fn lemma_cancelled<J>(records: Map<u64, TaskRecord>, tasks: Seq<PendingView<J>>, serial: u64)
    ensures
        ({
            let after = scheduler::all_cancelled(records, tasks);
            let among = exists|i: int|
                0 <= i < tasks.len() && (#[trigger] tasks[i]).ticket.serial == serial;
            &&& among ==> after.contains_key(serial) && after[serial].status == Status::Cancelled
            &&& !among ==> after.contains_key(serial) == records.contains_key(serial)
                && after[serial] == records[serial]
        }),
    decreases tasks.len(),
{
    if tasks.len() > 0 {
        let head = tasks.drop_last();
        lemma_cancelled(records, head, serial);
        assert(tasks[tasks.len() - 1] == tasks.last());
        assert forall|i: int| 0 <= i < head.len() implies #[trigger] head[i] == tasks[i] by {}
        if exists|i: int| 0 <= i < tasks.len() && (#[trigger] tasks[i]).ticket.serial == serial {
            let i = choose|i: int|
                0 <= i < tasks.len() && (#[trigger] tasks[i]).ticket.serial == serial;
            if i < head.len() {
                assert(head[i].ticket.serial == serial);
            }
        }
    }
}

proof fn lemma_goes<J>(queue: Seq<PendingView<J>>, scope: ScopeView, task: PendingView<J>)
    requires
        task.ticket.scope == scope,
    ensures
        queue.contains(task) ==> scheduler::of_scope(queue, scope).contains(task),
    decreases queue.len(),
{
    if queue.contains(task) {
        let i = choose|i: int| 0 <= i < queue.len() && queue[i] == task;
        let head = queue.drop_last();
        let some = scheduler::of_scope(head, scope);
        let all = scheduler::of_scope(queue, scope);
        lemma_goes(head, scope, task);
        if i < head.len() {
            assert(head[i] == task);
            assert(some.contains(task));
            let j = choose|j: int| 0 <= j < some.len() && some[j] == task;
            assert(all[j] == task);
        } else {
            assert(all[some.len() as int] == task);
        }
    }
}

/// A scope that ends takes its tasks with it: none of them waits or is parked any more, and each has
/// ended as cancelled. One that is running is told to stop and runs on until its step is over. A
/// running task of another scope is told nothing.
pub proof fn a_scope_ends_with_its_tasks<J>(
    scheduler: SchedulerView<J>,
    scope: ScopeView,
    lane: Lane,
    task: PendingView<J>,
)
    requires
        scheduler.wf(),
    ensures
        ({
            let after = scheduler.without_scope(scope);
            let waits = line(scheduler, lane).contains(task) || scheduler.parked.contains(task);
            let runs = running(scheduler, lane);
            let own = runs is Some && runs->0.scope == scope;
            let serial = runs->0.serial;
            &&& task.ticket.scope == scope ==> !line(after, lane).contains(task)
                && !after.parked.contains(task)
            &&& task.ticket.scope == scope && waits ==> after.status(task.ticket.serial) == Some(
                Status::Cancelled,
            )
            &&& running(after, lane) == runs
            &&& own ==> after.records[serial].cancelled && after.status(serial) == Some(
                Status::Running,
            )
            &&& runs is Some && !own ==> after.records[serial] == scheduler.records[serial]
        }),
{
    books::lemma_beside(line(scheduler, lane), scope);
    books::lemma_beside(scheduler.parked, scope);
    let after = scheduler.without_scope(scope);
    let members = scheduler.members(scope);
    let told = scheduler.told(Lane::Foreground, scope).told(Lane::Background, scope);
    if task.ticket.scope == scope {
        let kept = books::kept(line(scheduler, lane), scope);
        assert(line(after, lane).len() == kept.len());
        assert forall|i: int| 0 <= i < line(after, lane).len() implies #[trigger] line(
            after,
            lane,
        )[i] != task by {
            assert(0 <= kept[i]);
        }
        let parked = books::kept(scheduler.parked, scope);
        assert forall|i: int| 0 <= i < after.parked.len() implies #[trigger] after.parked[i]
            != task by {
            assert(0 <= parked[i]);
        }
        lemma_goes(line(scheduler, lane), scope, task);
        lemma_goes(scheduler.parked, scope, task);
        lemma_cancelled(told.records, members, task.ticket.serial);
        let a = scheduler::of_scope(scheduler.foreground, scope);
        let b = scheduler::of_scope(scheduler.background, scope);
        let c = scheduler::of_scope(scheduler.parked, scope);
        if a.contains(task) {
            let j = choose|j: int| 0 <= j < a.len() && a[j] == task;
            assert(members[j] == task);
        }
        if b.contains(task) {
            let j = choose|j: int| 0 <= j < b.len() && b[j] == task;
            assert(members[a.len() + j] == task);
        }
        if c.contains(task) {
            let j = choose|j: int| 0 <= j < c.len() && c[j] == task;
            assert(members[a.len() + b.len() + j] == task);
        }
    }
    if running(scheduler, lane) is Some {
        let serial = running(scheduler, lane)->0.serial;
        let there = books::part_of(lane) + 3;
        assert(scheduler.part(there)[0].serial == serial);
        assert(scheduler.place(there, 0));
        assert(scheduler.agrees(there, 0));
        lemma_cancelled(told.records, members, serial);
        assert forall|i: int| 0 <= i < members.len() implies (
        #[trigger] members[i]).ticket.serial != serial by {
            let place = books::lemma_member_place(scheduler, scope, i);
            assert(scheduler.part(place.0)[place.1].serial != scheduler.part(there)[0].serial);
        }
        let other = if lane is Foreground {
            Lane::Background
        } else {
            Lane::Foreground
        };
        if scheduler.active(other) is Some {
            let far = books::part_of(other) + 3;
            assert(scheduler.place(far, 0));
            assert(scheduler.part(far)[0].serial != scheduler.part(there)[0].serial);
        }
    }
}

} // verus!
