//! What every operation of the scheduler keeps.
use vstd::prelude::*;

use crate::domain::controller::{Cancellation, ScopeView};
use crate::scheduler;
use crate::scheduler::{
    JobStep, Lane, PendingView, SchedulerView, Status, TaskRecord, TicketView,
};
use crate::text;

verus! {

/// Where a task of `after` stood before.
pub open spec fn came_from<J>(
    before: SchedulerView<J>,
    after: SchedulerView<J>,
    origin: spec_fn(int, int) -> (int, int),
    p: int,
    i: int,
) -> bool {
    let from = origin(p, i);
    &&& before.place(from.0, from.1)
    &&& before.part(from.0)[from.1] == after.part(p)[i]
}

/// When every task stood somewhere before, and no two at one place, then they still differ.
pub proof fn lemma_moved<J>(
    before: SchedulerView<J>,
    after: SchedulerView<J>,
    origin: spec_fn(int, int) -> (int, int),
)
    requires
        before.all_differ(),
        forall|p: int, i: int| after.place(p, i) ==> #[trigger] came_from(before, after, origin, p, i),
        forall|p: int, i: int, q: int, j: int|
            #![trigger origin(p, i), origin(q, j)]
            after.place(p, i) && after.place(q, j) && (p != q || i != j) ==> origin(p, i) != origin(
                q,
                j,
            ),
    ensures
        after.all_differ(),
{
    assert forall|p: int, i: int, q: int, j: int|
        after.place(p, i) && after.place(q, j) && (p != q || i != j) implies (
    #[trigger] after.part(p)[i]).id != (#[trigger] after.part(q)[j]).id && after.part(p)[i].serial
        != after.part(q)[j].serial by {
        assert(came_from(before, after, origin, p, i));
        assert(came_from(before, after, origin, q, j));
        let from = origin(p, i);
        let other = origin(q, j);
        assert(from.0 != other.0 || from.1 != other.1);
        assert(before.part(from.0)[from.1].id != before.part(other.0)[other.1].id);
    }
}

pub proof fn lemma_tickets_push<J>(queue: Seq<PendingView<J>>, task: PendingView<J>)
    ensures
        scheduler::tickets_of(queue.push(task)) == scheduler::tickets_of(queue).push(task.ticket),
{
    assert(scheduler::tickets_of(queue.push(task)) =~= scheduler::tickets_of(queue).push(
        task.ticket,
    ));
}

pub proof fn lemma_tickets_remove<J>(queue: Seq<PendingView<J>>, at: int)
    requires
        0 <= at < queue.len(),
    ensures
        scheduler::tickets_of(queue.remove(at)) == scheduler::tickets_of(queue).remove(at),
{
    assert(scheduler::tickets_of(queue.remove(at)) =~= scheduler::tickets_of(queue).remove(at));
}

/// Where a lane's waiting tasks stand among the parts.
pub open spec fn part_of(lane: Lane) -> int {
    match lane {
        Lane::Foreground => 0,
        Lane::Background => 1,
    }
}

/// A task that was accepted.
pub proof fn lemma_submitted<J>(
    before: SchedulerView<J>,
    id: Seq<char>,
    scope: ScopeView,
    token: Cancellation,
    lane: Lane,
    job: J,
)
    requires
        before.wf(),
        before.refusal(id) is None,
        before.next < u64::MAX,
    ensures
        before.submitted(id, scope, token, lane, job).wf(),
{
    let after = before.submitted(id, scope, token, lane, job);
    let task = PendingView {
        ticket: TicketView { id, scope, token, serial: before.next },
        lane,
        job,
    };
    lemma_tickets_push(before.queue(lane), task);
    let here = part_of(lane);
    let last = before.part(here).len() as int;
    assert(after.part(here) == before.part(here).push(task.ticket));
    assert forall|p: int| 0 <= p < 5 && p != here implies #[trigger] after.part(p) == before.part(
        p,
    ) by {}
    assert forall|p: int, i: int| before.place(p, i) implies (#[trigger] before.part(p)[i]).id != id
        && before.part(p)[i].serial < before.next by {
        assert(before.agrees(p, i));
        if p == 0 {
            assert(before.foreground[i].ticket == before.part(p)[i]);
        } else if p == 1 {
            assert(before.background[i].ticket == before.part(p)[i]);
        } else if p == 2 {
            assert(before.parked[i].ticket == before.part(p)[i]);
        }
    }
    assert forall|p: int, i: int| after.place(p, i) implies #[trigger] after.part(p)[i] == (if p
        == here && i == last {
        task.ticket
    } else {
        before.part(p)[i]
    }) && ((p != here || i != last) ==> before.place(p, i)) by {}
    assert(after.all_differ());
    assert forall|p: int, i: int| after.place(p, i) implies #[trigger] after.agrees(p, i) by {
        let ticket = after.part(p)[i];
        if p != here || i != last {
            assert(before.agrees(p, i));
        }
    }
    assert forall|l: Lane, i: int| 0 <= i < after.queue(l).len() implies (
    #[trigger] after.queue(l)[i]).lane == l by {
        if l != lane || i < before.queue(l).len() {
            assert(after.queue(l)[i] == before.queue(l)[i]);
        }
    }
}

/// Moving tasks and changing the record of one serial leaves what is recorded of other tasks.
proof fn lemma_kept<J>(
    before: SchedulerView<J>,
    after: SchedulerView<J>,
    origin: spec_fn(int, int) -> (int, int),
    serial: u64,
)
    requires
        before.in_order(),
        forall|p: int, i: int| after.place(p, i) ==> #[trigger] came_from(before, after, origin, p, i),
        forall|p: int, i: int|
            after.place(p, i) && (#[trigger] after.part(p)[i]).serial != serial ==> origin(p, i).0
                == p,
        forall|other: u64|
            other != serial ==> (#[trigger] after.records.contains_key(other)
                <==> before.records.contains_key(other)) && after.records[other]
                == before.records[other],
    ensures
        forall|p: int, i: int|
            after.place(p, i) && (#[trigger] after.part(p)[i]).serial != serial ==> after.agrees(
                p,
                i,
            ),
{
    assert forall|p: int, i: int|
        after.place(p, i) && (#[trigger] after.part(p)[i]).serial != serial implies after.agrees(
        p,
        i,
    ) by {
        assert(came_from(before, after, origin, p, i));
        let from = origin(p, i);
        assert(before.agrees(from.0, from.1));
        assert(after.records.contains_key(after.part(p)[i].serial));
    }
}

/// A parked task that goes to the end of its lane.
pub proof fn lemma_unparked<J>(before: SchedulerView<J>, at: int)
    requires
        before.wf(),
        before.queued() < before.queue_limit,
        0 <= at < before.parked.len(),
    ensures
        before.unparked(at).wf(),
{
    let task = before.parked[at];
    let lane = task.lane;
    let after = before.unparked(at);
    let here = part_of(lane);
    let last = before.part(here).len() as int;
    lemma_tickets_push(before.queue(lane), task);
    lemma_tickets_remove(before.parked, at);
    assert(after.part(here) == before.part(here).push(task.ticket));
    assert(after.part(2) == before.part(2).remove(at));
    assert(before.part(2)[at] == task.ticket);
    let origin = |p: int, i: int|
        if p == 2 && i >= at {
            (2int, i + 1)
        } else if p == here && i == last {
            (2int, at)
        } else {
            (p, i)
        };
    assert forall|p: int, i: int| after.place(p, i) implies #[trigger] came_from(
        before,
        after,
        origin,
        p,
        i,
    ) by {
        if p != 2 && p != here {
            assert(after.part(p) == before.part(p));
        }
    }
    lemma_moved(before, after, origin);
    assert forall|p: int, i: int|
        after.place(p, i) && (#[trigger] after.part(p)[i]).serial != task.ticket.serial implies origin(
    p, i).0 == p by {
        assert(came_from(before, after, origin, p, i));
    }
    lemma_kept(before, after, origin, task.ticket.serial);
    assert(before.agrees(2, at));
    assert forall|p: int, i: int| after.place(p, i) implies #[trigger] after.agrees(p, i) by {
        assert(after.place(here, last));
        if after.part(p)[i].serial == task.ticket.serial {
            assert(after.part(here)[last].serial == task.ticket.serial);
            assert(p == here && i == last);
        }
    }
    assert forall|l: Lane, i: int| 0 <= i < after.queue(l).len() implies (
    #[trigger] after.queue(l)[i]).lane == l by {
        if l != lane || i < before.queue(l).len() {
            assert(after.queue(l)[i] == before.queue(l)[i]);
        }
    }
}

/// A record that changes only in what does not matter to the place of its task.
pub proof fn lemma_noted<J>(before: SchedulerView<J>, serial: u64, record: TaskRecord)
    requires
        before.wf(),
        before.records.contains_key(serial),
        record.status == before.records[serial].status,
        record.cancelled ==> before.records[serial].cancelled || (forall|p: int, i: int|
            before.place(p, i) && p <= 2 ==> (#[trigger] before.part(p)[i]).serial != serial),
    ensures
        before.recorded(serial, record).wf(),
{
    let after = before.recorded(serial, record);
    assert forall|p: int| #[trigger] after.part(p) == before.part(p) by {}
    assert(after.all_differ());
    assert forall|p: int, i: int| after.place(p, i) implies #[trigger] after.agrees(p, i) by {
        assert(before.agrees(p, i));
        assert(before.part(p)[i] == after.part(p)[i]);
    }
    assert forall|l: Lane| #[trigger] after.queue(l) == before.queue(l) by {}
}

/// The first waiting task of an idle lane that starts to run.
pub proof fn lemma_taken<J>(before: SchedulerView<J>, lane: Lane)
    requires
        before.wf(),
        before.active(lane) is None,
        before.queue(lane).len() > 0,
    ensures
        before.taken(lane).wf(),
{
    let after = before.taken(lane);
    let task = before.queue(lane)[0];
    let here = part_of(lane);
    let there = here + 3;
    assert(before.queue(lane).drop_first() =~= before.queue(lane).remove(0));
    lemma_tickets_remove(before.queue(lane), 0);
    assert(after.part(here) == before.part(here).remove(0));
    assert(after.part(there) == seq![task.ticket]);
    assert(before.part(here)[0] == task.ticket);
    let origin = |p: int, i: int|
        if p == here {
            (p, i + 1)
        } else if p == there {
            (here, 0int)
        } else {
            (p, i)
        };
    assert forall|p: int, i: int| after.place(p, i) implies #[trigger] came_from(
        before,
        after,
        origin,
        p,
        i,
    ) by {
        if p != here && p != there {
            assert(after.part(p) == before.part(p));
        }
    }
    lemma_moved(before, after, origin);
    assert forall|p: int, i: int|
        after.place(p, i) && (#[trigger] after.part(p)[i]).serial != task.ticket.serial implies origin(
    p, i).0 == p by {
        assert(came_from(before, after, origin, p, i));
    }
    lemma_kept(before, after, origin, task.ticket.serial);
    assert(before.agrees(here, 0));
    assert forall|p: int, i: int| after.place(p, i) implies #[trigger] after.agrees(p, i) by {
        assert(after.place(there, 0));
        if after.part(p)[i].serial == task.ticket.serial {
            assert(after.part(there)[0].serial == task.ticket.serial);
            assert(p == there && i == 0);
        }
    }
    assert forall|l: Lane, i: int| 0 <= i < after.queue(l).len() implies (
    #[trigger] after.queue(l)[i]).lane == l by {
        if l != lane {
            assert(after.queue(l)[i] == before.queue(l)[i]);
        } else {
            assert(after.queue(l)[i] == before.queue(l)[i + 1]);
        }
    }
}

/// The task that a lane ran and that came to its end.
pub proof fn lemma_ended<J>(
    before: SchedulerView<J>,
    lane: Lane,
    task: PendingView<J>,
    status: Status,
)
    requires
        before.wf(),
        before.active(lane) == Some(task.ticket),
    ensures
        before.ended(lane, task, status).scheduler.wf(),
{
    let after = before.ended(lane, task, status).scheduler;
    let there = part_of(lane) + 3;
    assert(before.part(there)[0] == task.ticket);
    assert(before.agrees(there, 0));
    let origin = |p: int, i: int| (p, i);
    assert forall|p: int, i: int| after.place(p, i) implies #[trigger] came_from(
        before,
        after,
        origin,
        p,
        i,
    ) by {
        assert(p != there);
        assert(after.part(p) == before.part(p));
    }
    lemma_moved(before, after, origin);
    lemma_kept(before, after, origin, task.ticket.serial);
    assert forall|p: int, i: int| after.place(p, i) implies #[trigger] after.agrees(p, i) by {
        assert(came_from(before, after, origin, p, i));
        assert(before.part(p)[i].serial != before.part(there)[0].serial);
    }
    assert forall|l: Lane| #[trigger] after.queue(l) == before.queue(l) by {}
}

/// Where a task lands among the parked ones.
pub proof fn lemma_sorted_in<J>(parked: Seq<PendingView<J>>, task: PendingView<J>) -> (at: int)
    ensures
        0 <= at <= parked.len(),
        scheduler::sorted_in(parked, task) == parked.insert(at, task),
        forall|i: int|
            at <= i < parked.len() ==> !text::text_before(
                (#[trigger] parked[i]).ticket.id,
                task.ticket.id,
            ),
        at > 0 ==> text::text_before(parked[at - 1].ticket.id, task.ticket.id),
    decreases parked.len(),
{
    if parked.len() == 0 || text::text_before(parked.last().ticket.id, task.ticket.id) {
        assert(parked.push(task) =~= parked.insert(parked.len() as int, task));
        parked.len() as int
    } else {
        let at = lemma_sorted_in(parked.drop_last(), task);
        assert(parked.drop_last().insert(at, task).push(parked.last()) =~= parked.insert(at, task));
        assert forall|i: int| at <= i < parked.len() implies !text::text_before(
            (#[trigger] parked[i]).ticket.id,
            task.ticket.id,
        ) by {
            if i < parked.len() - 1 {
                assert(parked.drop_last()[i] == parked[i]);
            }
        }
        at
    }
}

/// The task that a lane ran and that is parked.
pub proof fn lemma_parked<J>(before: SchedulerView<J>, lane: Lane, task: PendingView<J>)
    requires
        before.wf(),
        before.active(lane) == Some(task.ticket),
        before.parked.len() < before.parked_limit,
        !before.records[task.ticket.serial].cancelled,
    ensures
        before.with_parked(lane, task).wf(),
{
    let after = before.with_parked(lane, task);
    let there = part_of(lane) + 3;
    let at = lemma_sorted_in(before.parked, task);
    assert(after.part(2) =~= before.part(2).insert(at, task.ticket));
    assert(before.part(there)[0] == task.ticket);
    assert(before.agrees(there, 0));
    let origin = |p: int, i: int|
        if p == 2 && i == at {
            (there, 0int)
        } else if p == 2 && i > at {
            (2int, i - 1)
        } else {
            (p, i)
        };
    assert forall|p: int, i: int| after.place(p, i) implies #[trigger] came_from(
        before,
        after,
        origin,
        p,
        i,
    ) by {
        if p != 2 {
            assert(p != there);
            assert(after.part(p) == before.part(p));
        }
    }
    lemma_moved(before, after, origin);
    assert forall|p: int, i: int|
        after.place(p, i) && (#[trigger] after.part(p)[i]).serial != task.ticket.serial implies origin(
    p, i).0 == p by {
        assert(came_from(before, after, origin, p, i));
    }
    lemma_kept(before, after, origin, task.ticket.serial);
    assert forall|p: int, i: int| after.place(p, i) implies #[trigger] after.agrees(p, i) by {
        assert(after.place(2, at));
        if after.part(p)[i].serial == task.ticket.serial {
            assert(after.part(2)[at].serial == task.ticket.serial);
            assert(p == 2 && i == at);
        }
    }
    assert forall|l: Lane| #[trigger] after.queue(l) == before.queue(l) by {}
}

/// The task that a lane runs goes to the end of the lane, and the lane goes on with its first.
pub proof fn lemma_rotated<J>(before: SchedulerView<J>, lane: Lane, task: PendingView<J>)
    requires
        before.wf(),
        before.active(lane) == Some(task.ticket),
        task.lane == lane,
        !before.records[task.ticket.serial].cancelled,
    ensures
        before.rotated(lane, task).scheduler.wf(),
        before.rotated(lane, task).scheduler.queued() == before.queued(),
{
    let here = part_of(lane);
    let there = here + 3;
    let last = before.part(here).len() as int;
    let serial = task.ticket.serial;
    let idle = SchedulerView { queue_limit: before.queue_limit + 1, ..before }.with_active(
        lane,
        None,
    ).with_queue(lane, before.queue(lane).push(task)).marked(serial, Status::Queued);
    lemma_tickets_push(before.queue(lane), task);
    assert(idle.part(here) == before.part(here).push(task.ticket));
    assert(before.part(there)[0] == task.ticket);
    assert(before.agrees(there, 0));
    let origin = |p: int, i: int|
        if p == here && i == last {
            (there, 0int)
        } else {
            (p, i)
        };
    assert forall|p: int, i: int| idle.place(p, i) implies #[trigger] came_from(
        before,
        idle,
        origin,
        p,
        i,
    ) by {
        if p != here {
            assert(p != there);
            assert(idle.part(p) == before.part(p));
        }
    }
    lemma_moved(before, idle, origin);
    assert forall|p: int, i: int|
        idle.place(p, i) && (#[trigger] idle.part(p)[i]).serial != serial implies origin(p, i).0
        == p by {
        assert(came_from(before, idle, origin, p, i));
    }
    lemma_kept(before, idle, origin, serial);
    assert forall|p: int, i: int| idle.place(p, i) implies #[trigger] idle.agrees(p, i) by {
        assert(idle.place(here, last));
        if idle.part(p)[i].serial == serial {
            assert(idle.part(here)[last].serial == serial);
            assert(p == here && i == last);
        }
    }
    assert forall|l: Lane, i: int| 0 <= i < idle.queue(l).len() implies (
    #[trigger] idle.queue(l)[i]).lane == l by {
        if l != lane || i < before.queue(l).len() {
            assert(idle.queue(l)[i] == before.queue(l)[i]);
        }
    }
    lemma_taken(idle, lane);
    let after = before.rotated(lane, task).scheduler;
    let taken = idle.taken(lane);
    assert(after =~= SchedulerView { queue_limit: before.queue_limit, ..taken });
    assert forall|p: int| #[trigger] after.part(p) == taken.part(p) by {}
    assert forall|p: int, i: int| after.place(p, i) implies #[trigger] after.agrees(p, i) by {
        assert(taken.agrees(p, i));
    }
    assert forall|l: Lane| #[trigger] after.queue(l) == taken.queue(l) by {}
}

/// What follows a step keeps the scheduler in order.
pub proof fn lemma_settled<J>(
    before: SchedulerView<J>,
    lane: Lane,
    task: PendingView<J>,
    step: JobStep,
    signalled: bool,
)
    requires
        before.wf(),
        before.active(lane) == Some(task.ticket),
        task.lane == lane,
    ensures
        before.settled(lane, task, step, signalled).scheduler.wf(),
{
    let serial = task.ticket.serial;
    let record = before.records[serial];
    let there = part_of(lane) + 3;
    assert(before.part(there)[0] == task.ticket);
    assert(before.agrees(there, 0));
    if before.closed || record.cancelled || signalled {
        lemma_ended(before, lane, task, Status::Cancelled);
    } else {
        match step {
            JobStep::Completed => lemma_ended(before, lane, task, Status::Completed),
            JobStep::Failed => lemma_ended(before, lane, task, Status::Failed),
            JobStep::ResourceLimit => lemma_ended(before, lane, task, Status::ResourceLimit),
            JobStep::Paused => {
                if record.woken {
                    let noted = TaskRecord { woken: false, ..record };
                    lemma_noted(before, serial, noted);
                    lemma_rotated(before.recorded(serial, noted), lane, task);
                } else if before.parked.len() >= before.parked_limit {
                    lemma_ended(before, lane, task, Status::ResourceLimit);
                } else {
                    lemma_parked(before, lane, task);
                }
            },
            JobStep::Yield => lemma_rotated(before, lane, task),
        }
    }
}

/// The first task with a serial is one with that serial, and without one there is none.
pub proof fn lemma_seat<J>(queue: Seq<PendingView<J>>, serial: u64)
    ensures
        match scheduler::seat_of(queue, serial) {
            Some(at) => 0 <= at < queue.len() && queue[at].ticket.serial == serial,
            None => forall|i: int|
                0 <= i < queue.len() ==> (#[trigger] queue[i]).ticket.serial != serial,
        },
    decreases queue.len(),
{
    if queue.len() > 0 {
        lemma_seat(queue.drop_last(), serial);
        let head = queue.drop_last();
        match scheduler::seat_of(head, serial) {
            Some(at) => {
                assert(head[at] == queue[at]);
            },
            None => {
                assert forall|i: int| 0 <= i < queue.len() && queue.last().ticket.serial
                    != serial implies (#[trigger] queue[i]).ticket.serial != serial by {
                    if i < head.len() {
                        assert(head[i] == queue[i]);
                    }
                }
            },
        }
    }
}

/// A task taken out of its part.
proof fn lemma_taken_out<J>(
    before: SchedulerView<J>,
    after: SchedulerView<J>,
    here: int,
    at: int,
    record: TaskRecord,
)
    requires
        before.wf(),
        before.place(here, at),
        here <= 2,
        forall|p: int| 0 <= p < 5 && p != here ==> #[trigger] after.part(p) == before.part(p),
        after.part(here) == before.part(here).remove(at),
        after.records == before.records.insert(before.part(here)[at].serial, record),
    ensures
        after.all_differ(),
        forall|p: int, i: int| after.place(p, i) ==> #[trigger] after.agrees(p, i),
{
    let serial = before.part(here)[at].serial;
    assert(before.agrees(here, at));
    let origin = |p: int, i: int|
        if p == here && i >= at {
            (p, i + 1)
        } else {
            (p, i)
        };
    assert forall|p: int, i: int| after.place(p, i) implies #[trigger] came_from(
        before,
        after,
        origin,
        p,
        i,
    ) by {}
    lemma_moved(before, after, origin);
    lemma_kept(before, after, origin, serial);
    assert forall|p: int, i: int| after.place(p, i) implies #[trigger] after.agrees(p, i) by {
        assert(came_from(before, after, origin, p, i));
        let from = origin(p, i);
        assert(before.part(from.0)[from.1].serial != before.part(here)[at].serial);
    }
}

/// A cancellation keeps the scheduler in order.
pub proof fn lemma_without_task<J>(before: SchedulerView<J>, serial: u64)
    requires
        before.wf(),
    ensures
        before.without_task(serial).wf(),
{
    let after = before.without_task(serial);
    lemma_seat(before.foreground, serial);
    lemma_seat(before.background, serial);
    lemma_seat(before.parked, serial);
    if before.unfinished(serial) {
        let gone = TaskRecord {
            status: Status::Cancelled,
            cancelled: true,
            ..before.records[serial]
        };
        let front = scheduler::seat_of(before.foreground, serial);
        let back = scheduler::seat_of(before.background, serial);
        let parked = scheduler::seat_of(before.parked, serial);
        if front is Some {
            lemma_tickets_remove(before.foreground, front->0);
            assert(before.part(0)[front->0].serial == serial);
            lemma_taken_out(before, after, 0, front->0, gone);
        } else if back is Some {
            lemma_tickets_remove(before.background, back->0);
            assert(before.part(1)[back->0].serial == serial);
            lemma_taken_out(before, after, 1, back->0, gone);
        } else if parked is Some {
            lemma_tickets_remove(before.parked, parked->0);
            assert(before.part(2)[parked->0].serial == serial);
            lemma_taken_out(before, after, 2, parked->0, gone);
        } else {
            let told = TaskRecord { cancelled: true, ..before.records[serial] };
            assert forall|p: int, i: int| before.place(p, i) && p <= 2 implies (
            #[trigger] before.part(p)[i]).serial != serial by {
                if p == 0 {
                    assert(before.foreground[i].ticket == before.part(p)[i]);
                } else if p == 1 {
                    assert(before.background[i].ticket == before.part(p)[i]);
                } else {
                    assert(before.parked[i].ticket == before.part(p)[i]);
                }
            }
            lemma_noted(before, serial, told);
        }
        if front is Some || back is Some {
            assert forall|l: Lane, i: int| 0 <= i < after.queue(l).len() implies (
            #[trigger] after.queue(l)[i]).lane == l by {
                let at = if front is Some && l == Lane::Foreground {
                    front->0
                } else if front is None && l == Lane::Background {
                    back->0
                } else {
                    before.queue(l).len() as int
                };
                if i < at {
                    assert(after.queue(l)[i] == before.queue(l)[i]);
                } else {
                    assert(after.queue(l)[i] == before.queue(l)[i + 1]);
                }
            }
        } else {
            assert forall|l: Lane| #[trigger] after.queue(l) == before.queue(l) by {}
        }
    }
}

/// Where the tasks of all other scopes stand.
pub open spec fn kept<J>(queue: Seq<PendingView<J>>, scope: ScopeView) -> Seq<int>
    decreases queue.len(),
{
    if queue.len() == 0 {
        Seq::empty()
    } else {
        let head = kept(queue.drop_last(), scope);
        if queue.last().ticket.scope == scope {
            head
        } else {
            head.push(queue.len() - 1)
        }
    }
}

/// The tasks of other scopes are tasks of the queue, in their order.
pub proof fn lemma_beside<J>(queue: Seq<PendingView<J>>, scope: ScopeView)
    ensures
        scheduler::beside_scope(queue, scope).len() == kept(queue, scope).len(),
        kept(queue, scope).len() <= queue.len(),
        forall|i: int|
            0 <= i < kept(queue, scope).len() ==> {
                &&& 0 <= (#[trigger] kept(queue, scope)[i]) < queue.len()
                &&& scheduler::beside_scope(queue, scope)[i] == queue[kept(queue, scope)[i]]
                &&& queue[kept(queue, scope)[i]].ticket.scope != scope
            },
        forall|i: int, j: int|
            0 <= i < j < kept(queue, scope).len() ==> (#[trigger] kept(queue, scope)[i]) < (
            #[trigger] kept(queue, scope)[j]),
    decreases queue.len(),
{
    if queue.len() > 0 {
        lemma_beside(queue.drop_last(), scope);
        let head = kept(queue.drop_last(), scope);
        assert forall|i: int| 0 <= i < head.len() implies queue[#[trigger] head[i]]
            == queue.drop_last()[head[i]] by {}
    }
}

/// The tasks of a scope are tasks of the queue.
pub proof fn lemma_of_scope<J>(queue: Seq<PendingView<J>>, scope: ScopeView)
    ensures
        forall|i: int|
            0 <= i < scheduler::of_scope(queue, scope).len() ==> (#[trigger] scheduler::of_scope(
                queue,
                scope,
            )[i]).ticket.scope == scope && queue.contains(scheduler::of_scope(queue, scope)[i]),
    decreases queue.len(),
{
    if queue.len() > 0 {
        lemma_of_scope(queue.drop_last(), scope);
        let head = scheduler::of_scope(queue.drop_last(), scope);
        assert(queue[queue.len() - 1] == queue.last());
        assert forall|i: int| 0 <= i < head.len() implies queue.contains(#[trigger] head[i]) by {
            assert(queue.drop_last().contains(head[i]));
            let j = choose|j: int| 0 <= j < queue.len() - 1 && queue.drop_last()[j] == head[i];
            assert(queue[j] == head[i]);
        }
    }
}

/// Cancelling tasks changes the records of their serials alone.
pub proof fn lemma_all_cancelled<J>(records: Map<u64, TaskRecord>, tasks: Seq<PendingView<J>>)
    ensures
        forall|serial: u64|
            (forall|i: int|
                0 <= i < tasks.len() ==> (#[trigger] tasks[i]).ticket.serial != serial) ==> (
            #[trigger] scheduler::all_cancelled(records, tasks).contains_key(serial)
                <==> records.contains_key(serial)) && scheduler::all_cancelled(
                records,
                tasks,
            )[serial] == records[serial],
        forall|serial: u64| #[trigger]
            scheduler::all_cancelled(records, tasks).contains_key(serial)
                ==> records.contains_key(serial) || exists|i: int|
                0 <= i < tasks.len() && (#[trigger] tasks[i]).ticket.serial == serial,
    decreases tasks.len(),
{
    if tasks.len() > 0 {
        let head = tasks.drop_last();
        lemma_all_cancelled(records, head);
        assert forall|serial: u64|
            (forall|i: int|
                0 <= i < tasks.len() ==> (
                #[trigger] tasks[i]).ticket.serial != serial) implies (
        #[trigger] scheduler::all_cancelled(records, tasks).contains_key(serial)
            <==> records.contains_key(serial)) && scheduler::all_cancelled(records, tasks)[serial]
            == records[serial] by {
            assert forall|i: int| 0 <= i < head.len() implies (
            #[trigger] head[i]).ticket.serial != serial by {
                assert(head[i] == tasks[i]);
            }
            assert(tasks[tasks.len() - 1].ticket.serial != serial);
            assert(scheduler::all_cancelled(records, head).contains_key(serial)
                <==> records.contains_key(serial));
        }
        assert forall|serial: u64| #[trigger]
            scheduler::all_cancelled(records, tasks).contains_key(serial) && !records.contains_key(
                serial,
            ) implies exists|i: int|
            0 <= i < tasks.len() && (#[trigger] tasks[i]).ticket.serial == serial by {
            if serial == tasks.last().ticket.serial {
                assert(tasks[tasks.len() - 1].ticket.serial == serial);
            } else {
                assert(scheduler::all_cancelled(records, head).contains_key(serial));
                let i = choose|i: int|
                    0 <= i < head.len() && (#[trigger] head[i]).ticket.serial == serial;
                assert(tasks[i].ticket.serial == serial);
            }
        }
    }
}

/// Telling a running task to stop keeps the scheduler in order.
pub proof fn lemma_signalled_active<J>(before: SchedulerView<J>, lane: Lane)
    requires
        before.wf(),
        before.active(lane) is Some,
    ensures
        before.signalled(before.active(lane)->0.serial).wf(),
{
    let there = part_of(lane) + 3;
    let serial = before.active(lane)->0.serial;
    assert(before.part(there)[0].serial == serial);
    assert(before.agrees(there, 0));
    assert forall|p: int, i: int| before.place(p, i) && p <= 2 implies (
    #[trigger] before.part(p)[i]).serial != serial by {
        assert(before.part(p)[i].serial != before.part(there)[0].serial);
    }
    lemma_noted(before, serial, TaskRecord { cancelled: true, ..before.records[serial] });
}

/// Every member of a scope has a place of its own.
pub proof fn lemma_member_place<J>(before: SchedulerView<J>, scope: ScopeView, i: int) -> (place: (
    int,
    int,
))
    requires
        0 <= i < before.members(scope).len(),
    ensures
        before.place(place.0, place.1),
        place.0 <= 2,
        before.part(place.0)[place.1] == before.members(scope)[i].ticket,
        before.members(scope)[i].ticket.scope == scope,
{
    lemma_of_scope(before.foreground, scope);
    lemma_of_scope(before.background, scope);
    lemma_of_scope(before.parked, scope);
    let a = scheduler::of_scope(before.foreground, scope);
    let b = scheduler::of_scope(before.background, scope);
    let c = scheduler::of_scope(before.parked, scope);
    let task = before.members(scope)[i];
    if i < a.len() {
        assert(task == a[i]);
        let j = choose|j: int| 0 <= j < before.foreground.len() && before.foreground[j] == task;
        assert(before.part(0)[j] == task.ticket);
        (0, j)
    } else if i < a.len() + b.len() {
        assert(task == b[i - a.len()]);
        let j = choose|j: int| 0 <= j < before.background.len() && before.background[j] == task;
        assert(before.part(1)[j] == task.ticket);
        (1, j)
    } else {
        assert(task == c[i - a.len() - b.len()]);
        let j = choose|j: int| 0 <= j < before.parked.len() && before.parked[j] == task;
        assert(before.part(2)[j] == task.ticket);
        (2, j)
    }
}

/// Cancelling a whole scope keeps the scheduler in order.
pub proof fn lemma_without_scope<J>(before: SchedulerView<J>, scope: ScopeView)
    requires
        before.wf(),
    ensures
        before.without_scope(scope).wf(),
{
    let first = before.told(Lane::Foreground, scope);
    if before.active(Lane::Foreground) is Some {
        lemma_signalled_active(before, Lane::Foreground);
    }
    let told = first.told(Lane::Background, scope);
    if first.active(Lane::Background) is Some {
        lemma_signalled_active(first, Lane::Background);
    }
    assert(told.wf());
    let after = before.without_scope(scope);
    assert forall|p: int| #[trigger] told.part(p) == before.part(p) by {}
    lemma_beside(before.foreground, scope);
    lemma_beside(before.background, scope);
    lemma_beside(before.parked, scope);
    let fg = kept(before.foreground, scope);
    let bg = kept(before.background, scope);
    let pk = kept(before.parked, scope);
    let origin = |p: int, i: int|
        if p == 0 {
            (p, fg[i])
        } else if p == 1 {
            (p, bg[i])
        } else if p == 2 {
            (p, pk[i])
        } else {
            (p, i)
        };
    assert forall|p: int, i: int| after.place(p, i) implies #[trigger] came_from(
        told,
        after,
        origin,
        p,
        i,
    ) by {
        if p == 0 {
            assert(after.foreground[i] == before.foreground[fg[i]]);
        } else if p == 1 {
            assert(after.background[i] == before.background[bg[i]]);
        } else if p == 2 {
            assert(after.parked[i] == before.parked[pk[i]]);
        } else {
            assert(after.part(p) == told.part(p));
        }
    }
    assert forall|p: int, i: int, q: int, j: int|
        #![trigger origin(p, i), origin(q, j)]
        after.place(p, i) && after.place(q, j) && (p != q || i != j) implies origin(p, i) != origin(
        q,
        j,
    ) by {
        if p == q && p == 0 {
            assert(fg[i] != fg[j]);
        } else if p == q && p == 1 {
            assert(bg[i] != bg[j]);
        } else if p == q && p == 2 {
            assert(pk[i] != pk[j]);
        }
    }
    lemma_moved(told, after, origin);
    let members = before.members(scope);
    lemma_all_cancelled(told.records, members);
    assert forall|p: int, i: int| after.place(p, i) implies #[trigger] after.agrees(p, i) by {
        assert(came_from(told, after, origin, p, i));
        let from = origin(p, i);
        assert(told.agrees(from.0, from.1));
        let serial = after.part(p)[i].serial;
        assert forall|m: int| 0 <= m < members.len() implies (
        #[trigger] members[m]).ticket.serial != serial by {
            let place = lemma_member_place(before, scope, m);
            if members[m].ticket.serial == serial {
                assert(before.part(place.0)[place.1].serial == before.part(from.0)[from.1].serial);
                assert(place == from);
                if p == 0 {
                    assert(before.foreground[fg[i]].ticket.scope != scope);
                } else if p == 1 {
                    assert(before.background[bg[i]].ticket.scope != scope);
                } else if p == 2 {
                    assert(before.parked[pk[i]].ticket.scope != scope);
                }
            }
        }
        assert(after.records.contains_key(serial) <==> told.records.contains_key(serial));
    }
    assert forall|serial: u64| #[trigger] after.records.contains_key(serial) implies serial
        < after.next by {
        if !told.records.contains_key(serial) {
            let m = choose|m: int|
                0 <= m < members.len() && (#[trigger] members[m]).ticket.serial == serial;
            let place = lemma_member_place(before, scope, m);
            assert(before.agrees(place.0, place.1));
        }
    }
    assert forall|l: Lane, i: int| 0 <= i < after.queue(l).len() implies (
    #[trigger] after.queue(l)[i]).lane == l by {
        match l {
            Lane::Foreground => {
                assert(after.queue(l)[i] == before.queue(l)[fg[i]]);
            },
            Lane::Background => {
                assert(after.queue(l)[i] == before.queue(l)[bg[i]]);
            },
        }
    }
}

/// A shutdown keeps the scheduler in order.
pub proof fn lemma_shut<J>(before: SchedulerView<J>)
    requires
        before.wf(),
    ensures
        before.shut().wf(),
{
    let first = before.stopping(Lane::Foreground);
    if before.active(Lane::Foreground) is Some {
        lemma_signalled_active(before, Lane::Foreground);
    }
    let told = first.stopping(Lane::Background);
    if first.active(Lane::Background) is Some {
        lemma_signalled_active(first, Lane::Background);
    }
    let after = before.shut();
    let everyone = before.everyone();
    lemma_all_cancelled(told.records, everyone);
    assert forall|p: int, i: int| after.place(p, i) implies p >= 3 && after.part(p) == told.part(
        p,
    ) by {
        assert(tickets_none(after.foreground) && tickets_none(after.background) && tickets_none(
            after.parked,
        ));
    }
    let origin = |p: int, i: int| (p, i);
    assert forall|p: int, i: int| after.place(p, i) implies #[trigger] came_from(
        told,
        after,
        origin,
        p,
        i,
    ) by {}
    lemma_moved(told, after, origin);
    assert forall|m: int| 0 <= m < everyone.len() implies ({
        let place = member_of_everyone(before, m);
        &&& before.place(place.0, place.1)
        &&& place.0 <= 2
        &&& before.part(place.0)[place.1] == (#[trigger] everyone[m]).ticket
    }) by {
        let place = member_of_everyone(before, m);
        if m < before.foreground.len() {
            assert(everyone[m] == before.foreground[m]);
        } else if m < before.foreground.len() + before.background.len() {
            assert(everyone[m] == before.background[m - before.foreground.len()]);
        } else {
            assert(everyone[m] == before.parked[m - before.foreground.len()
                - before.background.len()]);
        }
    }
    assert forall|p: int, i: int| after.place(p, i) implies #[trigger] after.agrees(p, i) by {
        assert(told.agrees(p, i));
        let serial = after.part(p)[i].serial;
        assert(before.part(p) == told.part(p));
        assert forall|m: int| 0 <= m < everyone.len() implies (
        #[trigger] everyone[m]).ticket.serial != serial by {
            let place = member_of_everyone(before, m);
            assert(before.part(place.0)[place.1].serial != before.part(p)[i].serial);
        }
        assert(after.records.contains_key(serial) <==> told.records.contains_key(serial));
    }
    assert forall|serial: u64| #[trigger] after.records.contains_key(serial) implies serial
        < after.next by {
        if !told.records.contains_key(serial) {
            let m = choose|m: int|
                0 <= m < everyone.len() && (#[trigger] everyone[m]).ticket.serial == serial;
            let place = member_of_everyone(before, m);
            assert(before.agrees(place.0, place.1));
        }
    }
}

spec fn tickets_none<J>(queue: Seq<PendingView<J>>) -> bool {
    scheduler::tickets_of(queue).len() == 0
}

/// Where the waiting and parked tasks stand.
spec fn member_of_everyone<J>(before: SchedulerView<J>, m: int) -> (int, int) {
    if m < before.foreground.len() {
        (0, m)
    } else if m < before.foreground.len() + before.background.len() {
        (1, m - before.foreground.len())
    } else {
        (2, m - before.foreground.len() - before.background.len())
    }
}

/// Every waiting or parked task has a place of its own.
pub proof fn lemma_everyone_place<J>(before: SchedulerView<J>, m: int) -> (place: (int, int))
    requires
        0 <= m < before.everyone().len(),
    ensures
        before.place(place.0, place.1),
        place.0 <= 2,
        before.part(place.0)[place.1] == before.everyone()[m].ticket,
{
    let place = member_of_everyone(before, m);
    if m < before.foreground.len() {
        assert(before.everyone()[m] == before.foreground[m]);
    } else if m < before.foreground.len() + before.background.len() {
        assert(before.everyone()[m] == before.background[m - before.foreground.len()]);
    } else {
        assert(before.everyone()[m] == before.parked[m - before.foreground.len()
            - before.background.len()]);
    }
    place
}

/// The task that a lane runs and the first one that waits for it are recorded.
pub proof fn lemma_lane_recorded<J>(before: SchedulerView<J>, lane: Lane)
    requires
        before.wf(),
    ensures
        before.active(lane) is Some ==> before.records.contains_key(
            before.active(lane)->0.serial,
        ),
        before.queue(lane).len() > 0 ==> before.records.contains_key(
            before.queue(lane)[0].ticket.serial,
        ),
{
    let here = part_of(lane);
    if before.active(lane) is Some {
        assert(before.place(here + 3, 0));
        assert(before.agrees(here + 3, 0));
    }
    if before.queue(lane).len() > 0 {
        assert(before.place(here, 0));
        assert(before.part(here)[0] == before.queue(lane)[0].ticket);
        assert(before.agrees(here, 0));
    }
}

} // verus!
