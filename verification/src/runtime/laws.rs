//! What notifications and memory pools are for.
use vstd::prelude::*;

use crate::domain::model::{EventKind, Phase, WorkView};
use crate::runtime::clock;
use crate::runtime::events::TaskEventsView;
use crate::runtime::memory;
use crate::runtime::memory::PoolView;

verus! {

/// Whether work is over.
pub open spec fn is_over(work: WorkView) -> bool {
    work.phase == Phase::Completed || work.phase == Phase::Failed || work.phase == Phase::Cancelled
}

/// A state of a task is notified when it is new and nothing was said of the end yet, and, unless it
/// is the end, when at least 200 milliseconds have passed since the last notification. The first
/// state is notified at once. What was notified is remembered, and nothing else is.
pub proof fn states_are_notified_when_due(events: TaskEventsView, work: WorkView, now: u64)
    ensures
        ({
            let new = events.last_sequence is None || events.last_sequence->0 < work.sequence;
            let rested = events.last_attempt_ms is None || events.last_attempt_ms->0 + 200 <= now;
            let due = !events.terminal && new && (is_over(work) || rested);
            let after = events.after(work, now);
            &&& events.offers(work, now) == due
            &&& due ==> {
                &&& after.last_attempt_ms == Some(now)
                &&& after.last_sequence == Some(work.sequence)
                &&& after.terminal == is_over(work)
            }
            &&& !due ==> after == events
        }),
        TaskEventsView::none().offers(work, now),
{
}

/// A notification tells which task of which session and generation it is about, how far that was
/// then and when, and of what kind the change is; the end of a task is told as the end.
pub proof fn notifications_tell_of_their_task(
    events: TaskEventsView,
    work: WorkView,
    kind: EventKind,
)
    ensures
        ({
            let event = events.offer(work, kind);
            &&& event.protocol_version == 1
            &&& event.session_id == work.session_id
            &&& event.generation == work.generation
            &&& event.task_id == work.task_id
            &&& event.sequence == work.sequence
            &&& event.observed_at == work.observed_at
            &&& event.kind == (if is_over(work) {
                EventKind::Terminal
            } else {
                kind
            })
        }),
{
}

/// Memory is granted exactly as long as what is in use stays within the limit; what a reservation
/// held before counts as free when it is resized, and one that shrinks is never refused.
pub proof fn memory_is_granted_within_the_limit(pool: PoolView, id: int, bytes: nat)
    requires
        pool.wf(),
        0 <= id < pool.sizes.len(),
    ensures
        pool.affords(bytes) <==> pool.used + bytes <= pool.limit,
        pool.fits(pool.sizes[id], bytes) <==> bytes <= pool.sizes[id] || pool.used + bytes
            <= pool.limit + pool.sizes[id],
        pool.reserved(bytes).used == pool.used + bytes,
        pool.reserved(bytes).sizes.len() == pool.sizes.len() + 1,
        pool.reserved(bytes).sizes[pool.sizes.len() as int] == bytes,
        pool.reserved(bytes).sizes[id] == pool.sizes[id],
        pool.reserved(bytes).peak >= pool.used + bytes,
        pool.reserved(bytes).peak >= pool.peak,
        pool.reserved(bytes).peak == pool.peak || pool.reserved(bytes).peak == pool.used + bytes,
        pool.resized(id, bytes).sizes[id] == bytes,
        pool.resized(id, bytes).used + pool.sizes[id] == pool.used + bytes,
        pool.resized(id, bytes).limit == pool.limit,
        pool.resized(id, bytes).peak >= pool.resized(id, bytes).used,
        pool.resized(id, bytes).peak >= pool.peak,
        pool.resized(id, bytes).peak == pool.peak || pool.resized(id, bytes).peak
            == pool.resized(id, bytes).used,
{
    memory::lemma_total_update(pool.sizes, id, 0);
}

/// Time is told in whole milliseconds, and as the largest number of 64 bits where they do not hold
/// it.
pub proof fn milliseconds_are_clipped(millis: u128)
    ensures
        millis <= 0xffff_ffff_ffff_ffff ==> clock::clip(millis) == millis,
        millis > 0xffff_ffff_ffff_ffff ==> clock::clip(millis) == 0xffff_ffff_ffff_ffff,
{
}

} // verus!
