//! Bounded, best-effort notifications. Work and cache state is authoritative.
use std::sync::mpsc::{sync_channel, Receiver, SyncSender};

use vstd::prelude::*;

use crate::domain::model::{EventKind, EventView, WorkEvent, WorkRecord, WorkView};

verus! {

/// The sending half of a bounded channel.
#[verifier::external_type_specification]
#[verifier::external_body]
#[verifier::reject_recursive_types(T)]
pub struct ExSyncSender<T>(std::sync::mpsc::SyncSender<T>);

/// The receiving half of a channel.
#[verifier::external_type_specification]
#[verifier::external_body]
#[verifier::reject_recursive_types(T)]
pub struct ExReceiver<T>(std::sync::mpsc::Receiver<T>);

/// `std::sync::mpsc::sync_channel`: a new channel with room for `capacity` waiting messages. What
/// the channel does later rests on both of its ends, so nothing is promised of them.
#[verifier::external_body]
fn channel(capacity: usize) -> (SyncSender<WorkEvent>, Receiver<WorkEvent>) {
    sync_channel(capacity)
}

/// `SyncSender::try_send`: whether the message was taken without waiting. The answer rests on
/// what the receiver has read, so nothing is promised of it.
#[verifier::external_body]
fn try_send(sender: &SyncSender<WorkEvent>, event: WorkEvent) -> bool {
    sender.try_send(event).is_ok()
}

/// Where notifications go.
pub trait EventSink: Send + Sync {
    /// Must not wait for a consumer, perform I/O, or call back into a service.
    fn try_emit(&self, event: WorkEvent) -> bool;
}

/// Takes no notification.
pub struct DiscardEvents;

impl EventSink for DiscardEvents {
    fn try_emit(&self, event: WorkEvent) -> (taken: bool)
        ensures
            !taken,
    {
        false
    }
}

/// A channel of bounded length.
pub struct EventChannel {
    sender: SyncSender<WorkEvent>,
}

impl EventChannel {
    /// Whether these are both ends of one new channel with room for `capacity` waiting
    /// notifications.
    pub closed spec fn is_pair(capacity: usize, pair: (Self, Receiver<WorkEvent>)) -> bool {
        call_ensures(channel, (capacity,), (pair.0.sender, pair.1))
    }

    /// Whether this is an answer that the channel gives to a notification. It rests on what the
    /// other end has read.
    pub closed spec fn answers(&self, event: WorkEvent, taken: bool) -> bool {
        call_ensures(try_send, (&self.sender, event), taken)
    }

    /// Both ends of a channel with room for `capacity` waiting notifications.
    pub fn bounded(capacity: usize) -> (pair: (Self, Receiver<WorkEvent>))
        ensures
            Self::is_pair(capacity, pair),
    {
        let (sender, receiver) = channel(capacity);
        (EventChannel { sender }, receiver)
    }
}

impl EventSink for EventChannel {
    /// Hands the notification to the channel, and says whether the channel took it.
    fn try_emit(&self, event: WorkEvent) -> (taken: bool)
        ensures
            self.answers(event, taken),
    {
        try_send(&self.sender, event)
    }
}

/// How many milliseconds lie at least between two notifications of progress.
pub const PROGRESS_INTERVAL_MS: u64 = 200;

/// What was offered of one task so far.
#[derive(Debug)]
pub struct TaskEvents {
    last_attempt_ms: Option<u64>,
    last_sequence: Option<u64>,
    terminal: bool,
}

/// When something was offered last, up to which sequence, and whether that was the end.
#[verifier::ext_equal]
pub struct TaskEventsView {
    pub last_attempt_ms: Option<u64>,
    pub last_sequence: Option<u64>,
    pub terminal: bool,
}

impl View for TaskEvents {
    type V = TaskEventsView;

    closed spec fn view(&self) -> TaskEventsView {
        TaskEventsView {
            last_attempt_ms: self.last_attempt_ms,
            last_sequence: self.last_sequence,
            terminal: self.terminal,
        }
    }
}

/// Whether a notification was handed to a sink, with this answer.
pub open spec fn handed<E: EventSink + ?Sized>(sink: &E, event: EventView, taken: bool) -> bool {
    exists|given: WorkEvent|
        given@ == event && #[trigger] call_ensures(E::try_emit, (sink, given), taken)
}

/// Whether a notification was offered to a sink, whatever the answer.
pub open spec fn offered<E: EventSink + ?Sized>(sink: &E, event: EventView) -> bool {
    exists|taken: bool| #[trigger] handed(sink, event, taken)
}

impl TaskEventsView {
    /// Nothing was offered yet.
    pub open spec fn none() -> TaskEventsView {
        TaskEventsView { last_attempt_ms: None, last_sequence: None, terminal: false }
    }

    /// Whether a state of the task is offered: it is new, and progress comes neither after the end
    /// nor too soon after the last offer.
    pub open spec fn offers(self, work: WorkView, now: u64) -> bool {
        &&& !self.terminal
        &&& self.last_sequence is Some ==> self.last_sequence->0 < work.sequence
        &&& !work.phase.is_terminal() && self.last_attempt_ms is Some ==> now
            - self.last_attempt_ms->0 >= PROGRESS_INTERVAL_MS
    }

    /// What is offered.
    pub open spec fn offer(self, work: WorkView, kind: EventKind) -> EventView {
        EventView {
            protocol_version: 1,
            session_id: work.session_id,
            generation: work.generation,
            task_id: work.task_id,
            sequence: work.sequence,
            kind: if work.phase.is_terminal() {
                EventKind::Terminal
            } else {
                kind
            },
            observed_at: work.observed_at,
        }
    }

    /// What is remembered after a state of the task was seen.
    pub open spec fn after(self, work: WorkView, now: u64) -> TaskEventsView {
        if self.offers(work, now) {
            TaskEventsView {
                last_attempt_ms: Some(now),
                last_sequence: Some(work.sequence),
                terminal: work.phase.is_terminal(),
            }
        } else {
            self
        }
    }
}

impl Default for TaskEvents {
    fn default() -> (events: Self)
        ensures
            events@ == TaskEventsView::none(),
    {
        TaskEvents { last_attempt_ms: None, last_sequence: None, terminal: false }
    }
}

impl TaskEvents {
    /// The notification of a state of the task, where one is due. It counts as offered.
    pub fn prepare(&mut self, work: &WorkRecord, kind: EventKind, now: u64) -> (event: Option<
        WorkEvent,
    >)
        ensures
            final(self)@ == old(self)@.after(work@, now),
            event is Some <==> old(self)@.offers(work@, now),
            event is Some ==> event->0@ == old(self)@.offer(work@, kind),
    {
        if self.terminal {
            return None;
        }
        if let Some(last) = self.last_sequence {
            if last >= work.sequence {
                return None;
            }
        }
        let terminal = work.phase.terminal();
        if !terminal {
            if let Some(last) = self.last_attempt_ms {
                if now.saturating_sub(last) < PROGRESS_INTERVAL_MS {
                    return None;
                }
            }
        }
        self.last_attempt_ms = Some(now);
        self.last_sequence = Some(work.sequence);
        self.terminal = terminal;
        Some(
            WorkEvent {
                protocol_version: 1,
                session_id: work.session_id.clone(),
                generation: work.generation,
                task_id: work.task_id.clone(),
                sequence: work.sequence,
                kind: if terminal {
                    EventKind::Terminal
                } else {
                    kind
                },
                observed_at: work.observed_at.clone(),
            },
        )
    }

    /// Offers a state of the task to a sink, where a notification is due. Nothing that the sink
    /// refuses is offered again.
    pub fn publish<E: EventSink + ?Sized>(
        &mut self,
        work: &WorkRecord,
        kind: EventKind,
        now: u64,
        sink: &E,
    ) -> (taken: bool)
        ensures
            final(self)@ == old(self)@.after(work@, now),
            !old(self)@.offers(work@, now) ==> !taken,
            old(self)@.offers(work@, now) ==> handed(sink, old(self)@.offer(work@, kind), taken),
    {
        match self.prepare(work, kind, now) {
            Some(event) => {
                let ghost given = event;
                let taken = sink.try_emit(event);
                assert(call_ensures(E::try_emit, (sink, given), taken));
                taken
            },
            None => false,
        }
    }
}

/// Progress is offered at most five times a second: after an offer no other state of a task that
/// goes on is offered within the interval.
pub proof fn progress_is_coalesced(
    events: TaskEventsView,
    first: WorkView,
    first_ms: u64,
    second: WorkView,
    second_ms: u64,
)
    requires
        events.offers(first, first_ms),
        !second.phase.is_terminal(),
        second_ms < first_ms + PROGRESS_INTERVAL_MS,
    ensures
        !events.after(first, first_ms).offers(second, second_ms),
{
}

/// The end of a task is offered whatever the interval, when it is new, and nothing after it.
pub proof fn the_end_is_offered_once(
    events: TaskEventsView,
    last: WorkView,
    now: u64,
    later: WorkView,
    later_ms: u64,
)
    requires
        last.phase.is_terminal(),
        !events.terminal,
        events.last_sequence is Some ==> events.last_sequence->0 < last.sequence,
    ensures
        events.offers(last, now),
        events.offer(last, EventKind::Progress).kind is Terminal,
        !events.after(last, now).offers(later, later_ms),
{
}

/// No state of a task is offered twice, and none after a later one.
pub proof fn sequences_only_grow(
    events: TaskEventsView,
    first: WorkView,
    first_ms: u64,
    second: WorkView,
    second_ms: u64,
)
    requires
        events.offers(first, first_ms),
        events.after(first, first_ms).offers(second, second_ms),
    ensures
        first.sequence < second.sequence,
{
}

} // verus!
