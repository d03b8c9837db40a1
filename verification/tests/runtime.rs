use directory_ui_viewer::domain::model::{EventKind, Issues, Operation, Phase, WorkRecord};
use directory_ui_viewer::runtime::clock::{clipped_millis, Clock, SystemClock};
use directory_ui_viewer::runtime::events::{DiscardEvents, EventChannel, EventSink, TaskEvents};
use directory_ui_viewer::runtime::memory::{ByteBudget, ManagedBudgets, ResourceLimit};

fn work(sequence: u64, phase: Phase) -> WorkRecord {
    WorkRecord {
        session_id: "s".into(),
        generation: 1,
        task_id: "t".into(),
        operation: Operation::ScanUsage,
        target_id: "root".into(),
        phase,
        wait_reason: None,
        sequence,
        processed_entries: sequence.into(),
        processed_directories: 0_u64.into(),
        observed_at: "2026-09-13T00:00:00Z".into(),
        issues: Issues::default(),
    }
}

#[test]
fn progress_is_coalesced_to_five_per_second_and_terminal_bypasses_throttle() {
    let (sink, rx) = EventChannel::bounded(10);
    let mut events = TaskEvents::default();
    for ms in 0..1000 {
        events.publish(&work(ms + 1, Phase::Running), EventKind::UsageChanged, ms, &sink);
    }
    assert_eq!(
        rx.try_iter().map(|e| e.sequence).collect::<Vec<_>>(),
        vec![1, 201, 401, 601, 801]
    );
    assert!(events.publish(&work(1001, Phase::Completed), EventKind::Progress, 999, &sink));
    assert_eq!(rx.try_recv().unwrap().kind, EventKind::Terminal);
    assert!(!events.publish(&work(1002, Phase::Running), EventKind::UsageChanged, 1200, &sink));
}

#[test]
fn full_channel_drops_notifications_without_waiting_or_unbounded_retries() {
    let (sink, rx) = EventChannel::bounded(1);
    let mut events = TaskEvents::default();
    assert!(events.publish(&work(1, Phase::Running), EventKind::UsageChanged, 0, &sink));
    for sequence in 2..10_000 {
        assert!(!events.publish(
            &work(sequence, Phase::Running),
            EventKind::Progress,
            sequence * 200,
            &sink
        ));
    }
    assert!(!events.publish(
        &work(10_000, Phase::Completed),
        EventKind::Progress,
        2_000_000,
        &sink
    ));
    assert_eq!(rx.try_iter().count(), 1);
    assert!(!events.publish(
        &work(10_000, Phase::Completed),
        EventKind::Terminal,
        2_000_001,
        &sink
    ));
}

#[test]
fn a_notification_says_what_the_work_says() {
    let mut events = TaskEvents::default();
    let event = events.prepare(&work(3, Phase::Running), EventKind::Progress, 50).unwrap();
    assert_eq!(event.protocol_version, 1);
    assert_eq!(event.session_id, "s");
    assert_eq!(event.task_id, "t");
    assert_eq!(event.sequence, 3);
    assert_eq!(event.kind, EventKind::Progress);
    assert!(events.prepare(&work(3, Phase::Running), EventKind::Progress, 500).is_none());
    assert!(events.prepare(&work(4, Phase::Running), EventKind::Progress, 249).is_none());
    assert!(events.prepare(&work(4, Phase::Running), EventKind::Progress, 250).is_some());
    assert!(!DiscardEvents.try_emit(event));
}

#[test]
fn reservations_keep_their_old_size_on_failure_and_release_exactly_once() {
    let mut budget = ByteBudget::new(10);
    let mut first = budget.reserve(6).unwrap();
    let second = budget.reserve(4).unwrap();
    assert_eq!(first.resize(&mut budget, 7), Err(ResourceLimit));
    assert_eq!(first.bytes(), 6);
    assert_eq!(budget.used(), 10);
    first.resize(&mut budget, 3).unwrap();
    assert_eq!(budget.used(), 7);
    second.release(&mut budget);
    assert_eq!(budget.used(), 3);
    first.resize(&mut budget, 10).unwrap();
    assert_eq!(budget.used(), 10);
    assert_eq!(budget.peak(), 10);
    first.release(&mut budget);
    assert_eq!(budget.used(), 0);
    assert!(budget.reserve(usize::MAX).is_err());
    assert_eq!(budget.used(), 0);
}

#[test]
fn default_budgets_add_up() {
    let defaults = ManagedBudgets::default();
    assert_eq!(
        defaults.background_index.limit()
            + defaults.foreground_index.limit()
            + defaults.listings.limit()
            + defaults.hardlinks.limit()
            + defaults.work.limit(),
        128 * 1024 * 1024
    );
    assert_eq!(defaults.used(), 0);
}

#[test]
fn a_full_pool_refuses_until_something_is_given_back() {
    let mut budget = ByteBudget::new(7);
    let mut held = Vec::new();
    for _ in 0..16 {
        if let Ok(reservation) = budget.reserve(1) {
            held.push(reservation);
        }
    }
    assert_eq!(held.len(), 7);
    assert_eq!(budget.used(), 7);
    assert_eq!(budget.peak(), 7);
    for reservation in held {
        reservation.release(&mut budget);
    }
    assert_eq!(budget.used(), 0);
    assert_eq!(budget.peak(), 7);
}

#[test]
fn the_system_clock_goes_on_and_stamps_in_utc() {
    let clock = SystemClock::default();
    let first = clock.sample();
    let second = clock.sample();
    assert!(second.monotonic_ms >= first.monotonic_ms);
    assert_eq!(first.observed_at.len(), "2026-09-13T00:00:00.000Z".len());
    assert!(first.observed_at.ends_with('Z'));
    assert!(chrono::DateTime::parse_from_rfc3339(&first.observed_at).is_ok());
}

#[test]
fn long_times_are_clipped() {
    assert_eq!(clipped_millis(5), 5);
    assert_eq!(clipped_millis(u64::MAX as u128), u64::MAX);
    assert_eq!(clipped_millis(u64::MAX as u128 + 1), u64::MAX);
}
