use directory_ui_viewer::domain::controller::{
    Admission, Cancellation, ControlError, NativeContext, RequestLedger, Scope, SessionController,
    TaskState, MAX_SAFE_INTEGER,
};
use directory_ui_viewer::domain::model::Phase;

fn context(document: u64) -> NativeContext {
    NativeContext { window: "main".into(), document }
}

fn scope(session: &str, generation: u64) -> Scope {
    Scope { session_id: session.into(), generation }
}

#[test]
fn requests_replay_expire_and_reject_payload_reuse() {
    let mut ledger = RequestLedger::new(2, 100);
    assert_eq!(ledger.admission(1, "refresh:1", 0), Ok(Admission::New));
    assert_eq!(ledger.admission(1, "refresh:1", 1), Ok(Admission::Pending));
    ledger.complete(1, 2).unwrap();
    assert_eq!(ledger.admission(1, "refresh:1", 2), Ok(Admission::Replay(2)));
    assert_eq!(ledger.admission(1, "refresh:2", 2), Err(ControlError::InvalidArgument));
    assert_eq!(ledger.admission(1, "refresh:1", 101), Err(ControlError::RequestExpired));
}

#[test]
fn pending_requests_are_bounded_and_never_reexecuted() {
    let mut ledger = RequestLedger::<bool>::new(1, 100);
    ledger.admission(1, "picker", 0).unwrap();
    assert_eq!(ledger.admission(2, "picker", 999), Err(ControlError::ResourceLimit));
    assert_eq!(ledger.admission(1, "picker", 999), Ok(Admission::Pending));
}

#[test]
fn an_answered_request_makes_room_for_a_new_one() {
    let mut ledger = RequestLedger::new(1, 100);
    assert_eq!(ledger.admission(1, "a", 0), Ok(Admission::New));
    ledger.complete(1, 7u8).unwrap();
    assert_eq!(ledger.admission(2, "b", 1), Ok(Admission::New));
    assert_eq!(ledger.admission(1, "a", 2), Err(ControlError::RequestExpired));
    assert!(ledger.complete(9, 7u8).is_err());
}

#[test]
fn reconnect_is_idempotent_only_for_the_same_native_document() {
    let mut controller = SessionController::new(context(1));
    let epoch = controller.connect(&context(1), "nonce1").unwrap();
    let ticket = controller.begin_selection(&context(1), epoch).unwrap();
    controller.accept_selection(&ticket, "s".into()).unwrap();
    assert_eq!(controller.connect(&context(1), "nonce1"), Ok(epoch));
    assert!(controller.scope.is_some());
    assert_eq!(controller.connect(&context(1), "nonce2"), Err(ControlError::ClientExpired));
    controller.document_loaded(context(2));
    assert!(controller.scope.is_none());
    assert_eq!(controller.connect(&context(1), "nonce1"), Err(ControlError::ClientExpired));
    assert_ne!(controller.connect(&context(2), "nonce2").unwrap(), epoch);
    assert_eq!(
        controller.accept_selection(&ticket, "old".into()),
        Err(ControlError::ClientExpired)
    );
}

#[test]
fn one_picker_at_a_time_even_while_old_callback_is_draining() {
    let mut controller = SessionController::new(context(1));
    let epoch = controller.connect(&context(1), "nonce").unwrap();
    let ticket = controller.begin_selection(&context(1), epoch).unwrap();
    assert!(matches!(
        controller.begin_selection(&context(1), epoch),
        Err(ControlError::ResourceLimit)
    ));
    controller.close();
    assert!(matches!(
        controller.begin_selection(&context(1), epoch),
        Err(ControlError::ResourceLimit)
    ));
    controller.dismiss_selection(&ticket).unwrap();
    let newer = controller.begin_selection(&context(1), epoch).unwrap();
    assert_eq!(controller.dismiss_selection(&ticket), Err(ControlError::ClientExpired));
    controller.dismiss_selection(&newer).unwrap();
}

#[test]
fn close_invalidates_picker_and_refresh_rejects_old_generation() {
    let mut controller = SessionController::new(context(1));
    let epoch = controller.connect(&context(1), "nonce").unwrap();
    let ticket = controller.begin_selection(&context(1), epoch).unwrap();
    controller.close();
    assert_eq!(
        controller.accept_selection(&ticket, "old".into()),
        Err(ControlError::ClientExpired)
    );
    let ticket = controller.begin_selection(&context(1), epoch).unwrap();
    let scope = controller.accept_selection(&ticket, "s".into()).unwrap();
    assert_eq!(controller.refresh(&scope).unwrap().generation, 2);
    assert_eq!(controller.refresh(&scope), Err(ControlError::StaleGeneration));
}

#[test]
fn scope_replacement_signals_old_workers_without_cancelling_new_scope() {
    let mut controller = SessionController::new(context(1));
    let epoch = controller.connect(&context(1), "nonce").unwrap();
    let first = controller.begin_selection(&context(1), epoch).unwrap();
    controller.accept_selection(&first, "s1".into()).unwrap();
    let old = controller.cancellation_token();
    let second = controller.begin_selection(&context(1), epoch).unwrap();
    assert!(!old.is_cancelled()); // picker cancellation would preserve old root
    controller.accept_selection(&second, "s2".into()).unwrap();
    assert!(old.is_cancelled());
    let current = controller.cancellation_token();
    assert!(!current.is_cancelled());
    controller.document_loaded(context(1));
    assert!(!current.is_cancelled()); // duplicate native load notification
    controller.close();
    assert!(current.is_cancelled());
}

#[test]
fn worker_publication_respects_generation_cancellation_and_terminal_state() {
    let scope = scope("s", 1);
    let mut task = TaskState {
        scope: scope.clone(),
        phase: Phase::Running,
        sequence: 0,
        cancel_requested: false,
        cancellation: Cancellation::default(),
    };
    assert!(!task.publish(
        &Scope { generation: 2, ..scope.clone() },
        Phase::Completed
    ));
    assert!(task.cancel());
    assert!(!task.cancellation.is_cancelled()); // individual cancel is not a session-wide signal
    assert!(!task.publish(&scope, Phase::Completed));
    assert!(task.publish(&scope, Phase::Cancelled));
    assert!(!task.publish(&scope, Phase::Running));
    assert!(!task.cancel());
}

#[test]
fn a_session_wide_signal_lets_only_cancellation_through() {
    let scope = scope("s", 1);
    let token = Cancellation::default();
    let mut task = TaskState {
        scope: scope.clone(),
        phase: Phase::Running,
        sequence: MAX_SAFE_INTEGER - 1,
        cancel_requested: false,
        cancellation: token.clone(),
    };
    token.cancel();
    assert!(!task.publish(&scope, Phase::Completed));
    assert!(task.publish(&scope, Phase::Cancelled));
    assert_eq!(task.sequence, MAX_SAFE_INTEGER);
}

#[test]
fn sequences_beyond_the_wire_are_not_published() {
    let scope = scope("s", 1);
    let mut task = TaskState {
        scope: scope.clone(),
        phase: Phase::Running,
        sequence: MAX_SAFE_INTEGER,
        cancel_requested: false,
        cancellation: Cancellation::default(),
    };
    assert!(!task.publish(&scope, Phase::Completed));
    assert_eq!(task.sequence, MAX_SAFE_INTEGER);
}

#[test]
fn a_scope_is_checked_before_the_generation() {
    let mut controller = SessionController::new(context(1));
    let epoch = controller.connect(&context(1), "nonce").unwrap();
    let expected = scope("s", 1);
    assert_eq!(
        controller.validate(&context(1), epoch, Some(&expected)),
        Err(ControlError::SessionClosed)
    );
    let ticket = controller.begin_selection(&context(1), epoch).unwrap();
    controller.accept_selection(&ticket, "s".into()).unwrap();
    assert_eq!(controller.validate(&context(1), epoch, Some(&expected)), Ok(()));
    assert_eq!(
        controller.validate(&context(1), epoch, Some(&scope("other", 1))),
        Err(ControlError::SessionClosed)
    );
    assert_eq!(
        controller.validate(&context(1), epoch, Some(&scope("s", 2))),
        Err(ControlError::StaleGeneration)
    );
    assert_eq!(
        controller.validate(&context(2), epoch, None),
        Err(ControlError::ClientExpired)
    );
}

#[test]
fn scopes_have_bounds() {
    assert!(scope("s", 1).is_valid());
    assert!(!scope("", 1).is_valid());
    assert!(!scope("s", 0).is_valid());
    assert!(scope(&"x".repeat(128), MAX_SAFE_INTEGER).is_valid());
    assert!(!scope(&"x".repeat(129), 1).is_valid());
    assert!(!scope("s", MAX_SAFE_INTEGER + 1).is_valid());
}

#[test]
fn the_first_result_of_a_request_stays_through_other_requests() {
    let mut ledger = RequestLedger::new(4, 100);
    assert_eq!(ledger.admission(3, "a", 0), Ok(Admission::New));
    ledger.complete(3, 'x').unwrap();
    ledger.complete(3, 'y').unwrap();
    assert_eq!(ledger.admission(4, "b", 1), Ok(Admission::New));
    ledger.complete(4, 'z').unwrap();
    assert_eq!(ledger.admission(3, "a", 2), Ok(Admission::Replay('x')));
    assert_eq!(ledger.admission(2, "c", 2), Err(ControlError::RequestExpired));
}
