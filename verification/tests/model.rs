use directory_ui_viewer::domain::model::{
    Bytes, Category, Coverage, DirectoryUsage, Entry, EventKind, Field, FollowPolicy, FsIssue, IssueScope,
    Issues, Kind, ListingPage, Measure, Operation, Phase, Reason, ScanState, SpecialType,
    WaitReason, WorkEvent, WorkRecord,
};
use directory_ui_viewer::domain::summary::summaries_fit;
use directory_ui_viewer::domain::wire::{
    encode_entry, encode_event, encode_issue, encode_measure, encode_page, encode_usage,
    encode_usages, encode_work, estimate_entry, estimate_issue, estimate_issues, estimate_work,
    quoted_len,
};

fn issue(code: &str) -> FsIssue {
    FsIssue {
        code: code.into(),
        operation: "list".into(),
        scope: IssueScope::Entry,
        entry_id: None,
        native_code: Some(13),
    }
}

fn work() -> WorkRecord {
    WorkRecord {
        session_id: "s".into(),
        generation: 1,
        task_id: "t".into(),
        operation: Operation::ScanUsage,
        target_id: "root".into(),
        phase: Phase::Queued,
        wait_reason: Some(WaitReason::PageDemand),
        sequence: 7,
        processed_entries: 3_u64.into(),
        processed_directories: 0_u64.into(),
        observed_at: "2026-09-13T00:00:00Z".into(),
        issues: Issues::default(),
    }
}

/// Numbers of bytes travel as JSON strings.
fn from_json(json: &str) -> Option<Bytes> {
    serde_json::from_str::<String>(json).ok().and_then(|text| Bytes::parse(&text))
}

#[test]
fn bytes_reject_lossy_or_noncanonical_values() {
    for value in ["-1", "01", "1e3", "1.0", ""] {
        assert!(from_json(&format!("\"{value}\"")).is_none());
    }
    assert!(from_json("9007199254740993").is_none());
    assert_eq!(
        serde_json::to_string(Bytes::from(9007199254740993_u64).text()).unwrap(),
        "\"9007199254740993\""
    );
    assert_eq!(from_json("\"9007199254740993\""), Some(Bytes::from(9007199254740993_u64)));
    assert_eq!(from_json("\"0\""), Some(Bytes::from(0_u64)));
}

#[test]
fn error_samples_are_bounded_without_losing_counts() {
    let mut issues = Issues::default();
    for _ in 0..10_000 {
        issues.record(issue("PERMISSION_DENIED"));
    }
    assert_eq!(issues.samples.len(), 32);
    assert_eq!(issues.counts.get("PERMISSION_DENIED"), Some(&Bytes::from(10_000_u64)));
}

#[test]
fn unrecognised_codes_are_counted_together() {
    let mut issues = Issues::default();
    for n in 0..5 {
        issues.record(issue(&format!("UNRECOGNIZED_{n}")));
    }
    assert_eq!(issues.counts.len(), 1);
    assert_eq!(issues.counts.get("INTERNAL"), Some(&Bytes::from(5_u64)));
    assert_eq!(issues.samples[4].code, "UNRECOGNIZED_4");
}

#[test]
fn bytes_hold_more_than_64_bits() {
    let large = Bytes::from(u128::MAX);
    assert_eq!(large.text(), "340282366920938463463374607431768211455");
    assert_eq!(large.to_u64(), None);
    assert_eq!(Bytes::of(u64::MAX as u128).to_u64(), Some(u64::MAX));
}

#[test]
fn reasons_have_an_order() {
    let mut reasons = vec![
        Reason::ExcludedByPolicy,
        Reason::Overflow,
        Reason::Scanning,
        Reason::ResourceLimit,
        Reason::Cancelled,
        Reason::ReadError,
        Reason::ChangedDuringScan,
        Reason::Unsupported,
    ];
    reasons.sort();
    assert_eq!(
        reasons,
        vec![
            Reason::Scanning,
            Reason::ReadError,
            Reason::Cancelled,
            Reason::Unsupported,
            Reason::ChangedDuringScan,
            Reason::Overflow,
            Reason::ResourceLimit,
            Reason::ExcludedByPolicy,
        ]
    );
    for (place, reason) in reasons.iter().enumerate() {
        assert_eq!(reason.place() as usize, place);
    }
}

#[test]
fn phases_end() {
    assert!(!Phase::Queued.terminal());
    assert!(!Phase::Running.terminal());
    assert!(Phase::Completed.terminal());
    assert!(Phase::Cancelled.terminal());
    assert!(Phase::Failed.terminal());
}

#[test]
fn texts_are_quoted_as_json() {
    for text in ["plain", "a\"b\\c", "tab\tnew\nline", "\u{1}\u{1f}", "\u{754c}\u{1f600}", ""] {
        assert_eq!(quoted_len(text), serde_json::to_string(text).unwrap().len());
    }
}

#[test]
fn issues_are_encoded_without_absent_fields() {
    assert_eq!(
        encode_issue(&issue("IO")),
        "{\"code\":\"IO\",\"operation\":\"list\",\"scope\":\"entry\",\"nativeCode\":13}"
    );
}

#[test]
fn measurements_are_encoded_by_their_state() {
    assert_eq!(encode_measure(&Measure::Unknown), "{\"state\":\"unknown\"}");
    assert_eq!(
        encode_measure(&Measure::Complete { bytes: 9_u64.into() }),
        "{\"state\":\"complete\",\"bytes\":\"9\"}"
    );
    assert_eq!(
        encode_measure(&Measure::Partial {
            observed_bytes: 1_u64.into(),
            reasons: vec![Reason::ReadError, Reason::ResourceLimit],
        }),
        "{\"state\":\"partial\",\"observedBytes\":\"1\",\"reasons\":[\"readError\",\
         \"resourceLimit\"]}"
    );
    assert_eq!(
        encode_measure(&Measure::Unavailable { reason: Reason::Unsupported }),
        "{\"state\":\"unavailable\",\"reason\":\"unsupported\"}"
    );
}

#[test]
fn encoded_values_are_json() {
    let entry = Entry {
        entry_id: "e".into(),
        parent_id: Some("p".into()),
        display_name: "na\"me".into(),
        kind: Kind::RegularFile,
        hidden: Field::Known { value: true },
        special_type: Field::Known { value: SpecialType::Ordinary },
        modified_at: Field::Unknown,
        own_logical_bytes: Field::Known { value: 1_u64.into() },
        own_allocated_bytes: Field::Unsupported,
        observed_at: "2026-09-13T00:00:00Z".into(),
        follow_policy: FollowPolicy::Never,
    };
    let parsed: serde_json::Value = serde_json::from_str(&encode_entry(&entry)).unwrap();
    assert_eq!(parsed["displayName"], "na\"me");
    assert_eq!(parsed["hidden"]["value"], true);
    assert_eq!(parsed["specialType"]["value"], "none");
    assert_eq!(parsed["ownLogicalBytes"]["value"], "1");
    let json = encode_work(&work());
    let parsed: serde_json::Value = serde_json::from_str(&json).unwrap();
    assert_eq!(parsed["waitReason"], "pageDemand");
    assert_eq!(parsed["operation"], "scanUsage");
    let usage = DirectoryUsage {
        directory_id: "d".into(),
        usage_revision: 2,
        scan_state: ScanState::NotRequested,
        logical: Measure::Unknown,
        allocated: Measure::Unknown,
        observed_at: "now".into(),
    };
    let parsed: serde_json::Value = serde_json::from_str(&encode_usage(&usage)).unwrap();
    assert_eq!(parsed["scanState"], "notRequested");
    let both = encode_usages(&vec![usage.clone(), usage]);
    let parsed: serde_json::Value = serde_json::from_str(&both).unwrap();
    assert_eq!(parsed.as_array().unwrap().len(), 2);
    let page = ListingPage {
        work: work(),
        listing_revision: "r".into(),
        directory_id: "d".into(),
        category: Category::Files,
        entries: vec![entry],
        cursor: None,
        next_cursor: Some("c".into()),
        coverage: Coverage::Partial,
        issues: Issues::default(),
    };
    let parsed: serde_json::Value = serde_json::from_str(&encode_page(&page)).unwrap();
    assert_eq!(parsed["nextCursor"], "c");
    assert_eq!(parsed["coverage"], "partial");
    let event = WorkEvent {
        protocol_version: 1,
        session_id: "s".into(),
        generation: 1,
        task_id: "t".into(),
        sequence: 9,
        kind: EventKind::ListingAvailable,
        observed_at: "now".into(),
    };
    assert_eq!(
        encode_event(&event),
        "{\"protocolVersion\":1,\"sessionId\":\"s\",\"generation\":1,\"taskId\":\"t\",\
         \"sequence\":9,\"kind\":\"listingAvailable\",\"observedAt\":\"now\"}"
    );
}

#[test]
fn estimates_grow_with_what_is_stored() {
    let small = estimate_issue(&issue("IO"));
    let large = estimate_issue(&issue(&"X".repeat(1000)));
    assert!(large >= small + 998);
    assert!(estimate_work(&work()) >= encode_work(&work()).len());
    let mut issues = Issues::default();
    let before = estimate_issues(&issues);
    issues.record(issue("IO"));
    assert!(estimate_issues(&issues) > before);
    let mut entry = Entry {
        entry_id: "e".into(),
        parent_id: None,
        display_name: "n".into(),
        kind: Kind::Directory,
        hidden: Field::Unknown,
        special_type: Field::Unknown,
        modified_at: Field::Unknown,
        own_logical_bytes: Field::Unknown,
        own_allocated_bytes: Field::Unknown,
        observed_at: "now".into(),
        follow_policy: FollowPolicy::Never,
    };
    let before = estimate_entry(&entry);
    entry.display_name = "n".repeat(100);
    assert!(estimate_entry(&entry) >= before + 99);
}

#[test]
fn ordinary_summaries_fit_their_room() {
    assert!(summaries_fit("g1", "2026-09-13T00:00:00.000Z"));
    assert!(!summaries_fit(&"g".repeat(1000), "2026-09-13T00:00:00.000Z"));
}
