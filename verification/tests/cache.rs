use directory_ui_viewer::domain::model::{
    Category, Coverage, Entry, Field, FollowPolicy, FsIssue, IssueScope, Issues, Kind, Operation,
    Phase, WaitReason, WorkRecord,
};
use directory_ui_viewer::domain::wire::{encode_page, estimate_entry, estimate_issues};
use directory_ui_viewer::listing::cache::{CacheError, ListingCache};
use directory_ui_viewer::runtime::memory::ByteBudget;

fn work(id: &str) -> WorkRecord {
    WorkRecord {
        session_id: "s".into(),
        generation: 1,
        task_id: id.into(),
        operation: Operation::ListDirectories,
        target_id: "A".into(),
        phase: Phase::Queued,
        wait_reason: None,
        sequence: 0,
        processed_entries: 0_u64.into(),
        processed_directories: 0_u64.into(),
        observed_at: "2026-09-13T00:00:00Z".into(),
        issues: Issues::default(),
    }
}

fn entry(id: &str) -> Entry {
    Entry {
        entry_id: id.into(),
        parent_id: Some("A".into()),
        display_name: id.into(),
        kind: Kind::Directory,
        hidden: Field::Unknown,
        special_type: Field::Unsupported,
        modified_at: Field::Unknown,
        own_logical_bytes: Field::Unknown,
        own_allocated_bytes: Field::Unknown,
        observed_at: "2026-09-13T00:00:00Z".into(),
        follow_policy: FollowPolicy::Never,
    }
}

fn limit_issue() -> FsIssue {
    FsIssue {
        code: "RESOURCE_LIMIT".into(),
        operation: "list".into(),
        scope: IssueScope::Subtree,
        entry_id: None,
        native_code: None,
    }
}

#[test]
fn empty_pending_and_complete_empty_are_distinct() {
    let (mut cache, mut pool) = ListingCache::new(100_000, 100, 1_048_576);
    cache.start(&mut pool, work("t"), Category::Directories, 0).unwrap();
    let pending = cache.page(&mut pool, "t", None, 200, 0).unwrap();
    assert!(pending.entries.is_empty());
    assert!(pending.next_cursor.is_some());
    assert_eq!(pending.coverage, Coverage::Partial);
    cache.finish("t", Phase::Completed, None).unwrap();
    let done = cache.page(&mut pool, "t", pending.next_cursor.as_deref(), 200, 1).unwrap();
    assert!(done.entries.is_empty());
    assert!(done.next_cursor.is_none());
    assert_eq!(done.coverage, Coverage::Complete);
}

#[test]
fn pages_remain_immutable_and_wrong_cursor_limit_is_rejected() {
    let (mut cache, mut pool) = ListingCache::new(100_000, 100, 1_048_576);
    cache.start(&mut pool, work("t"), Category::Directories, 0).unwrap();
    cache.append(&mut pool, "t", entry("B")).unwrap();
    let first = cache.page(&mut pool, "t", None, 1, 0).unwrap();
    cache.append(&mut pool, "t", entry("C")).unwrap();
    cache.finish("t", Phase::Completed, None).unwrap();
    let replay = cache.page(&mut pool, "t", None, 1, 1).unwrap();
    assert_eq!(replay.entries, first.entries);
    assert_eq!(replay.next_cursor, first.next_cursor);
    assert_eq!(
        cache.page(&mut pool, "t", first.next_cursor.as_deref(), 2, 1),
        Err(CacheError::InvalidArgument)
    );
    let next = cache.page(&mut pool, "t", first.next_cursor.as_deref(), 1, 1).unwrap();
    assert_eq!(next.entries[0].entry_id, "C");
    assert!(next.next_cursor.is_none());
}

#[test]
fn snapshot_work_and_cursor_expire_together() {
    let (mut cache, mut pool) = ListingCache::new(100_000, 100, 1_048_576);
    let old = cache.start(&mut pool, work("t"), Category::Directories, 0).unwrap();
    let page = cache.page(&mut pool, "t", None, 1, 0).unwrap();
    assert_eq!(cache.work(&mut pool, "t", 100), Err(CacheError::TaskExpired));
    assert_eq!(
        cache.page(&mut pool, "t", page.next_cursor.as_deref(), 1, 100),
        Err(CacheError::CursorExpired)
    );
    let new = cache.start(&mut pool, work("new"), Category::Directories, 100).unwrap();
    assert_ne!(old.revision, new.revision);
    assert_ne!(old.task_id, new.task_id);
}

#[test]
fn waiting_cursor_retries_have_constant_storage() {
    let (mut cache, mut pool) = ListingCache::new(100_000, 100_000, 1_048_576);
    cache.start(&mut pool, work("t"), Category::Directories, 0).unwrap();
    let first = cache.page(&mut pool, "t", None, 200, 0).unwrap();
    let bytes = cache.managed_bytes();
    for now in 1..10_000 {
        let waiting =
            cache.page(&mut pool, "t", first.next_cursor.as_deref(), 200, now).unwrap();
        assert_eq!(waiting.next_cursor, first.next_cursor);
    }
    assert_eq!(cache.managed_bytes(), bytes);
    assert_eq!(cache.handed_out("t"), Some((1, 0)));
}

#[test]
fn actual_budget_exhaustion_retains_all_collected_rows_and_terminal_record() {
    let (mut cache, mut pool) = ListingCache::new(100_000, 100, 1_048_576);
    cache.start(&mut pool, work("t"), Category::Directories, 0).unwrap();
    let bytes = cache.managed_bytes();
    cache.limit = bytes + (estimate_entry(&entry("B")) + 1024) * 2;
    assert!(cache.append(&mut pool, "t", entry("B")).unwrap());
    assert!(cache.append(&mut pool, "t", entry("C")).unwrap());
    assert!(!cache.append(&mut pool, "t", entry("D")).unwrap());
    let first = cache.page(&mut pool, "t", None, 1, 0).unwrap();
    let last = cache.page(&mut pool, "t", first.next_cursor.as_deref(), 1, 0).unwrap();
    assert_eq!(first.entries[0].entry_id, "B");
    assert_eq!(last.entries[0].entry_id, "C");
    assert_eq!(last.coverage, Coverage::Partial);
    assert!(last.next_cursor.is_none());
    assert_eq!(cache.work(&mut pool, "t", 0).unwrap().phase, Phase::Completed);
    assert!(cache.managed_bytes() <= cache.limit);
}

#[test]
fn byte_pressure_evicts_snapshot_and_work_as_one_unit() {
    let (mut cache, mut pool) = ListingCache::new(100_000, 100, 1_048_576);
    let first = cache.start(&mut pool, work("t1"), Category::Directories, 0).unwrap();
    cache.limit = cache.managed_bytes() + 10;
    let mut second = work("t2");
    second.target_id = "Z".into();
    cache.start(&mut pool, second, Category::Directories, 1).unwrap();
    assert_eq!(cache.work(&mut pool, &first.task_id, 1), Err(CacheError::TaskExpired));
    assert_eq!(cache.len(), 1);
}

#[test]
fn collected_pages_survive_partial_finish() {
    let (mut cache, mut pool) = ListingCache::new(100_000, 100, 1_048_576);
    cache.start(&mut pool, work("t"), Category::Directories, 0).unwrap();
    for name in ["B", "C", "D"] {
        cache.append(&mut pool, "t", entry(name)).unwrap();
    }
    cache.finish("t", Phase::Completed, Some(limit_issue())).unwrap();
    let first = cache.page(&mut pool, "t", None, 2, 0).unwrap();
    assert_eq!(first.entries.len(), 2);
    assert!(first.next_cursor.is_some());
    let last = cache.page(&mut pool, "t", first.next_cursor.as_deref(), 2, 0).unwrap();
    assert_eq!(last.entries.len(), 1);
    assert!(last.next_cursor.is_none());
    assert_eq!(last.coverage, Coverage::Partial);
}

#[test]
fn published_page_survives_later_errors_within_its_reserved_wire_headroom() {
    let (mut cache, mut pool) = ListingCache::new(2_000_000, 100, 80_000);
    cache.start(&mut pool, work("t"), Category::Directories, 0).unwrap();
    for id in ["B", "C"] {
        let mut row = entry(id);
        row.display_name = "n".repeat(6000);
        cache.append(&mut pool, "t", row).unwrap();
    }
    let first = cache.page(&mut pool, "t", None, 2, 0).unwrap();
    assert_eq!(first.entries.len(), 2);
    for _ in 0..32 {
        let mut error = FsIssue {
            code: "PERMISSION_DENIED".into(),
            operation: "lstat".into(),
            scope: IssueScope::Entry,
            entry_id: Some("e".repeat(240)),
            native_code: Some(13),
        };
        error.operation = "o".repeat(64);
        cache.record_issue("t", error).unwrap();
    }
    let replay = cache.page(&mut pool, "t", None, 2, 1).unwrap();
    assert_eq!(replay.entries, first.entries);
    assert_eq!(replay.next_cursor, first.next_cursor);
    assert!(encode_page(&replay).len() <= 80_000);
}

#[test]
fn maximum_error_samples_are_precharged_and_terminal_empty_pages_need_no_growth_reserve() {
    let (mut cache, mut pool) = ListingCache::new(2_000_000, 100, 80_000);
    cache.start(&mut pool, work("t"), Category::Directories, 0).unwrap();
    cache.limit = cache.managed_bytes();
    let charged = cache.managed_bytes();
    for n in 0..10_000 {
        cache
            .record_issue(
                "t",
                FsIssue {
                    code: format!("UNRECOGNIZED_{n}"),
                    operation: "o".repeat(64),
                    scope: IssueScope::Entry,
                    entry_id: Some("e".repeat(256)),
                    native_code: Some(i32::MAX),
                },
            )
            .unwrap();
    }
    cache.finish("t", Phase::Completed, None).unwrap();
    assert_eq!(cache.managed_bytes(), charged);
    let work = cache.work(&mut pool, "t", 1).unwrap();
    assert_eq!(work.issues.samples.len(), 32);
    assert_eq!(work.issues.counts.len(), 1);
    assert!(estimate_issues(&work.issues) <= 32 * 2048);
    let page = cache.page(&mut pool, "t", None, 2, 1).unwrap();
    assert!(page.entries.is_empty());
    assert!(page.next_cursor.is_none());
    assert!(encode_page(&page).len() <= 80_000);
}

#[test]
fn caches_in_different_generations_share_one_pool_and_return_their_reservation() {
    let mut pool = ByteBudget::new(100_000);
    let mut old = ListingCache::with_budget(&mut pool, 100, 1_048_576);
    let mut current = ListingCache::with_budget(&mut pool, 100, 1_048_576);
    old.start(&mut pool, work("old"), Category::Directories, 0).unwrap();
    assert_eq!(pool.used(), old.managed_bytes());
    assert_eq!(
        current.start(&mut pool, work("new"), Category::Directories, 0),
        Err(CacheError::ResourceLimit)
    );
    assert_eq!(pool.used(), old.managed_bytes());
    assert_eq!(current.managed_bytes(), 0);
    old.clear(&mut pool);
    assert_eq!(pool.used(), 0);
    current.start(&mut pool, work("new"), Category::Directories, 0).unwrap();
    current.append(&mut pool, "new", entry("B")).unwrap();
    assert_eq!(pool.used(), current.managed_bytes());
    current.release(&mut pool);
    assert_eq!(pool.used(), 0);
    assert!(pool.peak() <= pool.limit());
}

#[test]
fn a_finished_listing_stays_as_it_is() {
    let (mut cache, mut pool) = ListingCache::new(100_000, 100, 1_048_576);
    cache.start(&mut pool, work("t"), Category::Directories, 0).unwrap();
    cache.finish("t", Phase::Cancelled, None).unwrap();
    cache.finish("t", Phase::Failed, Some(limit_issue())).unwrap();
    let left = cache.peek_work("t").unwrap();
    assert_eq!(left.phase, Phase::Cancelled);
    assert_eq!(left.issues.counts.len(), 0);
    assert_eq!(cache.append(&mut pool, "t", entry("B")), Ok(false));
    cache.update_status("t", Phase::Running, Some(WaitReason::Slot));
    cache.observations("t", 5, 5);
    assert_eq!(cache.peek_work("t").unwrap(), left);
    assert_eq!(cache.needs_collection("t"), Ok(false));
}

#[test]
fn unknown_listings_are_answered_by_what_was_asked() {
    let (mut cache, mut pool) = ListingCache::new(100_000, 100, 1_048_576);
    assert_eq!(cache.page(&mut pool, "t", None, 0, 0), Err(CacheError::InvalidArgument));
    assert_eq!(cache.page(&mut pool, "t", None, 1001, 0), Err(CacheError::InvalidArgument));
    assert_eq!(cache.page(&mut pool, "t", None, 1, 0), Err(CacheError::TaskExpired));
    assert_eq!(cache.page(&mut pool, "t", Some("c"), 1, 0), Err(CacheError::CursorExpired));
    assert_eq!(cache.needs_collection("t"), Err(CacheError::TaskExpired));
    assert_eq!(cache.record_issue("t", limit_issue()), Err(CacheError::TaskExpired));
    assert_eq!(cache.set_initial_demand("t", 5), Err(CacheError::TaskExpired));
    assert_eq!(cache.set_initial_demand("t", 0), Err(CacheError::InvalidArgument));
    assert_eq!(cache.finish("t", Phase::Running, None), Err(CacheError::InvalidArgument));
    assert_eq!(cache.finish("t", Phase::Failed, None), Err(CacheError::TaskExpired));
}

#[test]
fn a_second_request_gets_the_same_listing() {
    let (mut cache, mut pool) = ListingCache::new(200_000, 100, 1_048_576);
    let first = cache.start(&mut pool, work("t"), Category::Directories, 0).unwrap();
    let again = cache.start(&mut pool, work("u"), Category::Directories, 50).unwrap();
    assert_eq!(first, again);
    let files = cache.start(&mut pool, work("v"), Category::Files, 50).unwrap();
    assert_ne!(files.task_id, first.task_id);
    assert_eq!(cache.retained_task_ids(), vec!["t".to_string(), "v".to_string()]);
    assert_eq!(cache.eviction_epoch(), 0);
    cache.expire(&mut pool, 149);
    assert_eq!(cache.len(), 2);
    cache.expire(&mut pool, 150);
    assert!(cache.is_empty());
    assert_eq!(cache.eviction_epoch(), 2);
    assert_eq!(pool.used(), 0);
}

#[test]
fn entries_of_another_directory_or_category_are_refused() {
    let (mut cache, mut pool) = ListingCache::new(200_000, 100, 1_048_576);
    cache.start(&mut pool, work("t"), Category::Directories, 0).unwrap();
    let mut foreign = entry("B");
    foreign.parent_id = Some("Z".into());
    assert_eq!(cache.append(&mut pool, "t", foreign), Err(CacheError::InvalidArgument));
    let mut file = entry("B");
    file.kind = Kind::RegularFile;
    assert_eq!(cache.append(&mut pool, "t", file), Err(CacheError::InvalidArgument));
}

#[test]
fn pages_that_are_read_one_after_the_other_bring_every_entry_once() {
    let (mut cache, mut pool) = ListingCache::new(1_000_000, 100, 1_048_576);
    cache.start(&mut pool, work("t"), Category::Directories, 0).unwrap();
    let mut names = Vec::new();
    let mut cursor: Option<String> = None;
    for n in 0..5 {
        cache.append(&mut pool, "t", entry(&format!("B{n}"))).unwrap();
        cache.append(&mut pool, "t", entry(&format!("C{n}"))).unwrap();
        let page = cache.page(&mut pool, "t", cursor.as_deref(), 2, 0).unwrap();
        names.extend(page.entries.into_iter().map(|entry| entry.entry_id));
        cursor = page.next_cursor;
    }
    cache.finish("t", Phase::Completed, None).unwrap();
    let last = cache.page(&mut pool, "t", cursor.as_deref(), 2, 0).unwrap();
    assert!(last.entries.is_empty() && last.next_cursor.is_none());
    assert_eq!(names, ["B0", "C0", "B1", "C1", "B2", "C2", "B3", "C3", "B4", "C4"]);
}

#[test]
fn the_sequence_of_a_listing_grows_until_it_ends() {
    let (mut cache, mut pool) = ListingCache::new(1_000_000, 100, 1_048_576);
    cache.start(&mut pool, work("t"), Category::Directories, 0).unwrap();
    let mut last = cache.work(&mut pool, "t", 0).unwrap().sequence;
    cache.append(&mut pool, "t", entry("B")).unwrap();
    cache.observations("t", 1, 1);
    let now = cache.work(&mut pool, "t", 0).unwrap().sequence;
    assert!(now > last);
    last = now;
    cache.update_status("t", Phase::Running, Some(WaitReason::PageDemand));
    cache.finish("t", Phase::Completed, None).unwrap();
    let ended = cache.work(&mut pool, "t", 0).unwrap();
    assert!(ended.sequence > last);
    cache.observations("t", 9, 9);
    cache.finish("t", Phase::Failed, Some(limit_issue())).unwrap();
    assert_eq!(cache.work(&mut pool, "t", 0).unwrap(), ended);
}
