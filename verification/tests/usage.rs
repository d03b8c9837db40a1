use std::collections::{BTreeMap, BTreeSet};

use directory_ui_viewer::domain::controller::Cancellation;
use directory_ui_viewer::domain::index::{DirectoryIndex, DirectoryKey, IndexPools, Origin};
use directory_ui_viewer::domain::model::{FsIssue, IssueScope, Kind, Measure, Reason, ScanState};
use directory_ui_viewer::scan::aggregate::{Sum, SHARED_BYTES};
use directory_ui_viewer::scan::budgeted_source::{no_handle, BudgetedSource};
use directory_ui_viewer::scan::usage::{
    FileIdentity, Metric, Observation, ObservationSource, ScanLimits, ScanPhase, UsageScanner,
};
use directory_ui_viewer::scheduler::{Handles, SubmitError};

const STAMP: &str = "2026-09-13T00:00:00Z";

#[derive(Default)]
struct Source {
    children: BTreeMap<u64, Vec<Observation>>,
    denied: BTreeSet<u64>,
    opened: Vec<u64>,
    cancel_on_next: Option<Cancellation>,
}

struct Cursor {
    node: u64,
    offset: usize,
}

impl ObservationSource for Source {
    type Cursor = Cursor;
    fn open(&mut self, directory: &Observation) -> Result<Cursor, FsIssue> {
        self.opened.push(directory.node);
        if self.denied.contains(&directory.node) {
            return Err(FsIssue {
                code: "PERMISSION_DENIED".into(),
                operation: "open".into(),
                scope: IssueScope::Entry,
                entry_id: None,
                native_code: Some(13),
            });
        }
        Ok(Cursor { node: directory.node, offset: 0 })
    }
    fn next(&mut self, cursor: &mut Cursor) -> Result<Option<Observation>, FsIssue> {
        if let Some(token) = &self.cancel_on_next {
            token.cancel();
        }
        let result = self
            .children
            .get(&cursor.node)
            .and_then(|children| children.get(cursor.offset))
            .cloned();
        cursor.offset += 1;
        Ok(result)
    }
}

fn node(id: u64, name: &str, kind: Kind, logical: u64, allocated: u64) -> Observation {
    Observation {
        node: id,
        raw_name: name.as_bytes().to_vec(),
        kind,
        identity: Some(FileIdentity { device: 1, inode: id }),
        link_count: 1,
        mount: 1,
        logical: Metric::Known(logical),
        allocated: Metric::Known(allocated),
    }
}

/// A scan with the index and the pools that it works on.
struct Scan {
    scanner: UsageScanner<Source>,
    index: DirectoryIndex,
    pools: IndexPools,
}

fn scan_with(source: Source, limits: ScanLimits, token: Cancellation, room: usize) -> Scan {
    let (mut index, mut pools) = DirectoryIndex::new("g1".into(), room, 16 * 1024 * 1024);
    let scanner = UsageScanner::new(
        source,
        node(1, "root", Kind::Directory, 10, 20),
        &mut index,
        &mut pools,
        limits,
        token,
    )
    .unwrap();
    Scan { scanner, index, pools }
}

fn scanner(source: Source, limits: ScanLimits) -> Scan {
    scan_with(source, limits, Cancellation::default(), 48 * 1024 * 1024)
}

impl Scan {
    fn run(&mut self) -> ScanPhase {
        self.scanner.run(&mut self.index, &mut self.pools, STAMP)
    }
    fn step(&mut self, items: usize) -> ScanPhase {
        self.scanner.step(&mut self.index, &mut self.pools, items, STAMP)
    }
    fn root(&self) -> String {
        self.scanner.root_id().to_owned()
    }
    fn logical(&self) -> &Measure {
        &self.index.usage(&self.root()).unwrap().unwrap().logical
    }
    fn complete(&self, id: &str) -> (u128, u128) {
        let usage = self.index.usage(id).unwrap().unwrap();
        assert!(matches!(usage.logical, Measure::Complete { .. }));
        assert!(matches!(usage.allocated, Measure::Complete { .. }));
        (bytes(&usage.logical), bytes(&usage.allocated))
    }
    fn id(&mut self, parent: &str, name: &str) -> String {
        self.index
            .register(
                &mut self.pools,
                DirectoryKey {
                    parent_id: Some(parent.into()),
                    raw_name: name.as_bytes().to_vec(),
                },
                Origin::Background,
            )
            .unwrap()
    }
}

fn bytes(measure: &Measure) -> u128 {
    match measure {
        Measure::Complete { bytes } => bytes.text().parse().unwrap(),
        Measure::Partial { observed_bytes, .. } => observed_bytes.text().parse().unwrap(),
        _ => panic!("nothing was measured"),
    }
}

fn gives(measure: &Measure, reason: Reason) -> bool {
    matches!(measure, Measure::Partial { reasons, .. } if reasons.contains(&reason))
}

#[test]
fn includes_directory_own_bytes_hidden_empty_and_link_self_without_opening_target() {
    let mut source = Source::default();
    source.children.insert(
        1,
        vec![
            node(2, ".hidden", Kind::RegularFile, 9, 16),
            node(3, "empty", Kind::RegularFile, 0, 0),
            node(4, "external-link", Kind::Symlink, 12, 8),
            node(5, "package", Kind::Directory, 3, 4),
        ],
    );
    let mut scan = scanner(source, ScanLimits::default());
    scan.run();
    assert_eq!(scan.complete(&scan.root()), (34, 48));
    assert_eq!(scan.scanner.source().opened, vec![1, 5]);
}

#[test]
fn hardlinks_are_independent_in_siblings_and_unique_in_common_parent_in_both_orders() {
    for reverse in [false, true] {
        let mut source = Source::default();
        let b = node(2, "B", Kind::Directory, 2, 2);
        let c = node(3, "C", Kind::Directory, 3, 3);
        source.children.insert(1, if reverse { vec![c, b] } else { vec![b, c] });
        let mut shared = node(4, "shared", Kind::RegularFile, 100, 128);
        shared.link_count = 3;
        let mut alias = shared.clone();
        alias.node = 5;
        alias.raw_name = b"alias".to_vec();
        source.children.insert(2, vec![shared.clone(), alias]);
        source.children.insert(3, vec![shared]);
        let mut scan = scanner(source, ScanLimits::default());
        scan.run();
        let root = scan.root();
        let b = scan.id(&root, "B");
        let c = scan.id(&root, "C");
        assert_eq!(scan.complete(&b), (102, 130));
        assert_eq!(scan.complete(&c), (103, 131));
        assert_eq!(scan.complete(&root), (115, 153));
        assert!(scan.scanner.stats.peak_hardlink_bytes <= 2 * SHARED_BYTES);
    }
}

#[test]
fn unsupported_allocated_is_independent_and_permission_errors_preserve_other_branches() {
    let mut source = Source::default();
    let mut file = node(2, "f", Kind::RegularFile, 50, 0);
    file.allocated = Metric::Unsupported;
    source.children.insert(1, vec![file]);
    let mut scan = scanner(source, ScanLimits::default());
    scan.run();
    let usage = scan.index.usage(&scan.root()).unwrap().unwrap();
    assert_eq!(bytes(&usage.logical), 60);
    assert!(matches!(usage.logical, Measure::Complete { .. }));
    assert!(gives(&usage.allocated, Reason::Unsupported));
    let mut source = Source::default();
    source.denied.insert(2);
    source.children.insert(
        1,
        vec![
            node(2, "denied", Kind::Directory, 2, 2),
            node(3, "healthy", Kind::Directory, 3, 3),
        ],
    );
    source.children.insert(3, vec![node(4, "file", Kind::RegularFile, 7, 8)]);
    let mut scan = scanner(source, ScanLimits::default());
    scan.run();
    assert_eq!(bytes(scan.logical()), 22);
    assert!(gives(scan.logical(), Reason::ReadError));
    assert_eq!(scan.scanner.issues.samples[0].native_code, Some(13));
    assert!(scan.scanner.source().opened.contains(&3));
}

#[test]
fn same_device_different_mount_and_repeated_directory_are_excluded_without_open() {
    let mut source = Source::default();
    let mut other = node(2, "mount", Kind::Directory, 2, 2);
    other.mount = 2;
    let mut repeated = node(3, "repeat", Kind::Directory, 3, 3);
    repeated.identity = Some(FileIdentity { device: 1, inode: 1 });
    source.children.insert(1, vec![other, repeated]);
    let mut scan = scanner(source, ScanLimits::default());
    scan.run();
    assert_eq!(scan.scanner.source().opened, vec![1]);
    assert!(gives(scan.logical(), Reason::ExcludedByPolicy));
}

#[test]
fn cancellation_after_source_call_discards_that_result_and_publishes_partial() {
    let token = Cancellation::default();
    let mut source = Source { cancel_on_next: Some(token.clone()), ..Source::default() };
    source.children.insert(1, vec![node(2, "late", Kind::RegularFile, 1000, 1000)]);
    let mut scan = scan_with(source, ScanLimits::default(), token, 100_000);
    assert_eq!(scan.run(), ScanPhase::Cancelled);
    let usage = scan.index.usage(&scan.root()).unwrap().unwrap();
    assert_eq!(bytes(&usage.logical), 10);
    assert_eq!(usage.scan_state, ScanState::Cancelled);
    assert!(gives(&usage.logical, Reason::Cancelled));
}

#[test]
fn bounded_depth_and_hardlink_memory_return_explicit_partial_not_silent_undercount() {
    let mut source = Source::default();
    for n in 1..256 {
        source.children.insert(n, vec![node(n + 1, "child", Kind::Directory, 1, 1)]);
    }
    let mut scan = scanner(
        source,
        ScanLimits { max_open_directories: 8, ..ScanLimits::default() },
    );
    scan.run();
    assert!(scan.scanner.stats.peak_open_directories <= 8);
    assert!(gives(scan.logical(), Reason::ResourceLimit));
    let mut source = Source::default();
    let mut shared = node(2, "shared", Kind::RegularFile, 999, 999);
    shared.link_count = 2;
    source.children.insert(1, vec![shared]);
    let mut scan = scanner(source, ScanLimits { hardlink_bytes: 0, ..ScanLimits::default() });
    scan.run();
    assert_eq!(bytes(scan.logical()), 10);
    assert!(gives(scan.logical(), Reason::ResourceLimit));
}

#[test]
fn shared_measurement_keeps_known_observation_when_another_link_is_unsupported() {
    for reverse in [false, true] {
        let mut source = Source::default();
        let mut known = node(2, "known", Kind::RegularFile, 100, 128);
        known.link_count = 2;
        let mut unknown = known.clone();
        unknown.raw_name = b"unknown".to_vec();
        unknown.allocated = Metric::Unsupported;
        source
            .children
            .insert(1, if reverse { vec![unknown, known] } else { vec![known, unknown] });
        let mut scan = scanner(source, ScanLimits::default());
        scan.run();
        let usage = scan.index.usage(&scan.root()).unwrap().unwrap();
        assert_eq!(bytes(&usage.allocated), 148);
        assert!(gives(&usage.allocated, Reason::Unsupported));
        assert_eq!(bytes(&usage.logical), 110);
    }
}

#[test]
fn pre_cancelled_and_zero_handle_budget_never_open_a_directory() {
    let token = Cancellation::default();
    token.cancel();
    let mut scan = scan_with(Source::default(), ScanLimits::default(), token, 100_000);
    scan.run();
    assert!(scan.scanner.source().opened.is_empty());
    assert_eq!(scan.scanner.stats.peak_open_directories, 0);
    let mut scan = scanner(
        Source::default(),
        ScanLimits { max_open_directories: 0, ..ScanLimits::default() },
    );
    scan.run();
    assert!(scan.scanner.source().opened.is_empty());
}

#[test]
fn arithmetic_overflow_remains_explicit() {
    let mut sum = Sum { bytes: u128::MAX, known: true, reasons: vec![] };
    sum.add_number(1);
    assert!(gives(&sum.measure(false), Reason::Overflow));
}

#[test]
fn step_publishes_partial_progress_and_large_sums_remain_exact() {
    let mut source = Source::default();
    source.children.insert(
        1,
        vec![
            node(2, "large", Kind::RegularFile, u64::MAX, u64::MAX),
            node(3, "larger", Kind::RegularFile, u64::MAX, u64::MAX),
        ],
    );
    let mut scan = scanner(source, ScanLimits::default());
    scan.step(1);
    let usage = scan.index.usage(&scan.root()).unwrap().unwrap();
    assert_eq!(usage.scan_state, ScanState::Running);
    assert!(gives(&usage.logical, Reason::Scanning));
    scan.run();
    assert_eq!(scan.complete(&scan.root()).0, u64::MAX as u128 * 2 + 10);
}

#[test]
fn a_root_that_is_no_directory_or_does_not_fit_is_refused() {
    let (mut index, mut pools) = DirectoryIndex::new("g1".into(), 100, 100);
    let refused = UsageScanner::new(
        Source::default(),
        node(1, "root", Kind::RegularFile, 1, 1),
        &mut index,
        &mut pools,
        ScanLimits::default(),
        Cancellation::default(),
    );
    assert_eq!(refused.err(), Some("NOT_DIRECTORY"));
    let refused = UsageScanner::new(
        Source::default(),
        node(1, "root", Kind::Directory, 1, 1),
        &mut index,
        &mut pools,
        ScanLimits::default(),
        Cancellation::default(),
    );
    assert_eq!(refused.err(), Some("RESOURCE_LIMIT"));
}

#[test]
fn a_root_that_cannot_be_opened_has_failed() {
    let mut source = Source::default();
    source.denied.insert(1);
    let mut scan = scanner(source, ScanLimits::default());
    assert!(scan.scanner.root_failed());
    assert_eq!(scan.run(), ScanPhase::Completed);
    let usage = scan.index.usage(&scan.root()).unwrap().unwrap();
    assert_eq!(usage.scan_state, ScanState::Failed);
    assert!(gives(&usage.logical, Reason::ReadError));
}

#[test]
fn an_aborted_scan_publishes_what_it_has() {
    let mut source = Source::default();
    source.children.insert(1, vec![node(2, "a", Kind::Directory, 5, 5)]);
    source.children.insert(2, vec![node(3, "b", Kind::RegularFile, 7, 7)]);
    let mut scan = scanner(source, ScanLimits::default());
    scan.step(2);
    assert_eq!(scan.scanner.phase(), ScanPhase::Running);
    scan.scanner.abort(&mut scan.index, Reason::ResourceLimit, STAMP);
    assert_eq!(scan.scanner.phase(), ScanPhase::Completed);
    assert_eq!(bytes(scan.logical()), 22);
    assert!(gives(scan.logical(), Reason::ResourceLimit));
    let opened = scan.scanner.source().opened.len();
    assert_eq!(scan.run(), ScanPhase::Completed);
    assert_eq!(scan.scanner.source().opened.len(), opened);
}

#[test]
fn a_scan_that_runs_out_of_index_room_is_partial() {
    let mut source = Source::default();
    source.children.insert(
        1,
        vec![
            node(2, "file", Kind::RegularFile, 1, 1),
            node(3, "directory", Kind::Directory, 1, 1),
        ],
    );
    let mut scan = scan_with(source, ScanLimits::default(), Cancellation::default(), 2400);
    assert_eq!(scan.run(), ScanPhase::Completed);
    assert_eq!(bytes(scan.logical()), 11);
    assert!(gives(scan.logical(), Reason::ResourceLimit));
}

#[test]
fn directories_without_identity_are_not_entered() {
    let mut source = Source::default();
    let mut nameless = node(2, "a", Kind::Directory, 5, 5);
    nameless.identity = None;
    source.children.insert(1, vec![nameless]);
    let mut scan = scanner(source, ScanLimits::default());
    scan.run();
    assert_eq!(scan.scanner.source().opened, vec![1]);
    assert!(gives(scan.logical(), Reason::Unsupported));
    assert_eq!(bytes(scan.logical()), 15);
}

#[test]
fn a_cancelled_token_stops_a_running_scan() {
    let mut source = Source::default();
    source.children.insert(1, vec![node(2, "a", Kind::RegularFile, 5, 5)]);
    let mut scan = scanner(source, ScanLimits::default());
    scan.step(1);
    scan.scanner.cancel();
    assert_eq!(scan.run(), ScanPhase::Cancelled);
    assert_eq!(bytes(scan.logical()), 15);
}

struct Granting(bool);

impl Handles for Granting {
    type Permit = u8;
    fn acquire(&self) -> Result<u8, SubmitError> {
        if self.0 {
            Ok(1)
        } else {
            Err(SubmitError::ResourceLimit)
        }
    }
}

#[test]
fn charged_sources_open_only_with_a_handle() {
    let mut source = Source::default();
    source.children.insert(1, vec![node(2, "a", Kind::RegularFile, 5, 5)]);
    let mut granted = BudgetedSource::new(source, Granting(true));
    let mut cursor = granted.open(&node(1, "root", Kind::Directory, 1, 1)).ok().unwrap();
    assert_eq!(granted.next(&mut cursor).unwrap().unwrap().node, 2);
    assert_eq!(granted.inner().opened, vec![1]);
    let mut refused = BudgetedSource::new(Source::default(), Granting(false));
    let issue = refused.open(&node(1, "root", Kind::Directory, 1, 1)).err().unwrap();
    assert_eq!(issue, no_handle());
    assert_eq!(issue.code, "RESOURCE_LIMIT");
    assert!(refused.inner().opened.is_empty());
}
