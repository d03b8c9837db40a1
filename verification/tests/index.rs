use directory_ui_viewer::domain::controller::Scope;
use directory_ui_viewer::domain::index::{
    is_component, DirectoryIndex, DirectoryKey, IndexError, IndexPools, Origin,
    MAX_COMPONENT_BYTES,
};
use directory_ui_viewer::domain::model::{
    Bytes, CapacityState, DirectoryUsage, Entry, Field, FollowPolicy, Kind, Measure, ScanState,
};

fn key(parent: Option<&str>, name: &[u8]) -> DirectoryKey {
    DirectoryKey { parent_id: parent.map(str::to_owned), raw_name: name.to_vec() }
}

fn entry(id: &str, parent: Option<&str>) -> Entry {
    Entry {
        entry_id: id.into(),
        parent_id: parent.map(str::to_owned),
        display_name: "display only".into(),
        kind: Kind::Directory,
        hidden: Field::Unknown,
        special_type: Field::Unsupported,
        modified_at: Field::Unknown,
        own_logical_bytes: Field::Unknown,
        own_allocated_bytes: Field::Unknown,
        observed_at: "2026-09-13T00:00:00Z".into(),
        follow_policy: FollowPolicy::Never,
    }
}

fn usage(id: &str, revision: u64) -> DirectoryUsage {
    DirectoryUsage {
        directory_id: id.into(),
        usage_revision: revision,
        scan_state: ScanState::Settled,
        logical: Measure::Complete { bytes: 9_u64.into() },
        allocated: Measure::Unknown,
        observed_at: "2026-09-13T00:00:00Z".into(),
    }
}

#[test]
fn background_saturation_leaves_foreground_reservation_available() {
    let (mut index, mut pools) = DirectoryIndex::new("g1".into(), 2400, 7000);
    let root = index.register(&mut pools, key(None, b"root"), Origin::Background).unwrap();
    assert_eq!(
        index.register(&mut pools, key(Some(&root), b"background"), Origin::Background),
        Err(IndexError::ResourceLimit)
    );
    let child = index
        .register(&mut pools, key(Some(&root), b"foreground"), Origin::Foreground)
        .unwrap();
    index.expose(&mut pools, &child, entry(&child, Some(&root))).unwrap();
    assert_eq!(index.capacity().background, CapacityState::Limited);
    assert_eq!(index.capacity().foreground, CapacityState::Available);
    assert!(index.entry(&child).is_some());
}

#[test]
fn foreground_saturation_keeps_existing_ids_and_cached_observations() {
    let (mut index, mut pools) = DirectoryIndex::new("g1".into(), 5000, 4000);
    let root = index.register(&mut pools, key(None, b"root"), Origin::Background).unwrap();
    index.expose(&mut pools, &root, entry(&root, None)).unwrap();
    loop {
        let name = format!("child-{}", index.len());
        if index
            .register(&mut pools, key(Some(&root), name.as_bytes()), Origin::Foreground)
            .is_err()
        {
            break;
        }
    }
    assert_eq!(index.capacity().foreground, CapacityState::Limited);
    assert!(index.entry(&root).is_some());
    assert_eq!(
        index.register(&mut pools, key(None, b"root"), Origin::Foreground).unwrap(),
        root
    );
    assert!(index.managed_bytes().1 <= 4000);
}

#[test]
fn raw_names_do_not_collapse_and_background_usage_survives_exposure() {
    let (mut index, mut pools) = DirectoryIndex::new("g1".into(), 100_000, 100_000);
    let root = index.register(&mut pools, key(None, b"root"), Origin::Background).unwrap();
    let a = index.register(&mut pools, key(Some(&root), &[0xff]), Origin::Background).unwrap();
    let b = index.register(&mut pools, key(Some(&root), &[0xfe]), Origin::Background).unwrap();
    assert_ne!(a, b);
    let usage = usage(&a, 1);
    index.set_usage(usage.clone()).unwrap();
    let before = index.managed_bytes();
    assert_eq!(
        index.register(&mut pools, key(Some(&root), &[0xff]), Origin::Foreground).unwrap(),
        a
    );
    index.expose(&mut pools, &a, entry(&a, Some(&root))).unwrap();
    assert_eq!(index.managed_bytes().0, before.0);
    let once = index.managed_bytes();
    index.expose(&mut pools, &a, entry(&a, Some(&root))).unwrap();
    assert_eq!(index.managed_bytes(), once);
    assert_eq!(index.usage(&a).unwrap(), Some(&usage));
}

#[test]
fn invalid_components_and_other_generation_ids_are_rejected() {
    let (mut index, mut pools) = DirectoryIndex::new("g2".into(), 10_000, 10_000);
    let root = index.register(&mut pools, key(None, b"root"), Origin::Background).unwrap();
    for name in [b"..".as_slice(), b"a/b", b"a\0b"] {
        assert_eq!(
            index.register(&mut pools, key(Some(&root), name), Origin::Background),
            Err(IndexError::InvalidArgument)
        );
    }
    assert_eq!(index.key("g1-1"), Err(IndexError::EntryExpired));
}

#[test]
fn an_old_generation_retains_its_shared_charge_until_its_last_owner_drops() {
    let mut pools = IndexPools::new(3000, 7000);
    let mut old = DirectoryIndex::with_budgets("old".into(), &mut pools);
    old.register(&mut pools, key(None, b"root"), Origin::Background).unwrap();
    let draining = old;
    let mut current = DirectoryIndex::with_budgets("new".into(), &mut pools);
    assert_eq!(
        current.register(&mut pools, key(None, b"root"), Origin::Background),
        Err(IndexError::ResourceLimit)
    );
    assert!(pools.background.used() > 0);
    draining.release(&mut pools);
    assert_eq!(pools.background.used(), 0);
    let root = current.register(&mut pools, key(None, b"root"), Origin::Background).unwrap();
    current.register(&mut pools, key(Some(&root), b"child"), Origin::Foreground).unwrap();
    assert_eq!(
        (pools.background.used(), pools.foreground.used()),
        current.managed_bytes()
    );
    current.release(&mut pools);
    assert_eq!(pools.background.used() + pools.foreground.used(), 0);
}

#[test]
fn known_directories_keep_their_id_and_cost_nothing_again() {
    let (mut index, mut pools) = DirectoryIndex::new("g1".into(), 100_000, 100_000);
    let root = index.register(&mut pools, key(None, b"root"), Origin::Background).unwrap();
    assert_eq!(root, "g1-1");
    let before = index.managed_bytes();
    assert_eq!(
        index.register(&mut pools, key(None, b"root"), Origin::Background).unwrap(),
        root
    );
    assert_eq!(index.managed_bytes(), before);
    let child = index.register(&mut pools, key(Some(&root), b"a"), Origin::Foreground).unwrap();
    assert_eq!(child, "g1-2");
    assert_eq!(index.len(), 2);
}

#[test]
fn a_second_root_and_children_of_nobody_are_refused() {
    let (mut index, mut pools) = DirectoryIndex::new("g1".into(), 100_000, 100_000);
    assert!(index.is_empty());
    let root = index.register(&mut pools, key(None, b"root"), Origin::Background).unwrap();
    assert_eq!(
        index.register(&mut pools, key(None, b"other"), Origin::Background),
        Err(IndexError::InvalidArgument)
    );
    assert_eq!(
        index.register(&mut pools, key(Some("nobody"), b"a"), Origin::Background),
        Err(IndexError::EntryExpired)
    );
    assert_eq!(
        index.register(&mut pools, key(Some(&root), b""), Origin::Background),
        Err(IndexError::EntryExpired)
    );
    assert_eq!(
        index.expose(&mut pools, &root, entry("other", None)),
        Err(IndexError::InvalidArgument)
    );
    assert_eq!(
        index.expose(&mut pools, "nobody", entry("nobody", None)),
        Err(IndexError::EntryExpired)
    );
}

#[test]
fn older_usage_revisions_are_not_stored() {
    let (mut index, mut pools) = DirectoryIndex::new("g1".into(), 100_000, 100_000);
    let root = index.register(&mut pools, key(None, b"root"), Origin::Background).unwrap();
    assert_eq!(index.set_usage(usage(&root, 2)), Ok(true));
    assert_eq!(index.set_usage(usage(&root, 2)), Ok(false));
    assert_eq!(index.set_usage(usage(&root, 1)), Ok(false));
    assert_eq!(index.usage(&root).unwrap().unwrap().usage_revision, 2);
    assert_eq!(index.set_usage(usage("nobody", 1)), Err(IndexError::EntryExpired));
    let mut large = usage(&root, 3);
    large.observed_at = "x".repeat(2000);
    assert_eq!(index.set_usage(large), Err(IndexError::ResourceLimit));
}

#[test]
fn an_index_belongs_to_one_scope() {
    let (mut index, mut pools) = DirectoryIndex::new("g1".into(), 100_000, 300);
    let scope = Scope { session_id: "s".into(), generation: 1 };
    assert!(index.scope().is_none());
    assert_eq!(index.bind_scope(&mut pools, &scope), Ok(()));
    assert_eq!(index.bind_scope(&mut pools, &scope), Ok(()));
    assert_eq!(
        index.bind_scope(&mut pools, &Scope { session_id: "s".into(), generation: 2 }),
        Err(IndexError::InvalidArgument)
    );
    assert_eq!(index.scope(), Some(&scope));
    assert_eq!(index.managed_bytes().1, 258);
    let (mut small, mut pools) = DirectoryIndex::new("g1".into(), 100_000, 100);
    assert_eq!(small.bind_scope(&mut pools, &scope), Err(IndexError::ResourceLimit));
}

#[test]
fn long_multibyte_components_are_allowed() {
    let name = "\u{754c}".repeat(255);
    assert_eq!(name.len(), MAX_COMPONENT_BYTES);
    assert!(is_component(name.as_bytes(), MAX_COMPONENT_BYTES));
    let (mut index, mut pools) = DirectoryIndex::new("g1".into(), 100_000, 100_000);
    let root = index.register(&mut pools, key(None, b"root"), Origin::Background).unwrap();
    assert!(index
        .register(&mut pools, key(Some(&root), name.as_bytes()), Origin::Foreground)
        .is_ok());
    let longer = format!("{name}x");
    assert_eq!(
        index.register(&mut pools, key(Some(&root), longer.as_bytes()), Origin::Foreground),
        Err(IndexError::InvalidArgument)
    );
}

#[test]
fn registering_charges_what_was_allocated() {
    let (mut index, mut pools) = DirectoryIndex::new("g1".into(), 100_000, 100_000);
    index.register(&mut pools, key(None, b"root"), Origin::Background).unwrap();
    let exact = index.managed_bytes().0;
    assert!(exact >= 2048 + 2 * 4 + 4 * 4);
    let (mut roomy, mut pools) = DirectoryIndex::new("g1".into(), 100_000, 100_000);
    let mut raw_name = Vec::with_capacity(1000);
    raw_name.extend_from_slice(b"root");
    roomy
        .register(&mut pools, DirectoryKey { parent_id: None, raw_name }, Origin::Background)
        .unwrap();
    assert!(roomy.managed_bytes().0 >= exact + 2 * 990);
}

#[test]
fn measured_bytes_compare_by_value() {
    assert_eq!(Bytes::from(9_u64), Bytes::from(9_u128));
}

#[test]
fn ids_keys_and_usage_stay_through_other_calls() {
    let (mut index, mut pools) = DirectoryIndex::new("g1".into(), 100_000, 100_000);
    let root = index.register(&mut pools, key(None, b"root"), Origin::Background).unwrap();
    let child =
        index.register(&mut pools, key(Some(&root), b"a"), Origin::Background).unwrap();
    index.set_usage(usage(&child, 5)).unwrap();
    for n in 0..10_u8 {
        index.register(&mut pools, key(Some(&root), &[b'b', b'0' + n]), Origin::Foreground).unwrap();
        index.expose(&mut pools, &child, entry(&child, Some(&root))).unwrap();
        index.set_usage(usage(&child, 4)).unwrap();
    }
    assert_eq!(
        index.register(&mut pools, key(Some(&root), b"a"), Origin::Foreground),
        Ok(child.clone())
    );
    assert_eq!(index.key(&child).unwrap().raw_name, b"a");
    assert_eq!(index.usage(&child).unwrap().unwrap().usage_revision, 5);
}
