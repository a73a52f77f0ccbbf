use std::collections::HashSet;

use herdr::delegation::{
    DelegationError, DelegationRecord, DelegationValidationError, Delegations, ProjectionEntry,
    SiblingPosition,
};
use herdr::delegation_api::normalize_purpose;
use herdr::ids::{
    CollectionId, CollectionIdAllocator, DelegationId, DelegationIdAllocationError, DelegationIdAllocator,
    PaneId,
};
use herdr::layout::PaneCollection;
use herdr::member_order::canonical_member_order;

fn pane(raw: u32) -> PaneId {
    PaneId::from_raw(raw)
}

fn id(raw: u64) -> DelegationId {
    DelegationId::from_raw(raw, &mut DelegationIdAllocator::new()).expect("test ID should be valid")
}

fn record(raw: u64, pane_raw: Option<u32>, parent: Option<u64>, rank: u64) -> DelegationRecord {
    DelegationRecord {
        id: id(raw),
        pane_id: pane_raw.map(pane),
        parent_id: parent.map(id),
        purpose: None,
        sibling_rank: rank,
        tombstone: pane_raw.is_none(),
    }
}

fn create(delegations: &mut Delegations, pane_raw: u32, parent: Option<DelegationId>) -> DelegationId {
    delegations
        .create(Some(pane(pane_raw)), parent, None)
        .expect("test delegation should be created")
}

fn ids(values: &[DelegationId]) -> HashSet<u64> {
    values.iter().map(|value| value.raw()).collect()
}

#[test]
fn untrusted_delegation_id_parsing_does_not_reserve_allocator_space() {
    let mut allocator = DelegationIdAllocator::new();
    let before = DelegationId::allocate(&mut allocator).expect("delegation ID available");
    let parsed = "d18446744073709551615"
        .parse::<DelegationId>()
        .expect("near-max public ID parses");
    let after =
        DelegationId::allocate(&mut allocator).expect("untrusted lookup must not exhaust allocation");

    assert!(parsed.raw() > after.raw());
    assert!(after.raw() > before.raw());
}

#[test]
fn allocation_fails_without_wrapping_at_u64_max() {
    let mut allocator = DelegationIdAllocator::new();
    allocator.reserve_after(u64::MAX);
    assert_eq!(
        DelegationId::allocate(&mut allocator),
        Err(DelegationIdAllocationError)
    );
    assert_eq!(
        DelegationId::allocate(&mut allocator),
        Err(DelegationIdAllocationError)
    );
}

#[test]
fn persisted_aggregate_rejects_key_mismatch_and_duplicate_ids() {
    let mismatch = Delegations::from_keyed_records(vec![(id(62_001), record(62_002, Some(1), None, 0))]);
    assert!(matches!(
        mismatch,
        Err(DelegationValidationError::KeyIdMismatch { .. })
    ));
    let duplicate = Delegations::from_keyed_records(vec![
        (id(62_003), record(62_003, Some(1), None, 0)),
        (id(62_003), record(62_003, Some(2), None, 1)),
    ]);
    assert!(matches!(
        duplicate,
        Err(DelegationValidationError::DuplicateId(value)) if value == id(62_003)
    ));
}

#[test]
fn persisted_aggregate_rejects_duplicate_panes_dangling_parents_and_cycles() {
    let duplicate_pane = Delegations::from_records(vec![
        record(63_001, Some(1), None, 0),
        record(63_002, Some(1), None, 1),
    ]);
    assert!(matches!(
        duplicate_pane,
        Err(DelegationValidationError::DuplicatePane(value)) if value == pane(1)
    ));
    let dangling = Delegations::from_records(vec![record(63_003, Some(2), Some(63_999), 0)]);
    assert!(matches!(
        dangling,
        Err(DelegationValidationError::DanglingParent { .. })
    ));
    let cycle = Delegations::from_records(vec![
        record(63_004, Some(3), Some(63_005), 0),
        record(63_005, Some(4), Some(63_004), 0),
    ]);
    assert!(matches!(cycle, Err(DelegationValidationError::Cycle(_))));
}

#[test]
fn create_appends_siblings_and_preserves_fields() {
    let mut d = Delegations::new();
    let root = d
        .create(Some(pane(1)), None, Some("primary".into()))
        .expect("root should be created");
    let child = create(&mut d, 2, Some(root));
    let second = create(&mut d, 3, Some(root));
    assert_eq!(
        d.get(root).and_then(|r| r.purpose.as_deref()),
        Some("primary")
    );
    assert_eq!(d.get(child).map(|r| r.sibling_rank), Some(0));
    assert_eq!(d.get(second).map(|r| r.sibling_rank), Some(1));
}

#[test]
fn create_rejects_missing_parent_and_duplicate_pane_without_mutation() {
    let mut d = Delegations::new();
    let missing = id(65_001);
    assert_eq!(
        d.create(Some(pane(1)), Some(missing), None),
        Err(DelegationError::ParentNotFound(missing))
    );
    create(&mut d, 1, None);
    assert_eq!(
        d.create(Some(pane(1)), None, None),
        Err(DelegationError::PaneAlreadyAssociated(pane(1)))
    );
    assert_eq!(d.records().len(), 1);
}

#[test]
fn associate_and_remap_panes_preserve_uniqueness() {
    let mut d = Delegations::new();
    let first = d.create(None, None, None).expect("record should be created");
    let second = create(&mut d, 2, None);
    d.associate_pane(first, pane(1)).expect("association should work");
    assert_eq!(d.delegation_for_pane(pane(1)).map(|r| r.id), Some(first));
    assert_eq!(
        d.associate_pane(first, pane(2)),
        Err(DelegationError::PaneAlreadyAssociated(pane(2)))
    );
    assert_eq!(
        d.remap_pane(pane(1), pane(2)),
        Err(DelegationError::PaneAlreadyAssociated(pane(2)))
    );
    assert_eq!(d.remap_pane(pane(1), pane(3)), Ok(first));
    assert_eq!(d.delegation_for_pane(pane(3)).map(|r| r.id), Some(first));
    assert_eq!(d.delegation_for_pane(pane(2)).map(|r| r.id), Some(second));
}

#[test]
fn associate_revives_tombstone_and_missing_remap_is_typed_error() {
    let mut d = Delegations::new();
    let root = create(&mut d, 1, None);
    d.tombstone_pane(pane(1));
    d.associate_pane(root, pane(4)).expect("association should revive");
    assert_eq!(
        d.get(root).map(|r| (r.pane_id, r.tombstone)),
        Some((Some(pane(4)), false))
    );
    assert_eq!(
        d.remap_pane(pane(99), pane(100)),
        Err(DelegationError::PaneNotAssociated(pane(99)))
    );
}

#[test]
fn reparent_rejects_self_cycles_and_missing_parents_atomically() {
    let mut d = Delegations::new();
    let root = create(&mut d, 1, None);
    let child = create(&mut d, 2, Some(root));
    let grandchild = create(&mut d, 3, Some(child));
    assert_eq!(d.reparent(root, Some(root)), Err(DelegationError::SelfParent));
    assert_eq!(d.reparent(root, Some(grandchild)), Err(DelegationError::Cycle));
    let missing = id(66_001);
    assert_eq!(
        d.reparent(child, Some(missing)),
        Err(DelegationError::ParentNotFound(missing))
    );
    assert_eq!(d.get(root).and_then(|r| r.parent_id), None);
    assert_eq!(d.get(child).and_then(|r| r.parent_id), Some(root));
}

#[test]
fn reparent_and_reorder_normalize_sibling_order() {
    let mut d = Delegations::new();
    let first_root = create(&mut d, 1, None);
    let second_root = create(&mut d, 2, None);
    let first = create(&mut d, 3, Some(first_root));
    let moved = create(&mut d, 4, Some(first_root));
    let existing = create(&mut d, 5, Some(second_root));
    d.reparent(moved, Some(second_root)).expect("reparent should work");
    d.reorder(moved, SiblingPosition::First).expect("first should work");
    assert_eq!(d.descendants(first_root), Ok(vec![first]));
    assert_eq!(d.descendants(second_root), Ok(vec![moved, existing]));
    d.reorder(moved, SiblingPosition::Last).expect("last should work");
    d.reorder(moved, SiblingPosition::Before(existing)).expect("before should work");
    d.reorder(moved, SiblingPosition::After(existing)).expect("after should work");
    assert_eq!(d.descendants(second_root), Ok(vec![existing, moved]));
}

#[test]
fn reorder_rejects_non_sibling_without_changing_order() {
    let mut d = Delegations::new();
    let root = create(&mut d, 1, None);
    let child = create(&mut d, 2, Some(root));
    let other_root = create(&mut d, 3, None);
    assert_eq!(
        d.reorder(child, SiblingPosition::Before(other_root)),
        Err(DelegationError::NotSibling(other_root))
    );
    assert_eq!(d.descendants(root), Ok(vec![child]));
}

#[test]
fn root_descendants_and_preorder_are_deterministic() {
    let mut d = Delegations::new();
    let root = create(&mut d, 1, None);
    let a = create(&mut d, 2, Some(root));
    let b = create(&mut d, 3, Some(root));
    let grandchild = create(&mut d, 4, Some(a));
    assert_eq!(d.root(grandchild), Ok(root));
    assert_eq!(d.descendants(root), Ok(vec![a, grandchild, b]));
    assert_eq!(d.preorder(), vec![root, a, grandchild, b]);
}

#[test]
fn rank_ties_are_broken_by_stable_id() {
    let d = Delegations::from_records(vec![
        record(67_002, Some(2), None, 7),
        record(67_001, Some(1), None, 7),
    ])
    .expect("records should validate");
    assert_eq!(d.preorder(), vec![id(67_001), id(67_002)]);
}

#[test]
fn projection_flattens_external_or_missing_local_parents() {
    let mut d = Delegations::new();
    let root = create(&mut d, 1, None);
    let child = create(&mut d, 2, Some(root));
    let grandchild = create(&mut d, 3, Some(child));
    assert_eq!(
        d.preorder_projection(&ids(&[child, grandchild])),
        vec![
            ProjectionEntry {
                id: child,
                depth: 0,
                external_parent_id: Some(root)
            },
            ProjectionEntry {
                id: grandchild,
                depth: 1,
                external_parent_id: None
            },
        ]
    );
    assert_eq!(
        d.preorder_projection(&ids(&[root, grandchild])),
        vec![
            ProjectionEntry {
                id: root,
                depth: 0,
                external_parent_id: None
            },
            ProjectionEntry {
                id: grandchild,
                depth: 0,
                external_parent_id: Some(child)
            },
        ]
    );
}

#[test]
fn pane_projection_ignores_tombstones_and_unselected_panes() {
    let mut d = Delegations::new();
    let root = create(&mut d, 1, None);
    let child = create(&mut d, 2, Some(root));
    let other = create(&mut d, 3, Some(root));
    d.tombstone_pane(pane(1));
    let projection = d.preorder_for_panes(&HashSet::from([2, 99]));
    assert_eq!(
        projection,
        vec![ProjectionEntry {
            id: child,
            depth: 0,
            external_parent_id: Some(root)
        }]
    );
    assert!(!projection.iter().any(|entry| entry.id == other));
}

#[test]
fn pane_close_tombstones_and_gc_waits_for_retained_descendants() {
    let mut d = Delegations::new();
    let root = create(&mut d, 1, None);
    let child = create(&mut d, 2, Some(root));
    assert_eq!(d.tombstone_pane(pane(1)), Some(root));
    assert!(d.gc_tombstones().is_empty());
    assert_eq!(d.root(child), Ok(root));
    d.tombstone_pane(pane(2));
    assert_eq!(d.gc_tombstones(), vec![child, root]);
    assert!(d.records().is_empty());
}

#[test]
fn gc_preserves_non_tombstone_record_without_a_pane() {
    let mut d = Delegations::new();
    let retained = d.create(None, None, None).expect("record should be created");
    assert!(d.gc_tombstones().is_empty());
    assert!(d.get(retained).is_some());
}

#[test]
fn missing_queries_return_typed_errors() {
    let d = Delegations::new();
    let missing = id(68_001);
    assert_eq!(d.root(missing), Err(DelegationError::NotFound(missing)));
    assert_eq!(d.descendants(missing), Err(DelegationError::NotFound(missing)));
}

// ---------------------------------------------------------------- own tests

#[test]
fn delegation_ids_round_trip_text_and_reject_zero() {
    let delegation_id = id(50_000);
    assert_eq!(delegation_id.to_string(), "d50000");
    assert_eq!(delegation_id.to_string().parse(), Ok(delegation_id));
    assert!(DelegationId::from_raw(0, &mut DelegationIdAllocator::new()).is_err());
    assert!("d0".parse::<DelegationId>().is_err());
    assert!("50000".parse::<DelegationId>().is_err());
    assert!("d+7".parse::<DelegationId>().is_ok());
    let mut allocator = DelegationIdAllocator::new();
    let restored = DelegationId::from_raw(50_000, &mut allocator).unwrap();
    let fresh = DelegationId::allocate(&mut allocator).unwrap();
    assert!(fresh.raw() > restored.raw());
}

#[test]
fn loading_normalizes_ranks_and_keeps_sibling_order() {
    let d = Delegations::from_records(vec![
        record(61_001, Some(1), None, 99),
        record(61_002, Some(2), None, 2),
        record(61_003, Some(3), Some(61_001), 55),
    ])
    .expect("records should validate");
    assert_eq!(d.get(id(61_002)).map(|r| r.sibling_rank), Some(0));
    assert_eq!(d.get(id(61_001)).map(|r| r.sibling_rank), Some(1));
    assert_eq!(d.get(id(61_003)).map(|r| r.sibling_rank), Some(0));
    assert_eq!(d.preorder(), vec![id(61_002), id(61_001), id(61_003)]);
}

#[test]
fn repair_keeps_lowest_rank_dedupes_panes_and_cuts_cycles() {
    let d = Delegations::repair_records(vec![
        // duplicate identity: the lower rank wins
        record(70_001, Some(1), None, 5),
        record(70_001, Some(9), None, 3),
        // pane 9 is already carried by 70_001, so 70_002 becomes a tombstone
        record(70_002, Some(9), Some(70_001), 0),
        // dangling parent becomes a root
        record(70_003, Some(3), Some(79_999), 1),
        // a two-record cycle is cut where the walk from 70_004 comes back
        record(70_004, Some(4), Some(70_005), 0),
        record(70_005, Some(5), Some(70_004), 0),
        // self parent becomes a root
        record(70_006, Some(6), Some(70_006), 2),
    ]);
    assert_eq!(d.records().len(), 6);
    assert_eq!(d.get(id(70_001)).and_then(|r| r.pane_id), Some(pane(9)));
    let duplicate = d.get(id(70_002)).unwrap();
    assert_eq!((duplicate.pane_id, duplicate.tombstone), (None, true));
    assert_eq!(d.get(id(70_003)).and_then(|r| r.parent_id), None);
    assert_eq!(d.get(id(70_004)).and_then(|r| r.parent_id), None);
    assert_eq!(d.get(id(70_005)).and_then(|r| r.parent_id), Some(id(70_004)));
    assert_eq!(d.get(id(70_006)).and_then(|r| r.parent_id), None);
    assert_eq!(d.root(id(70_005)), Ok(id(70_004)));
    assert_eq!(d.preorder().len(), 6);
}

#[test]
fn gc_removes_rounds_in_increasing_order_and_renumbers() {
    let mut d = Delegations::new();
    let root = create(&mut d, 1, None);
    let a = create(&mut d, 2, Some(root));
    let b = create(&mut d, 3, Some(root));
    let c = create(&mut d, 4, Some(root));
    d.tombstone_pane(pane(2));
    d.tombstone_pane(pane(3));
    assert_eq!(d.gc_tombstones(), vec![a, b]);
    assert_eq!(d.descendants(root), Ok(vec![c]));
    assert_eq!(d.get(c).map(|r| r.sibling_rank), Some(0));
}

#[test]
fn error_messages_and_codes() {
    let err = DelegationError::NotFound(id(7));
    assert_eq!(err.to_string(), "delegation d7 was not found");
    let answer = herdr::delegation_api::delegation_error("req".to_string(), err);
    assert_eq!(answer.id, "req");
    assert_eq!(answer.error.code, "delegation_not_found");
    assert_eq!(
        DelegationError::PaneMismatch { expected: pane(1), actual: pane(2) }.to_string(),
        "delegation is associated with pane 2, not 1"
    );
    assert_eq!(
        herdr::delegation_api::delegation_error("r".to_string(), DelegationError::Cycle).error.code,
        "delegation_cycle"
    );
    assert_eq!(
        herdr::delegation_api::delegation_error("r".to_string(), DelegationError::PaneNotAssociated(pane(3)))
            .error
            .code,
        "delegation_mutation_failed"
    );
    assert_eq!(
        DelegationValidationError::DanglingParent { id: id(1), parent: id(2) }.to_string(),
        "delegation d1 has missing parent d2"
    );
}

#[test]
fn purpose_is_trimmed_cut_and_dropped_when_empty() {
    assert_eq!(normalize_purpose(Some("  review \n".to_string())).as_deref(), Some("review"));
    assert_eq!(normalize_purpose(Some(" \t ".to_string())), None);
    assert_eq!(normalize_purpose(None), None);
    let long = "x".repeat(250);
    assert_eq!(normalize_purpose(Some(long)).map(|p| p.chars().count()), Some(200));
    assert_eq!(
        herdr::delegation_api::parse_id("d12").map(|id| id.raw()),
        Ok(12)
    );
    assert_eq!(
        herdr::delegation_api::parse_id("12").unwrap_err(),
        "delegation ID must be 'd' followed by a positive integer"
    );
    assert_eq!(herdr::delegation_api::parse_optional_id(None), Ok(None));
}

#[test]
fn preorder_and_descendants_list_each_record_once() {
    let mut d = Delegations::new();
    let r1 = create(&mut d, 1, None);
    let r2 = create(&mut d, 2, None);
    let a = create(&mut d, 3, Some(r1));
    let b = create(&mut d, 4, Some(a));
    let c = create(&mut d, 5, Some(r2));
    let order = d.preorder();
    assert_eq!(order.len(), 5);
    assert_eq!(ids(&order), ids(&[r1, r2, a, b, c]));
    let below_r1 = d.descendants(r1).expect("r1 exists");
    assert_eq!(below_r1, vec![a, b]);
    assert!(!below_r1.contains(&r1));
    assert_eq!(d.descendants(b), Ok(vec![]));
}

#[test]
fn collection_members_display_active_then_archived_in_forest_order() {
    let mut allocator = CollectionIdAllocator::new();
    let collection_id = CollectionId::allocate(&mut allocator).expect("collection id");
    let collection = PaneCollection::from_saved(
        collection_id,
        None,
        vec![pane(1), pane(2), pane(3), pane(4), pane(5)],
        Some(pane(1)),
        vec![pane(4), pane(5)],
    )
    .expect("valid collection");
    let mut d = Delegations::new();
    let root = create(&mut d, 3, None);
    create(&mut d, 1, Some(root));
    let archived_root = create(&mut d, 5, None);
    create(&mut d, 4, Some(archived_root));
    assert_eq!(
        canonical_member_order(&collection, &d),
        vec![pane(3), pane(1), pane(2), pane(5), pane(4)]
    );
}

#[test]
fn projection_lists_each_included_record_once() {
    let mut d = Delegations::new();
    let r1 = create(&mut d, 1, None);
    let a = create(&mut d, 2, Some(r1));
    let b = create(&mut d, 3, Some(a));
    let c = create(&mut d, 4, Some(b));
    let r2 = create(&mut d, 5, None);
    let mut included = ids(&[r1, b, c, r2]);
    included.insert(987_654);
    let projected = d.preorder_projection(&included);
    let listed: Vec<DelegationId> = projected.iter().map(|entry| entry.id).collect();
    assert_eq!(listed, vec![r1, b, c, r2]);
    assert_eq!(ids(&listed), ids(&[r1, b, c, r2]));
}

#[test]
fn repair_makes_records_without_a_pane_tombstones() {
    let mut untombstoned = record(5, None, None, 0);
    untombstoned.tombstone = false;
    let d = Delegations::repair_records(vec![untombstoned, record(6, Some(6), None, 1)]);
    let missing = d.get(id(5)).unwrap();
    assert_eq!((missing.pane_id, missing.tombstone), (None, true));
    let carried = d.get(id(6)).unwrap();
    assert_eq!((carried.pane_id, carried.tombstone), (Some(pane(6)), false));
}

#[test]
fn a_rejected_cycle_names_where_the_walk_from_the_smallest_record_comes_back() {
    // 64_001 -> 64_002 -> 64_003 -> 64_002: the walk from 64_001 first meets 64_002 again.
    let cycle = Delegations::from_records(vec![
        record(64_003, Some(3), Some(64_002), 0),
        record(64_001, Some(1), Some(64_002), 0),
        record(64_002, Some(2), Some(64_003), 0),
    ]);
    assert!(matches!(cycle, Err(DelegationValidationError::Cycle(x)) if x == id(64_002)));
}
