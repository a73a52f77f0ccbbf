use herdr::collection_view::{
    contains, CollectionHitKind, CollectionHitRegion, CollectionInteractionMode, CollectionLayout,
    CollectionViewState, MAX_PREVIEW_HEIGHT, MIN_PREVIEW_HEIGHT,
};
use herdr::ids::{CollectionId, CollectionIdAllocator, CollectionIdError, PaneId};
use herdr::layout::{
    find_in_direction, opposite_direction, range_center_distance, range_overlap_amount,
    ranges_overlap, Borders, NavDirection, PaneCollection, PaneInfo, Rect,
};

fn pane(raw: u32) -> PaneId {
    PaneId::from_raw(raw)
}

#[test]
fn collection_ids_are_distinct_and_restored_ids_reserve_allocator_space() {
    let mut allocator = CollectionIdAllocator::new();
    let restored = CollectionId::from_raw(9_100_001, &mut allocator).expect("valid restored id");
    let allocated = CollectionId::allocate(&mut allocator).expect("collection id available");
    assert_ne!(restored, allocated);
    assert!(allocated.raw() > restored.raw());
}

#[test]
fn untrusted_collection_id_parsing_does_not_reserve_allocator_space() {
    let mut allocator = CollectionIdAllocator::new();
    let before = CollectionId::allocate(&mut allocator).expect("collection ID available");
    let parsed = CollectionId::parse("collection_18446744073709551614")
        .expect("near-max public ID parses");
    let after =
        CollectionId::allocate(&mut allocator).expect("untrusted lookup must not exhaust allocation");

    assert!(parsed.raw() > after.raw());
    assert!(after.raw() > before.raw());
}

#[test]
fn collection_ids_reject_zero_and_the_maximum() {
    let mut allocator = CollectionIdAllocator::new();
    assert_eq!(CollectionId::from_raw(0, &mut allocator), Err(CollectionIdError::Invalid));
    assert_eq!(
        CollectionId::from_raw(u64::MAX, &mut allocator),
        Err(CollectionIdError::Invalid)
    );
    let id = CollectionId::from_raw(42, &mut allocator).unwrap();
    assert_eq!(id.to_string(), "collection_42");
    assert_eq!(CollectionId::parse("collection_42"), Ok(id));
    assert!(CollectionId::parse("collection_0").is_err());
    assert!(CollectionId::parse("42").is_err());
    let mut full = CollectionIdAllocator::new();
    CollectionId::from_raw(u64::MAX - 1, &mut full).unwrap();
    assert_eq!(CollectionId::allocate(&mut full), Err(CollectionIdError::Exhausted));
}

#[test]
fn preview_heights_are_bounded_and_stale_members_are_removed() {
    let first = PaneId::from_raw(1);
    let stale = PaneId::from_raw(2);
    let mut state = CollectionViewState::default();
    state.expanded.extend([first, stale]);
    state.set_preview_height(first, 1);
    state.maximized = Some(stale);
    state.mode = CollectionInteractionMode::Terminal;
    state.entered = Some(stale);
    state.retain_members(&[first]);
    assert_eq!(state.preview_height(first), MIN_PREVIEW_HEIGHT);
    assert!(!state.expanded.contains(&stale));
    assert_eq!(state.maximized, None);
    assert_eq!(state.mode, CollectionInteractionMode::List);
    assert_eq!(state.entered, None);
}

#[test]
fn preview_height_defaults_and_clamps() {
    let mut state = CollectionViewState::default();
    assert_eq!(state.preview_height(pane(5)), 8);
    state.set_preview_height(pane(5), 1000);
    assert_eq!(state.preview_height(pane(5)), MAX_PREVIEW_HEIGHT);
    state.set_preview_height(pane(5), 12);
    assert_eq!(state.preview_height(pane(5)), 12);
    assert_eq!(state.preview_heights.len(), 1);
}

#[test]
fn collection_membership_selection_and_archive() {
    let mut allocator = CollectionIdAllocator::new();
    let id = CollectionId::allocate(&mut allocator).unwrap();
    let mut collection = PaneCollection::empty(id, Some("helpers".to_string()));
    assert!(collection.add_member(pane(1)));
    assert!(collection.add_member(pane(2)));
    assert!(collection.add_member(pane(3)));
    assert!(!collection.add_member(pane(2)));
    assert_eq!(collection.selected(), Some(pane(1)));
    assert_eq!(collection.revision(), 3);
    assert!(collection.set_member_archived(pane(2), true));
    assert!(collection.is_archived(pane(2)));
    assert_eq!(collection.active_members(), vec![pane(1), pane(3)]);
    assert_eq!(collection.archived_members(), vec![pane(2)]);
    assert_eq!(collection.revision(), 4);
    // archiving again changes nothing but still succeeds
    assert!(collection.set_member_archived(pane(2), true));
    assert_eq!(collection.revision(), 4);
    assert!(collection.select_member(pane(3)));
    assert!(collection.reorder_member(pane(3), 0));
    assert_eq!(collection.members(), &[pane(3), pane(1), pane(2)]);
    assert!(!collection.reorder_member(pane(3), 3));
    // removing the selected member selects the one taking its place
    assert!(collection.remove_member(pane(3)));
    assert_eq!(collection.selected(), Some(pane(1)));
    assert!(collection.remove_member(pane(2)));
    assert!(!collection.is_archived(pane(2)));
    assert!(collection.remove_member(pane(1)));
    assert_eq!(collection.selected(), None);
    assert!(!collection.remove_member(pane(1)));
}

#[test]
fn removing_the_last_selected_member_selects_the_one_before() {
    let mut allocator = CollectionIdAllocator::new();
    let id = CollectionId::allocate(&mut allocator).unwrap();
    let mut collection = PaneCollection::empty(id, None);
    collection.add_member(pane(1));
    collection.add_member(pane(2));
    collection.select_member(pane(2));
    collection.remove_member(pane(2));
    assert_eq!(collection.selected(), Some(pane(1)));
}

#[test]
fn saved_collections_are_checked() {
    let mut allocator = CollectionIdAllocator::new();
    let id = CollectionId::allocate(&mut allocator).unwrap();
    assert!(PaneCollection::from_saved(id, None, vec![pane(1), pane(1)], Some(pane(1)), vec![]).is_none());
    assert!(PaneCollection::from_saved(id, None, vec![pane(1)], Some(pane(2)), vec![]).is_none());
    assert!(PaneCollection::from_saved(id, None, vec![pane(1)], None, vec![]).is_none());
    assert!(PaneCollection::from_saved(id, None, vec![pane(1)], Some(pane(1)), vec![pane(3)]).is_none());
    let restored =
        PaneCollection::from_saved(id, None, vec![pane(1), pane(2)], Some(pane(2)), vec![pane(1)]).unwrap();
    assert_eq!(restored.selected(), Some(pane(2)));
    assert!(restored.is_archived(pane(1)));
    assert_eq!(restored.revision(), 0);
    let mut rolled = restored.clone();
    assert!(rolled.set_member_archived(pane(1), false));
    assert!(rolled.rollback_member_restore(pane(1), 0));
    assert!(rolled.is_archived(pane(1)));
    assert_eq!(rolled.revision(), 0);
}

fn info(id: u32, x: u16, y: u16, width: u16, height: u16) -> PaneInfo {
    let rect = Rect { x, y, width, height };
    PaneInfo {
        id: pane(id),
        rect,
        inner_rect: rect,
        scrollbar_rect: None,
        borders: Borders { top: true, right: true, bottom: true, left: true },
        is_focused: false,
    }
}

#[test]
fn direction_search_prefers_nearest_edge_then_overlap_then_order() {
    let focused = info(1, 40, 10, 20, 10);
    let panes = vec![
        focused,
        info(2, 0, 0, 20, 12),   // left, overlap rows 10..12
        info(3, 10, 10, 30, 10), // left, touching edge, full overlap
        info(4, 70, 10, 10, 10), // right
        info(5, 40, 0, 20, 10),  // up
    ];
    assert_eq!(find_in_direction(&focused, NavDirection::Left, &panes), Some(pane(3)));
    assert_eq!(find_in_direction(&focused, NavDirection::Right, &panes), Some(pane(4)));
    assert_eq!(find_in_direction(&focused, NavDirection::Up, &panes), Some(pane(5)));
    assert_eq!(find_in_direction(&focused, NavDirection::Down, &panes), None);
    // equal edges: the larger overlap wins over layout order
    let tie = vec![focused, info(6, 0, 0, 40, 11), info(7, 0, 11, 40, 20)];
    assert_eq!(find_in_direction(&focused, NavDirection::Left, &tie), Some(pane(7)));
}

#[test]
fn span_helpers() {
    assert!(ranges_overlap(0, 10, 9, 5));
    assert!(!ranges_overlap(0, 10, 10, 5));
    assert_eq!(range_overlap_amount(0, 10, 5, 10), 5);
    assert_eq!(range_overlap_amount(0, 10, 20, 10), 0);
    assert_eq!(range_overlap_amount(65530, 100, 65520, 100), 5);
    assert_eq!(range_center_distance(0, 10, 10, 10), 20);
    assert_eq!(range_center_distance(10, 10, 0, 10), 20);
    assert_eq!(opposite_direction(NavDirection::Left), NavDirection::Right);
    assert_eq!(opposite_direction(NavDirection::Up), NavDirection::Down);
    assert!(contains(Rect { x: 1, y: 1, width: 2, height: 2 }, 2, 2));
    assert!(!contains(Rect { x: 1, y: 1, width: 0, height: 2 }, 1, 1));
    assert!(!contains(Rect { x: 1, y: 1, width: 2, height: 2 }, 3, 1));
}

#[test]
fn hit_at_prefers_the_region_drawn_last() {
    let mut allocator = CollectionIdAllocator::new();
    let id = CollectionId::allocate(&mut allocator).expect("collection id available");
    let region = |kind, x, y, width, height| CollectionHitRegion {
        collection_id: id,
        pane_id: Some(pane(1)),
        kind,
        rect: Rect { x, y, width, height },
        terminal_row_offset: 0,
    };
    let outer = Rect { x: 0, y: 0, width: 20, height: 10 };
    let layout = CollectionLayout {
        id,
        rect: outer,
        inner_rect: outer,
        active_header: None,
        archive_header: None,
        rows: Vec::new(),
        hits: vec![
            region(CollectionHitKind::Row, 0, 0, 20, 10),
            region(CollectionHitKind::Preview, 2, 2, 5, 5),
            region(CollectionHitKind::ResizeHandle, 2, 6, 5, 0),
        ],
        content_height: 10,
        viewport_height: 10,
        scroll: 0,
        maximized: None,
    };
    assert_eq!(layout.hit_at(3, 3).map(|hit| hit.kind), Some(CollectionHitKind::Preview));
    assert_eq!(layout.hit_at(3, 6).map(|hit| hit.kind), Some(CollectionHitKind::Preview));
    assert_eq!(layout.hit_at(15, 8).map(|hit| hit.kind), Some(CollectionHitKind::Row));
    assert_eq!(layout.hit_at(25, 8), None);
}

#[test]
fn find_in_direction_tiebreaks_by_larger_overlap_before_layout_order() {
    let no_borders = Borders { top: false, right: false, bottom: false, left: false };
    let focused = PaneInfo {
        id: pane(1),
        rect: Rect { x: 10, y: 10, width: 10, height: 10 },
        inner_rect: Rect { x: 10, y: 10, width: 10, height: 10 },
        scrollbar_rect: None,
        borders: no_borders,
        is_focused: true,
    };
    let small_overlap_first = PaneInfo {
        id: pane(2),
        rect: Rect { x: 0, y: 10, width: 10, height: 2 },
        inner_rect: Rect { x: 0, y: 10, width: 10, height: 2 },
        scrollbar_rect: None,
        borders: no_borders,
        is_focused: false,
    };
    let larger_overlap_second = PaneInfo {
        id: pane(3),
        rect: Rect { x: 0, y: 10, width: 10, height: 8 },
        inner_rect: Rect { x: 0, y: 10, width: 10, height: 8 },
        scrollbar_rect: None,
        borders: no_borders,
        is_focused: false,
    };
    let panes = vec![focused.clone(), small_overlap_first, larger_overlap_second];

    assert_eq!(find_in_direction(&focused, NavDirection::Left, &panes), Some(pane(3)));
}
