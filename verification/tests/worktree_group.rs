use herdr::delegation::Delegations;
use herdr::ids::{CollectionId, CollectionIdAllocator, PaneIdAllocator};
use herdr::layout::LayoutLeaf;
use herdr::tile_layout::TileLayout;
use herdr::tiles::SplitAxis;
use herdr::worktree_group::{group_close_indices, has_nested_lifecycle, WorktreeSpace};

fn space(key: &str, linked: bool) -> Option<WorktreeSpace> {
    Some(WorktreeSpace { key: key.into(), is_linked_worktree: linked })
}

#[test]
fn a_primary_checkout_with_nested_lifecycle_closes_its_group() {
    let spaces = vec![space("repo", false), None, space("repo", true), space("other", false)];
    assert_eq!(group_close_indices(0, true, &spaces), vec![0, 2]);
    assert_eq!(group_close_indices(0, false, &spaces), vec![0]);
    // A linked worktree closes alone.
    assert_eq!(group_close_indices(2, true, &spaces), vec![2]);
    // A group of one closes alone.
    assert_eq!(group_close_indices(3, true, &spaces), vec![3]);
    assert_eq!(group_close_indices(1, true, &spaces), vec![1]);
}

#[test]
fn nested_lifecycle_means_a_collection_or_a_delegated_pane() {
    let mut ids = PaneIdAllocator::new();
    let (plain, root) = TileLayout::new(&mut ids);
    let mut delegations = Delegations::new();
    assert!(!has_nested_lifecycle(&[plain], &delegations));

    let (plain, _) = TileLayout::new(&mut ids);
    delegations.create(Some(root), None, None).unwrap();
    let (first, _) = TileLayout::new(&mut PaneIdAllocator::new());
    assert!(has_nested_lifecycle(&[plain, first], &delegations));

    let (mut grouped, other) = TileLayout::new(&mut ids);
    let collection: CollectionId =
        CollectionId::from_raw(3, &mut CollectionIdAllocator::new()).unwrap();
    assert!(grouped.insert_collection_near(LayoutLeaf::Pane(other), collection, SplitAxis::Vertical, 0.5f32.to_bits()));
    assert!(has_nested_lifecycle(&[grouped], &Delegations::new()));
}
