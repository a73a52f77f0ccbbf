use herdr::collection_close::{
    collection_close_route, promotion_target, CloseRefusal, CloseRoute, PromoteTargetError,
};
use herdr::ids::PaneId;
use herdr::ids::{CollectionId, CollectionIdAllocator, PaneIdAllocator};
use herdr::layout::LayoutLeaf;
use herdr::schema::CollectionCloseDisposition;
use herdr::tile_layout::TileLayout;
use herdr::tiles::SplitAxis;

fn collection_id(raw: u64) -> CollectionId {
    CollectionId::from_raw(raw, &mut CollectionIdAllocator::new()).expect("valid collection id")
}

/// A tab with a pane beside a collection holding one member.
fn pane_beside_collection(id: CollectionId) -> TileLayout {
    let mut ids = PaneIdAllocator::new();
    let (mut layout, root) = TileLayout::new(&mut ids);
    let member = layout.split_focused(&mut ids, SplitAxis::Horizontal);
    assert!(layout.insert_collection_near(LayoutLeaf::Pane(root), id, SplitAxis::Vertical, 0.5f32.to_bits()));
    assert!(layout.remove_tiled_pane_for_collection(member));
    assert!(layout.add_collection_member(id, member));
    layout
}

/// A tab whose only leaf is a collection, with or without a member.
fn collection_only(id: CollectionId, with_member: bool) -> TileLayout {
    let mut ids = PaneIdAllocator::new();
    let (mut layout, root) = TileLayout::new(&mut ids);
    assert!(layout.insert_collection_near(LayoutLeaf::Pane(root), id, SplitAxis::Horizontal, 0.5f32.to_bits()));
    assert!(layout.remove_tiled_pane_for_collection(root));
    if with_member {
        assert!(layout.add_collection_member(id, root));
    }
    layout
}

#[test]
fn the_last_leaf_of_the_only_tab_closes_the_workspace() {
    let id = collection_id(7);
    let layout = collection_only(id, true);
    assert_eq!(layout.leaf_count(), 1);
    let cascade = Some(CollectionCloseDisposition::CascadeClose);
    assert_eq!(collection_close_route(&layout, id, 1, cascade, false), Ok(CloseRoute::CloseWorkspace));
    let refused = collection_close_route(&layout, id, 1, cascade, true).unwrap_err();
    assert_eq!(refused, CloseRefusal::ConfirmationRequired);
    assert_eq!(refused.code(), "confirmation_required");
    assert_eq!(refused.message(), "closing this collection would close a worktree group");
    // Promotion keeps the workspace.
    assert_eq!(
        collection_close_route(&layout, id, 1, Some(CollectionCloseDisposition::PromoteMembers), true),
        Ok(CloseRoute::PromoteMembers)
    );
}

#[test]
fn an_empty_collection_closes_its_tab_or_its_leaf() {
    let id = collection_id(8);
    let alone = collection_only(id, false);
    assert_eq!(collection_close_route(&alone, id, 1, None, false), Ok(CloseRoute::CloseWorkspace));
    assert_eq!(collection_close_route(&alone, id, 2, None, false), Ok(CloseRoute::CloseEmptyTab));
}

#[test]
fn members_need_a_disposition() {
    let id = collection_id(9);
    let layout = pane_beside_collection(id);
    let refused = collection_close_route(&layout, id, 1, None, false).unwrap_err();
    assert_eq!(refused, CloseRefusal::DispositionRequired);
    assert_eq!(refused.code(), "collection_disposition_required");
    assert_eq!(
        refused.message(),
        "non-empty collection close requires cascade_close or promote_members"
    );
    assert_eq!(
        collection_close_route(&layout, id, 1, Some(CollectionCloseDisposition::CascadeClose), false),
        Ok(CloseRoute::CascadeMembers)
    );
    // An unknown collection has no members and sits beside other leaves.
    assert_eq!(
        collection_close_route(&layout, collection_id(10), 1, None, false),
        Ok(CloseRoute::RemoveEmptyCollection)
    );
}

#[test]
fn promoted_members_go_next_to_a_tiled_pane_of_the_tab() {
    let id = collection_id(11);
    let layout = pane_beside_collection(id);
    let tiled = layout.tiled_pane_ids()[0];
    assert_eq!(promotion_target(&layout, None), Ok(Some(tiled)));
    assert_eq!(promotion_target(&layout, Some(("p1".into(), Some(tiled)))), Ok(Some(tiled)));
    let member = layout.collection(id).unwrap().members()[0];
    let inside = promotion_target(&layout, Some(("p2".into(), Some(member)))).unwrap_err();
    assert_eq!(inside, PromoteTargetError::NotTiled);
    assert_eq!(inside.code(), "collection_promote_failed");
    assert_eq!(inside.message(), "promotion target must be a tiled pane in the collection tab");
    let elsewhere = promotion_target(&layout, Some(("p9".into(), Some(PaneId::from_raw(99)))));
    assert_eq!(elsewhere, Err(PromoteTargetError::NotTiled));
    let unknown = promotion_target(&layout, Some(("nope".into(), None))).unwrap_err();
    assert_eq!(unknown.code(), "target_pane_not_found");
    assert_eq!(unknown.message(), "target pane nope not found");
    assert_eq!(promotion_target(&collection_only(collection_id(12), true), None), Ok(None));
}
