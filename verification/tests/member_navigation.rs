use herdr::collection_view::{
    CollectionInteractionMode, CollectionLayout, CollectionRowView, CollectionSection,
    CollectionViewState, MIN_PREVIEW_HEIGHT,
};
use herdr::delegation::{Delegations, SiblingPosition};
use herdr::ids::{CollectionId, CollectionIdAllocator, PaneId};
use herdr::layout::{PaneCollection, Rect};
use herdr::member_navigation::{
    relative_member, relative_reorder, select_relative_target, RelativeReorder,
};

fn pane(raw: u32) -> PaneId {
    PaneId::from_raw(raw)
}

fn collection(members: &[u32], selected: u32, archived: &[u32]) -> PaneCollection {
    let mut ids = CollectionIdAllocator::new();
    let id = CollectionId::allocate(&mut ids).unwrap();
    PaneCollection::from_saved(
        id,
        None,
        members.iter().map(|raw| pane(*raw)).collect(),
        Some(pane(selected)),
        archived.iter().map(|raw| pane(*raw)).collect(),
    )
    .expect("consistent collection")
}

fn row(pane_raw: u32, virtual_y: usize) -> CollectionRowView {
    let rect = Rect { x: 0, y: 0, width: 10, height: 1 };
    CollectionRowView {
        pane_id: pane(pane_raw),
        section: CollectionSection::Active,
        depth: 0,
        external_parent: false,
        virtual_y,
        row_rect: rect,
        preview_rect: None,
        preview_size: None,
        preview_row_offset: 0,
        resize_rect: None,
    }
}

fn laid_out(id: CollectionId, rows: Vec<CollectionRowView>, viewport_height: usize) -> CollectionLayout {
    let rect = Rect { x: 0, y: 0, width: 10, height: 10 };
    CollectionLayout {
        id,
        rect,
        inner_rect: rect,
        active_header: None,
        archive_header: None,
        rows,
        hits: Vec::new(),
        content_height: 0,
        viewport_height,
        scroll: 0,
        maximized: None,
    }
}

#[test]
fn relative_member_stays_within_the_rows() {
    let order = [pane(1), pane(2), pane(3)];
    assert_eq!(relative_member(&order, Some(pane(2)), 1), Some(pane(3)));
    assert_eq!(relative_member(&order, Some(pane(2)), -1), Some(pane(1)));
    assert_eq!(relative_member(&order, Some(pane(3)), 1), Some(pane(3)));
    assert_eq!(relative_member(&order, Some(pane(1)), -5), Some(pane(1)));
    assert_eq!(relative_member(&order, Some(pane(9)), 1), Some(pane(2)));
    assert_eq!(relative_member(&order, None, 0), Some(pane(1)));
    assert_eq!(relative_member(&[], Some(pane(1)), 1), None);
}

#[test]
fn selection_follows_the_rendered_rows_and_reports_where_the_row_lies() {
    let c = collection(&[1, 2, 3], 1, &[]);
    // The rendered order differs from member order.
    let layout = laid_out(c.id, vec![row(3, 0), row(1, 4), row(2, 9)], 5);
    assert_eq!(select_relative_target(&c, Some(&layout), 1), Some((pane(2), Some((9, 5)))));
    assert_eq!(select_relative_target(&c, Some(&layout), -1), Some((pane(3), Some((0, 5)))));
    // Without a layout the members are the order.
    assert_eq!(select_relative_target(&c, None, 1), Some((pane(2), None)));
}

#[test]
fn revealing_a_row_scrolls_the_least_amount() {
    let mut view = CollectionViewState::default();
    view.scroll = 10;
    view.mode = CollectionInteractionMode::Terminal;
    view.entered = Some(pane(1));
    view.reveal_selection(Some((12, 5)));
    assert_eq!(view.scroll, 10);
    assert_eq!(view.mode, CollectionInteractionMode::List);
    assert_eq!(view.entered, None);
    view.reveal_selection(Some((3, 5)));
    assert_eq!(view.scroll, 3);
    view.reveal_selection(Some((20, 5)));
    assert_eq!(view.scroll, 16);
    view.reveal_selection(None);
    assert_eq!(view.scroll, 16);
}

#[test]
fn toggling_expansion_collapses_and_leaves_the_entered_terminal() {
    let mut view = CollectionViewState::default();
    view.toggle_expanded(pane(1));
    assert_eq!(view.expanded, vec![pane(1)]);
    view.mode = CollectionInteractionMode::Terminal;
    view.entered = Some(pane(1));
    view.toggle_expanded(pane(1));
    assert!(view.expanded.is_empty());
    assert_eq!(view.mode, CollectionInteractionMode::List);
    assert_eq!(view.entered, None);
}

#[test]
fn toggling_maximize_restores_the_same_member() {
    let mut view = CollectionViewState::default();
    view.toggle_maximized(pane(2));
    assert_eq!(view.maximized, Some(pane(2)));
    view.toggle_maximized(pane(3));
    assert_eq!(view.maximized, Some(pane(3)));
    view.toggle_maximized(pane(3));
    assert_eq!(view.maximized, None);
}

#[test]
fn resizing_a_preview_expands_it_and_keeps_the_least_height() {
    let mut view = CollectionViewState::default();
    view.resize_preview(pane(1), 8, 2);
    assert_eq!(view.expanded, vec![pane(1)]);
    assert_eq!(view.preview_height(pane(1)), 10);
    view.resize_preview(pane(1), 10, -20);
    assert_eq!(view.expanded, vec![pane(1)]);
    assert_eq!(view.preview_height(pane(1)), MIN_PREVIEW_HEIGHT);
}

#[test]
fn reordering_an_undelegated_member_moves_it_within_the_collection() {
    let c = collection(&[1, 2, 3], 2, &[]);
    let d = Delegations::new();
    assert_eq!(
        relative_reorder(&c, &d, 1),
        Some(RelativeReorder::Collection { pane_id: pane(2), index: 2 })
    );
    assert_eq!(
        relative_reorder(&c, &d, -4),
        Some(RelativeReorder::Collection { pane_id: pane(2), index: 0 })
    );
}

#[test]
fn reordering_a_delegated_member_moves_it_among_its_section_peers() {
    let mut d = Delegations::new();
    let first = d.create(Some(pane(1)), None, None).unwrap();
    let archived_peer = d.create(Some(pane(2)), None, None).unwrap();
    let third = d.create(Some(pane(3)), None, None).unwrap();
    let _outsider = d.create(Some(pane(9)), None, None).unwrap();
    let c = collection(&[1, 2, 3], 3, &[2]);
    // The archived sibling and the sibling outside the collection are skipped.
    assert_eq!(
        relative_reorder(&c, &d, -1),
        Some(RelativeReorder::Delegation {
            delegation_id: third,
            position: SiblingPosition::Before(first),
        })
    );
    // Already last among its peers: nothing moves.
    assert_eq!(relative_reorder(&c, &d, 1), None);
    let archived = collection(&[1, 2, 3], 2, &[2]);
    assert_eq!(relative_reorder(&archived, &d, 1), None);
    let _ = archived_peer;
    let down = collection(&[1, 2, 3], 1, &[2]);
    assert_eq!(
        relative_reorder(&down, &d, 1),
        Some(RelativeReorder::Delegation {
            delegation_id: first,
            position: SiblingPosition::After(third),
        })
    );
}
