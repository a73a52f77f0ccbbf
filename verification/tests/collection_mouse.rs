use herdr::collection_mouse::{collection_mouse_hit, DragMouse, DragOutcome};
use herdr::collection_view::{
    CollectionHitKind, CollectionHitRegion, CollectionLayout, CollectionViewState, MIN_PREVIEW_HEIGHT,
};
use herdr::ids::{CollectionId, CollectionIdAllocator, PaneId};
use herdr::layout::Rect;

fn rect(x: u16, y: u16, width: u16, height: u16) -> Rect {
    Rect { x, y, width, height }
}

fn collection_id(raw: u64) -> CollectionId {
    CollectionId::from_raw(raw, &mut CollectionIdAllocator::new()).expect("valid collection id")
}

fn region(id: CollectionId, pane: u32, kind: CollectionHitKind, at: Rect) -> CollectionHitRegion {
    CollectionHitRegion {
        collection_id: id,
        pane_id: Some(PaneId::from_raw(pane)),
        kind,
        rect: at,
        terminal_row_offset: 0,
    }
}

fn layout(id: CollectionId, x: u16, maximized: Option<u32>, hits: Vec<CollectionHitRegion>) -> CollectionLayout {
    CollectionLayout {
        id,
        rect: rect(x, 0, 10, 10),
        inner_rect: rect(x + 1, 1, 8, 8),
        active_header: None,
        archive_header: None,
        rows: Vec::new(),
        hits,
        content_height: 0,
        viewport_height: 8,
        scroll: 0,
        maximized: maximized.map(PaneId::from_raw),
    }
}

fn chrome(layout: &CollectionLayout) -> CollectionHitRegion {
    CollectionHitRegion {
        collection_id: layout.id,
        pane_id: None,
        kind: CollectionHitKind::Chrome,
        rect: layout.rect,
        terminal_row_offset: 0,
    }
}

#[test]
fn a_right_press_on_the_frame_opens_the_collection_menu() {
    let id = collection_id(1);
    let row = region(id, 4, CollectionHitKind::Row, rect(1, 1, 8, 1));
    let layouts = vec![layout(id, 0, None, vec![row])];
    assert_eq!(collection_mouse_hit(&layouts, true, 0, 5), Some(chrome(&layouts[0])));
    assert_eq!(collection_mouse_hit(&layouts, true, 2, 1), Some(row));
    assert_eq!(collection_mouse_hit(&layouts, false, 0, 5), None);
    assert_eq!(collection_mouse_hit(&layouts, false, 2, 1), Some(row));
}

#[test]
fn a_maximized_preview_keeps_its_border_for_the_menu() {
    let id = collection_id(2);
    let row = region(id, 4, CollectionHitKind::Row, rect(1, 1, 8, 1));
    let preview = region(id, 4, CollectionHitKind::Preview, rect(0, 0, 10, 10));
    let layouts = vec![layout(id, 0, Some(4), vec![row, preview])];
    assert_eq!(collection_mouse_hit(&layouts, true, 9, 3), Some(chrome(&layouts[0])));
    assert_eq!(collection_mouse_hit(&layouts, false, 9, 3), Some(preview));
    // Inside the border the topmost region wins, also for the right button.
    assert_eq!(collection_mouse_hit(&layouts, true, 2, 1), Some(preview));
}

#[test]
fn the_first_collection_under_the_cell_answers() {
    let left = collection_id(3);
    let right = collection_id(4);
    let layouts = vec![layout(left, 0, None, Vec::new()), layout(right, 20, None, Vec::new())];
    assert_eq!(collection_mouse_hit(&layouts, true, 20, 0), Some(chrome(&layouts[1])));
    assert_eq!(collection_mouse_hit(&layouts, true, 15, 0), None);
}

#[test]
fn a_resize_drag_follows_the_pointer_and_ends_on_release() {
    let pane = PaneId::from_raw(4);
    let mut view = CollectionViewState::default();
    view.resize_drag = Some((pane, 10, 8));
    assert_eq!(view.continue_drag(DragMouse::LeftDrag, 13), DragOutcome::Handled);
    assert_eq!(view.preview_height(pane), 11);
    assert_eq!(view.continue_drag(DragMouse::LeftDrag, 0), DragOutcome::Handled);
    assert_eq!(view.preview_height(pane), MIN_PREVIEW_HEIGHT);
    assert_eq!(view.continue_drag(DragMouse::Other, 0), DragOutcome::NotDragging);
    assert_eq!(view.continue_drag(DragMouse::LeftUp, 0), DragOutcome::Handled);
    assert_eq!(view.resize_drag, None);
}

#[test]
fn a_row_drag_moves_the_member_one_place_per_row_crossed() {
    let pane = PaneId::from_raw(4);
    let mut view = CollectionViewState::default();
    assert_eq!(view.continue_drag(DragMouse::LeftDrag, 3), DragOutcome::NotDragging);
    view.row_drag = Some((pane, 5));
    assert_eq!(view.continue_drag(DragMouse::LeftDrag, 5), DragOutcome::NotDragging);
    assert_eq!(view.continue_drag(DragMouse::LeftDrag, 3), DragOutcome::Reorder(-1));
    assert_eq!(view.row_drag, Some((pane, 3)));
    assert_eq!(view.continue_drag(DragMouse::LeftDrag, 4), DragOutcome::Reorder(1));
    assert_eq!(view.continue_drag(DragMouse::LeftUp, 4), DragOutcome::Handled);
    assert_eq!(view.row_drag, None);
}
