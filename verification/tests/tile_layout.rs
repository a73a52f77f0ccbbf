use herdr::ids::{CollectionId, CollectionIdAllocator, PaneId, PaneIdAllocator};
use herdr::layout::{LayoutLeaf, NavDirection, PanePlacement, PaneCollection, Rect};
use herdr::tile_layout::TileLayout;
use herdr::tiles::{nearest_resize_split, Node, SplitAxis, SplitBorder, TypedNode};

fn pane(id: u32) -> PaneId {
    PaneId::from_raw(id)
}

fn ratio(value: f32) -> u32 {
    value.to_bits()
}

fn collection_id(raw: u64) -> CollectionId {
    CollectionId::from_raw(raw, &mut CollectionIdAllocator::new()).expect("valid collection id")
}

fn sample_layout() -> TileLayout {
    TileLayout::from_saved(
        Node::Split {
            direction: SplitAxis::Horizontal,
            ratio: ratio(0.3),
            first: Box::new(Node::Pane(pane(1))),
            second: Box::new(Node::Split {
                direction: SplitAxis::Vertical,
                ratio: ratio(0.6),
                first: Box::new(Node::Pane(pane(2))),
                second: Box::new(Node::Split {
                    direction: SplitAxis::Horizontal,
                    ratio: ratio(0.4),
                    first: Box::new(Node::Pane(pane(3))),
                    second: Box::new(Node::Pane(pane(4))),
                }),
            }),
        },
        pane(2),
    )
}

fn split_snapshot(layout: &TileLayout) -> Vec<(SplitAxis, f32)> {
    fn collect(node: &Node, out: &mut Vec<(SplitAxis, f32)>) {
        match node {
            Node::Pane(_) => {}
            Node::Split { direction, ratio, first, second } => {
                out.push((*direction, f32::from_bits(*ratio)));
                collect(first, out);
                collect(second, out);
            }
        }
    }
    let mut out = Vec::new();
    collect(layout.root(), &mut out);
    out
}

#[test]
fn grouped_focus_and_enumeration_resolve_selected_member() {
    let mut ids = PaneIdAllocator::new();
    let (mut layout, root) = TileLayout::new(&mut ids);
    let child = layout.split_focused(&mut ids, SplitAxis::Horizontal);
    let collection = collection_id(9_200_001);
    assert!(layout.insert_collection_near(LayoutLeaf::Pane(root), collection, SplitAxis::Vertical, ratio(0.5)));
    assert!(layout.remove_tiled_pane_for_collection(child));
    assert!(layout.add_collection_member(collection, child));

    layout.focus_pane(child);

    assert_eq!(layout.focused_leaf(), LayoutLeaf::Collection(collection));
    assert_eq!(layout.focused(), child);
    assert_eq!(layout.pane_ids(), vec![root, child]);
    assert_eq!(layout.pane_count(), 2);
    assert_eq!(layout.tiled_pane_ids(), vec![root]);
    assert_eq!(layout.tiled_pane_count(), 1);
    assert_eq!(layout.collection(collection).unwrap().selected(), Some(child));
}

#[test]
fn collection_only_legacy_root_projects_selected_member_without_stale_tiled_leaf() {
    let mut ids = PaneIdAllocator::new();
    let (mut layout, root) = TileLayout::new(&mut ids);
    let collection = collection_id(9_300_001);
    assert!(layout.insert_collection_near(LayoutLeaf::Pane(root), collection, SplitAxis::Horizontal, ratio(0.5)));
    assert!(layout.remove_tiled_pane_for_collection(root));
    assert!(layout.add_collection_member(collection, root));
    assert!(layout.focus_leaf(LayoutLeaf::Collection(collection)));

    assert!(layout.tiled_pane_ids().is_empty());
    assert_eq!(layout.pane_ids(), vec![root]);
    assert_eq!(layout.focused(), root);
    assert!(matches!(layout.root(), Node::Pane(id) if *id == root));
}

#[test]
fn focus_pane_selects_requested_member_inside_focused_collection() {
    let mut ids = PaneIdAllocator::new();
    let (mut layout, root) = TileLayout::new(&mut ids);
    let second = layout.split_focused(&mut ids, SplitAxis::Horizontal);
    let collection = collection_id(9_400_001);
    assert!(layout.insert_collection_near(LayoutLeaf::Pane(root), collection, SplitAxis::Vertical, ratio(0.5)));
    assert!(layout.remove_tiled_pane_for_collection(root));
    assert!(layout.add_collection_member(collection, root));
    assert!(layout.remove_tiled_pane_for_collection(second));
    assert!(layout.add_collection_member(collection, second));

    layout.focus_pane(second);

    assert_eq!(layout.focused_leaf(), LayoutLeaf::Collection(collection));
    assert_eq!(layout.focused(), second);
    assert_eq!(layout.collection(collection).unwrap().selected(), Some(second));
    assert!(matches!(layout.root(), Node::Pane(id) if *id == second));
}

#[test]
fn split_focused_with_ratio_sets_new_split_ratio() {
    let mut ids = PaneIdAllocator::new();
    let (mut layout, root) = TileLayout::new(&mut ids);
    layout.focus_pane(root);

    layout.split_focused_with_ratio(&mut ids, SplitAxis::Horizontal, ratio(0.333));

    let splits = split_snapshot(&layout);
    assert_eq!(splits.len(), 1);
    assert_eq!(splits[0].0, SplitAxis::Horizontal);
    assert!((splits[0].1 - 0.333).abs() < f32::EPSILON);
}

#[test]
fn swapping_panes_exchanges_leaves_and_keeps_splits() {
    let mut layout = sample_layout();
    let before_splits = split_snapshot(&layout);
    assert!(layout.swap_panes(pane(2), pane(4)));
    assert_eq!(layout.pane_count(), 4);
    assert_eq!(split_snapshot(&layout), before_splits);
    assert_eq!(layout.focused(), pane(2));
    assert_eq!(
        layout.leaves(),
        vec![LayoutLeaf::Pane(pane(1)), LayoutLeaf::Pane(pane(4)), LayoutLeaf::Pane(pane(3)), LayoutLeaf::Pane(pane(2))]
    );
    assert!(!layout.swap_panes(pane(2), pane(2)));
    assert!(!layout.swap_panes(pane(2), pane(99)));
    assert!(!layout.swap_panes(pane(99), pane(2)));
    assert!(layout.swap_panes(pane(2), pane(4)));
    assert_eq!(layout.pane_ids(), vec![pane(1), pane(2), pane(3), pane(4)]);
}

#[test]
fn inserting_an_unplaced_pane_focuses_it() {
    let mut ids = PaneIdAllocator::new();
    let (mut layout, root) = TileLayout::new(&mut ids);
    let moved = pane(99);
    assert!(layout.insert_pane_near(root, moved, SplitAxis::Horizontal, ratio(0.25)));
    assert_eq!(layout.pane_count(), 2);
    assert_eq!(layout.pane_ids(), vec![root, moved]);
    assert_eq!(layout.focused(), moved);
    assert_eq!(split_snapshot(&layout), vec![(SplitAxis::Horizontal, 0.25)]);
    assert!(!layout.insert_pane_near(root, moved, SplitAxis::Horizontal, ratio(0.25)));
    assert!(!layout.insert_pane_near(pane(7), pane(8), SplitAxis::Vertical, ratio(0.5)));
    assert_eq!(layout.placement(moved), Some(PanePlacement::Tiled));
    assert_eq!(layout.placement(pane(8)), None);
}

#[test]
fn closing_the_focused_pane_hands_focus_to_the_next_leaf() {
    let mut layout = sample_layout();
    assert!(layout.close_focused());
    assert_eq!(layout.focused_leaf(), LayoutLeaf::Pane(pane(3)));
    assert_eq!(layout.pane_ids(), vec![pane(1), pane(3), pane(4)]);
    assert!(layout.focus_leaf(LayoutLeaf::Pane(pane(4))));
    assert!(layout.close_focused());
    assert_eq!(layout.focused_leaf(), LayoutLeaf::Pane(pane(3)));
    assert!(layout.close_focused());
    assert_eq!(layout.focused_leaf(), LayoutLeaf::Pane(pane(1)));
    assert!(!layout.close_focused());
    assert!(layout.is_single_pane_leaf());
    assert_eq!(layout.leaf_count(), 1);
}

#[test]
fn ratios_are_read_back_after_setting() {
    let mut layout = sample_layout();
    assert!(layout.set_ratio_at(&[true], ratio(0.7)));
    assert_eq!(split_snapshot(&layout)[1], (SplitAxis::Vertical, 0.7));
    assert!(!layout.set_ratio_at(&[false], ratio(0.7)));
    let ratios = herdr::tiles::split_ratios(layout.typed_root());
    assert_eq!(ratios.len(), 3);
    assert_eq!(ratios[2].0, vec![true, true]);
    assert_eq!(herdr::tiles::get_ratio(layout.typed_root(), &[true, true], 0), Some(ratio(0.4)));
}

#[test]
fn restoring_checks_leaves_collections_and_panes() {
    let cid = collection_id(9_700_001);
    let mut members = PaneCollection::empty(cid, None);
    assert!(members.add_member(pane(5)));
    let tree = || TypedNode::Split {
        direction: SplitAxis::Horizontal,
        ratio: ratio(0.5),
        first: Box::new(TypedNode::Leaf(LayoutLeaf::Pane(pane(1)))),
        second: Box::new(TypedNode::Leaf(LayoutLeaf::Collection(cid))),
    };
    let copy = |c: &PaneCollection| PaneCollection::copy_of(c);
    let restored = TileLayout::from_typed_saved(tree(), LayoutLeaf::Collection(cid), vec![copy(&members)])
        .expect("consistent layout");
    assert_eq!(restored.focused(), pane(5));
    assert_eq!(restored.pane_ids(), vec![pane(1), pane(5)]);
    assert!(TileLayout::from_typed_saved(tree(), LayoutLeaf::Collection(cid), vec![]).is_none());
    assert!(TileLayout::from_typed_saved(tree(), LayoutLeaf::Pane(pane(9)), vec![copy(&members)]).is_none());
    let mut clash = PaneCollection::empty(cid, None);
    assert!(clash.add_member(pane(1)));
    assert!(TileLayout::from_typed_saved(tree(), LayoutLeaf::Pane(pane(1)), vec![clash]).is_none());
}

#[test]
fn resize_picks_the_nearest_split_on_the_requested_edge() {
    let focused = Rect { x: 50, y: 0, width: 50, height: 40 };
    let split = |pos: u16, direction: SplitAxis| SplitBorder {
        pos,
        direction,
        ratio: ratio(0.5),
        area: Rect { x: 0, y: 0, width: 100, height: 40 },
        path: vec![],
    };
    let splits = vec![split(20, SplitAxis::Horizontal), split(51, SplitAxis::Horizontal), split(50, SplitAxis::Horizontal), split(50, SplitAxis::Vertical)];
    assert_eq!(nearest_resize_split(&splits, SplitAxis::Horizontal, focused, NavDirection::Left), Some(2));
    assert_eq!(nearest_resize_split(&splits, SplitAxis::Horizontal, focused, NavDirection::Right), None);
}

#[test]
fn closing_a_new_split_gives_back_the_leaves() {
    let mut layout = sample_layout();
    let before = layout.leaves();
    let mut ids = PaneIdAllocator::new();
    ids.next = 50;
    let added = layout.split_focused(&mut ids, SplitAxis::Vertical);
    assert_eq!(added, pane(50));
    assert_eq!(layout.leaves().len(), before.len() + 1);
    assert_eq!(layout.leaves()[2], LayoutLeaf::Pane(added));
    assert!(layout.close_focused());
    assert_eq!(layout.leaves(), before);
}
