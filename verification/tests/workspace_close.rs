use herdr::ids::{CollectionId, CollectionIdAllocator, PaneId};
use herdr::workspace_close::{workspace_close_events, ClosingEvent, ClosingTab};

fn pane(raw: u32) -> PaneId {
    PaneId::from_raw(raw)
}

#[test]
fn closing_a_workspace_announces_collections_panes_tabs_then_the_workspace() {
    let collection = CollectionId::from_raw(7, &mut CollectionIdAllocator::new()).unwrap();
    let tabs = vec![
        ClosingTab {
            tab_id: "t1".into(),
            panes: vec![(pane(1), "p1".into()), (pane(2), "p2".into())],
            collections: vec![(collection, vec![pane(2), pane(9)])],
        },
        ClosingTab { tab_id: "t2".into(), panes: vec![(pane(3), "p3".into())], collections: vec![] },
    ];
    let (before, after) = workspace_close_events(&"w1".to_string(), &tabs);
    assert_eq!(
        before,
        vec![
            // pane 9 has no public identity, so only pane 2 is announced as removed
            ClosingEvent::CollectionMemberRemoved { collection_id: collection, pane_id: "p2".into() },
            ClosingEvent::CollectionClosed {
                collection_id: collection,
                workspace_id: "w1".into(),
                tab_id: "t1".into(),
            },
            ClosingEvent::PaneClosed { pane_id: "p1".into(), workspace_id: "w1".into() },
            ClosingEvent::PaneClosed { pane_id: "p2".into(), workspace_id: "w1".into() },
            ClosingEvent::PaneClosed { pane_id: "p3".into(), workspace_id: "w1".into() },
        ]
    );
    assert_eq!(
        after,
        vec![
            ClosingEvent::TabClosed { tab_id: "t1".into(), workspace_id: "w1".into() },
            ClosingEvent::TabClosed { tab_id: "t2".into(), workspace_id: "w1".into() },
            ClosingEvent::WorkspaceClosed { workspace_id: "w1".into() },
        ]
    );
}
