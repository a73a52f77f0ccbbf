use herdr::delegation::{Delegations, SiblingPosition};
use herdr::ids::{CollectionId, CollectionIdAllocator, DelegationId, PaneId};
use herdr::layout::PaneCollection;
use herdr::member_order::canonical_member_order;
use herdr::member_reorder::{plan_member_reorder, MemberReorder, MemberReorderError};

fn pane(raw: u32) -> PaneId {
    PaneId::from_raw(raw)
}

fn collection(members: &[u32]) -> PaneCollection {
    let mut ids = CollectionIdAllocator::new();
    let id = CollectionId::allocate(&mut ids).unwrap();
    PaneCollection::from_saved(
        id,
        None,
        members.iter().map(|raw| pane(*raw)).collect(),
        Some(pane(members[0])),
        Vec::new(),
    )
    .expect("consistent collection")
}

/// Root `a` (pane 1) with children `b` (pane 2) and `c` (pane 3), then root
/// `d` (pane 4).
fn forest() -> (Delegations, DelegationId, DelegationId, DelegationId, DelegationId) {
    let mut d = Delegations::new();
    let a = d.create(Some(pane(1)), None, None).unwrap();
    let b = d.create(Some(pane(2)), Some(a), None).unwrap();
    let c = d.create(Some(pane(3)), Some(a), None).unwrap();
    let root = d.create(Some(pane(4)), None, None).unwrap();
    (d, a, b, c, root)
}

#[test]
fn a_delegated_member_moves_to_the_sibling_boundary_that_lands_it() {
    let (mut d, _a, b, c, _root) = forest();
    let members = collection(&[1, 2, 3, 4]);
    assert_eq!(canonical_member_order(&members, &d), vec![pane(1), pane(2), pane(3), pane(4)]);
    let planned = plan_member_reorder(&members, &d, pane(3), 1);
    assert_eq!(
        planned,
        Ok(MemberReorder::Sibling { delegation_id: c, position: SiblingPosition::First })
    );
    d.reorder(c, SiblingPosition::First).unwrap();
    assert_eq!(canonical_member_order(&members, &d), vec![pane(1), pane(3), pane(2), pane(4)]);
    let _ = b;
}

#[test]
fn a_delegated_member_moves_with_its_subtree() {
    let (mut d, a, _b, _c, _root) = forest();
    let members = collection(&[1, 2, 3, 4]);
    let planned = plan_member_reorder(&members, &d, pane(1), 1);
    assert_eq!(
        planned,
        Ok(MemberReorder::Sibling { delegation_id: a, position: SiblingPosition::Last })
    );
    d.reorder(a, SiblingPosition::Last).unwrap();
    assert_eq!(canonical_member_order(&members, &d), vec![pane(4), pane(1), pane(2), pane(3)]);
    // Only one member stays in place while the subtree of three moves.
    assert_eq!(
        plan_member_reorder(&members, &d, pane(1), 2),
        Err(MemberReorderError::IndexOutOfRange { index: 2, max: 1 })
    );
}

#[test]
fn the_current_index_changes_nothing() {
    let (d, _a, _b, _c, _root) = forest();
    let members = collection(&[1, 2, 3, 4]);
    assert_eq!(plan_member_reorder(&members, &d, pane(3), 2), Ok(MemberReorder::Unchanged));
}

#[test]
fn an_index_past_the_staying_members_is_refused() {
    let (d, _a, _b, _c, _root) = forest();
    let members = collection(&[1, 2, 3, 4]);
    let refused = plan_member_reorder(&members, &d, pane(3), 4).unwrap_err();
    assert_eq!(refused, MemberReorderError::IndexOutOfRange { index: 4, max: 3 });
    assert_eq!(refused.code(), "collection_reorder_failed");
    assert_eq!(
        refused.message(),
        "final displayed index 4 is out of range after removing the moving subtree (valid range: 0..=3); choose the final index of the subtree root"
    );
}

#[test]
fn an_index_no_sibling_boundary_reaches_requires_a_reparent() {
    let (d, _a, _b, _c, _root) = forest();
    let members = collection(&[1, 2, 3, 4]);
    let refused = plan_member_reorder(&members, &d, pane(3), 3).unwrap_err();
    assert_eq!(
        refused,
        MemberReorderError::RequiresReparent { index: 3, valid_indices: vec![1, 2] }
    );
    assert_eq!(refused.code(), "collection_reorder_requires_reparent");
    assert_eq!(
        refused.message(),
        "final displayed index 3 is not a same-parent, same-section sibling-subtree boundary (valid final indices: 1, 2); target another visible sibling boundary or use delegation.reparent to change parentage"
    );
}

#[test]
fn members_without_delegations_and_strangers() {
    let (d, _a, _b, _c, _root) = forest();
    let members = collection(&[1, 2, 3, 4, 5]);
    assert_eq!(plan_member_reorder(&members, &d, pane(5), 0), Ok(MemberReorder::MemberVector));
    let refused = plan_member_reorder(&members, &d, pane(9), 0).unwrap_err();
    assert_eq!(refused, MemberReorderError::NotMember);
    assert_eq!(refused.code(), "collection_reorder_failed");
    assert_eq!(refused.message(), "pane is not a member");
}
