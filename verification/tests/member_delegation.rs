use herdr::delegation::Delegations;
use herdr::delegation_api::{member_delegation_request, MemberDelegationRequest};
use herdr::ids::PaneId;

#[test]
fn member_delegation_input_is_checked_before_anything_is_created() {
    let mut d = Delegations::new();
    let parent = d.create(Some(PaneId::from_raw(1)), None, None).unwrap();

    let bad = member_delegation_request(&d, "r1".into(), Some("x7"), None).unwrap_err();
    assert_eq!(bad.id, "r1");
    assert_eq!(bad.error.code, "invalid_delegation_id");
    assert_eq!(bad.error.message, "delegation ID must be 'd' followed by a positive integer");

    let missing = member_delegation_request(&d, "r2".into(), Some("d9"), None).unwrap_err();
    assert_eq!(missing.error.code, "delegation_create_failed");
    assert_eq!(missing.error.message, "parent delegation d9 was not found");

    assert_eq!(
        member_delegation_request(&d, "r3".into(), Some("d1"), Some("  review  ".into())),
        Ok(Some(MemberDelegationRequest { parent_id: Some(parent), purpose: Some("review".into()) }))
    );
    assert_eq!(member_delegation_request(&d, "r4".into(), None, Some("   ".into())), Ok(None));
    assert_eq!(
        member_delegation_request(&d, "r5".into(), None, Some("x".repeat(250))),
        Ok(Some(MemberDelegationRequest { parent_id: None, purpose: Some("x".repeat(200)) }))
    );
}
