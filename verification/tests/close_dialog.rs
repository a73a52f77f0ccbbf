use herdr::close_dialog::{
    close_dialog_action, open_close_dialog, DialogAction, DialogKey, MemberProbe,
};
use herdr::ids::{CollectionId, CollectionIdAllocator, PaneId};
use herdr::layout::PaneCollection;
use herdr::schema::{AgentStatus, CollectionCloseDisposition};

fn pane(raw: u32) -> PaneId {
    PaneId::from_raw(raw)
}

fn collection(members: &[u32], archived: &[u32]) -> PaneCollection {
    let mut ids = CollectionIdAllocator::new();
    let id = CollectionId::allocate(&mut ids).unwrap();
    PaneCollection::from_saved(
        id,
        None,
        members.iter().map(|raw| pane(*raw)).collect(),
        members.first().map(|raw| pane(*raw)),
        archived.iter().map(|raw| pane(*raw)).collect(),
    )
    .expect("consistent collection")
}

fn probe(raw: u32, live: bool, status: Option<AgentStatus>) -> MemberProbe {
    MemberProbe { pane_id: pane(raw), live, status }
}

#[test]
fn the_dialog_counts_what_it_would_close() {
    let c = collection(&[1, 2, 3, 4], &[3]);
    let probes = [
        probe(1, true, Some(AgentStatus::Working)),
        probe(2, false, Some(AgentStatus::Blocked)),
        probe(3, true, Some(AgentStatus::Idle)),
    ];
    let pending = open_close_dialog("w1".into(), "t1".into(), &c, false, &probes).unwrap();
    assert_eq!(pending.member_ids, vec![pane(1), pane(2), pane(3), pane(4)]);
    assert_eq!((pending.active, pending.archived), (3, 1));
    assert_eq!((pending.live, pending.exited), (2, 2));
    assert_eq!((pending.working, pending.blocked), (1, 1));
    assert_eq!(pending.collection_revision, c.revision());
    assert!(pending.group_close.is_none());
    assert!(pending.matches(&c));

    let cleanup = open_close_dialog("w1".into(), "t1".into(), &c, true, &probes).unwrap();
    assert_eq!(cleanup.member_ids, vec![pane(3)]);
    assert_eq!((cleanup.live, cleanup.exited, cleanup.working), (1, 0, 0));
    assert!(cleanup.matches(&c));
}

#[test]
fn an_empty_archive_opens_no_cleanup() {
    let c = collection(&[1, 2], &[]);
    assert!(open_close_dialog("w".into(), "t".into(), &c, true, &[]).is_none());
    assert!(open_close_dialog("w".into(), "t".into(), &c, false, &[]).is_some());
}

#[test]
fn a_changed_collection_no_longer_matches_the_confirmation() {
    let mut c = collection(&[1, 2], &[]);
    let pending = open_close_dialog("w".into(), "t".into(), &c, false, &[]).unwrap();
    assert!(c.add_member(pane(5)));
    assert!(!pending.matches(&c));
    let mut archived = collection(&[1, 2], &[]);
    let pending = open_close_dialog("w".into(), "t".into(), &archived, false, &[]).unwrap();
    assert!(archived.set_member_archived(pane(2), true));
    assert!(!pending.matches(&archived));
}

#[test]
fn keys_choose_the_disposition() {
    let cascade = DialogAction::Confirm(CollectionCloseDisposition::CascadeClose);
    let promote = DialogAction::Confirm(CollectionCloseDisposition::PromoteMembers);
    assert_eq!(close_dialog_action(DialogKey::Char('c'), false), cascade);
    assert_eq!(close_dialog_action(DialogKey::Char('C'), true), cascade);
    assert_eq!(close_dialog_action(DialogKey::Char('p'), false), promote);
    assert_eq!(close_dialog_action(DialogKey::Char('P'), true), DialogAction::Ignore);
    assert_eq!(close_dialog_action(DialogKey::Enter, false), promote);
    assert_eq!(close_dialog_action(DialogKey::Enter, true), cascade);
    assert_eq!(close_dialog_action(DialogKey::Esc, true), DialogAction::Cancel);
    assert_eq!(close_dialog_action(DialogKey::Char('x'), false), DialogAction::Ignore);
    assert_eq!(close_dialog_action(DialogKey::Other, false), DialogAction::Ignore);
}
