//! The confirmation dialog for closing a collection (or for closing only its
//! archived members): what it captures when it opens, whether the
//! collection still is what was confirmed, and what a key does in it.

use vstd::prelude::*;
use crate::ids::{CollectionId, PaneId, lemma_pane_id_value_injective};
use crate::layout::PaneCollection;
use crate::member_navigation::first_position;
use crate::schema::{AgentStatus, CollectionCloseDisposition};

verus! {

broadcast use lemma_pane_id_value_injective;

/// What the runtime knows of one member's terminal: whether it is still
/// running, and the state of its agent when the terminal is known.
#[derive(Debug, Clone, Copy, PartialEq, Eq, Structural)]
pub struct MemberProbe {
    pub pane_id: PaneId,
    pub live: bool,
    pub status: Option<AgentStatus>,
}

/// The worktree group whose closing a collection close would also confirm.
#[derive(Debug, Clone, PartialEq, Eq)]
pub struct PendingCollectionGroupClose {
    pub workspace_id: String,
    pub worktree_key: String,
    pub workspace_member_ids: Vec<String>,
}

/// What the close confirmation captured when it opened.
#[derive(Debug, Clone, PartialEq, Eq)]
pub struct PendingCollectionClose {
    /// Stable origin identities keep the prompt independent of navigation.
    pub workspace_id: String,
    pub tab_id: String,
    pub collection_id: CollectionId,
    /// Exact destructive target captured when the prompt opened.
    pub member_ids: Vec<PaneId>,
    pub collection_revision: u64,
    pub group_close: Option<PendingCollectionGroupClose>,
    /// Close only archived members, leaving the collection and active members intact.
    pub cleanup_archive: bool,
    pub active: usize,
    pub archived: usize,
    pub live: usize,
    pub exited: usize,
    pub working: usize,
    pub blocked: usize,
}

/// The probe of `pane`: the first one listed for it.
pub open spec fn probe_of(probes: Seq<MemberProbe>, pane: PaneId) -> Option<MemberProbe> {
    match first_position(probes.map_values(|m: MemberProbe| m.pane_id), pane) {
        Some(i) => Some(probes[i]),
        None => None,
    }
}

pub open spec fn is_live(probes: Seq<MemberProbe>, pane: PaneId) -> bool {
    probe_of(probes, pane) matches Some(m) && m.live
}

pub open spec fn has_status(probes: Seq<MemberProbe>, pane: PaneId, status: AgentStatus) -> bool {
    probe_of(probes, pane) matches Some(m) && m.status == Some(status)
}

/// The members the dialog would close: the archived ones when cleaning up
/// the archive, else all of them, in member order.
pub open spec fn closing_members(c: PaneCollection, cleanup_archive: bool) -> Seq<PaneId> {
    if cleanup_archive {
        c.member_list().filter(|p: PaneId| c.archived_set().contains(p))
    } else {
        c.member_list()
    }
}

/// The number of archived members of `c`.
pub open spec fn archived_count(c: PaneCollection) -> nat {
    c.member_list().filter(|p: PaneId| c.archived_set().contains(p)).len()
}

/// The number of active members of `c`.
pub open spec fn active_count(c: PaneCollection) -> nat {
    c.member_list().filter(|p: PaneId| !c.archived_set().contains(p)).len()
}

/// Whether `c` still is the collection that `pending` was confirmed for:
/// same identity, same revision, same members to close.
pub open spec fn still_matches(pending: PendingCollectionClose, c: PaneCollection) -> bool {
    &&& c.identity() == pending.collection_id
    &&& c.rev() == pending.collection_revision
    &&& closing_members(c, pending.cleanup_archive) == pending.member_ids@
}

/// The probe of `pane`.
fn find_probe(probes: &[MemberProbe], pane: PaneId) -> (r: Option<MemberProbe>)
    ensures
        r == probe_of(probes@, pane),
{
    let ghost ids = probes@.map_values(|m: MemberProbe| m.pane_id);
    let mut i: usize = 0;
    while i < probes.len()
        invariant
            ids == probes@.map_values(|m: MemberProbe| m.pane_id),
            0 <= i <= probes@.len(),
            forall|j: int| 0 <= j < i ==> ids[j] != pane,
        decreases probes@.len() - i,
    {
        if probes[i].pane_id == pane {
            proof {
                crate::member_navigation::lemma_first_position(ids, pane, i as int);
            }
            return Some(probes[i]);
        }
        i = i + 1;
    }
    assert(!ids.contains(pane));
    None
}

/// Counts of `members`: (live, working, blocked).
fn member_counts(members: &Vec<PaneId>, probes: &[MemberProbe]) -> (r: (usize, usize, usize))
    ensures
        r.0 == members@.filter(|p: PaneId| is_live(probes@, p)).len(),
        r.1 == members@.filter(|p: PaneId| has_status(probes@, p, AgentStatus::Working)).len(),
        r.2 == members@.filter(|p: PaneId| has_status(probes@, p, AgentStatus::Blocked)).len(),
        r.0 <= members@.len(),
{
    let ghost live_pred = |p: PaneId| is_live(probes@, p);
    let ghost working_pred = |p: PaneId| has_status(probes@, p, AgentStatus::Working);
    let ghost blocked_pred = |p: PaneId| has_status(probes@, p, AgentStatus::Blocked);
    let mut live: usize = 0;
    let mut working: usize = 0;
    let mut blocked: usize = 0;
    let mut i: usize = 0;
    while i < members.len()
        invariant
            live_pred == (|p: PaneId| is_live(probes@, p)),
            working_pred == (|p: PaneId| has_status(probes@, p, AgentStatus::Working)),
            blocked_pred == (|p: PaneId| has_status(probes@, p, AgentStatus::Blocked)),
            0 <= i <= members@.len(),
            live <= i && working <= i && blocked <= i,
            live == members@.take(i as int).filter(live_pred).len(),
            working == members@.take(i as int).filter(working_pred).len(),
            blocked == members@.take(i as int).filter(blocked_pred).len(),
        decreases members@.len() - i,
    {
        let p = members[i];
        proof {
            assert(members@.take(i + 1) =~= members@.take(i as int).push(p));
            members@.take(i as int).lemma_filter_push(p, live_pred);
            members@.take(i as int).lemma_filter_push(p, working_pred);
            members@.take(i as int).lemma_filter_push(p, blocked_pred);
        }
        match find_probe(probes, p) {
            Some(probe) => {
                if probe.live {
                    live = live + 1;
                }
                match probe.status {
                    Some(AgentStatus::Working) => {
                        working = working + 1;
                    },
                    Some(AgentStatus::Blocked) => {
                        blocked = blocked + 1;
                    },
                    _ => {},
                }
            },
            None => {},
        }
        i = i + 1;
    }
    assert(members@.take(members@.len() as int) =~= members@);
    (live, working, blocked)
}

/// The panes of `s`, in a vector.
fn pane_vec(s: &[PaneId]) -> (r: Vec<PaneId>)
    ensures
        r@ == s@,
{
    let mut out: Vec<PaneId> = Vec::new();
    let mut i: usize = 0;
    while i < s.len()
        invariant
            0 <= i <= s@.len(),
            out@ == s@.take(i as int),
        decreases s@.len() - i,
    {
        out.push(s[i]);
        proof {
            assert(s@.take(i + 1) =~= s@.take(i as int).push(s@[i as int]));
        }
        i = i + 1;
    }
    assert(s@.take(s@.len() as int) =~= s@);
    out
}

/// Open the close confirmation of `collection` (of only its archived
/// members when `cleanup_archive`), counting what would be closed; a
/// cleanup of an empty archive opens nothing.
pub fn open_close_dialog(
    workspace_id: String,
    tab_id: String,
    collection: &PaneCollection,
    cleanup_archive: bool,
    probes: &[MemberProbe],
) -> (r: Option<PendingCollectionClose>)
    ensures
        r is None <==> cleanup_archive && archived_count(*collection) == 0,
        r matches Some(p) ==> {
            let closing = closing_members(*collection, cleanup_archive);
            let live = closing.filter(|q: PaneId| is_live(probes@, q)).len();
            &&& p.workspace_id == workspace_id
            &&& p.tab_id == tab_id
            &&& p.group_close is None
            &&& p.cleanup_archive == cleanup_archive
            &&& p.active == active_count(*collection)
            &&& p.archived == archived_count(*collection)
            &&& p.live == live
            &&& p.exited == closing.len() - live
            &&& p.working == closing.filter(|q: PaneId| has_status(probes@, q, AgentStatus::Working)).len()
            &&& p.blocked == closing.filter(|q: PaneId| has_status(probes@, q, AgentStatus::Blocked)).len()
            &&& still_matches(p, *collection)
        },
{
    let active_members = collection.active_members();
    let archived_members = collection.archived_members();
    let active = active_members.len();
    let archived = archived_members.len();
    if cleanup_archive && archived == 0 {
        return None;
    }
    let closing = if cleanup_archive {
        archived_members
    } else {
        pane_vec(collection.members())
    };
    let (live, working, blocked) = member_counts(&closing, probes);
    let exited = closing.len() - live;
    Some(
        PendingCollectionClose {
            workspace_id,
            tab_id,
            collection_id: collection.collection_id(),
            member_ids: closing,
            collection_revision: collection.revision(),
            group_close: None,
            cleanup_archive,
            active,
            archived,
            live,
            exited,
            working,
            blocked,
        },
    )
}

/// Whether `a` and `b` list the same panes in the same order.
fn same_panes(a: &[PaneId], b: &[PaneId]) -> (r: bool)
    ensures
        r == (a@ == b@),
{
    if a.len() != b.len() {
        return false;
    }
    let mut i: usize = 0;
    while i < a.len()
        invariant
            a@.len() == b@.len(),
            0 <= i <= a@.len(),
            forall|j: int| 0 <= j < i ==> a@[j] == b@[j],
        decreases a@.len() - i,
    {
        if a[i] != b[i] {
            return false;
        }
        i = i + 1;
    }
    assert(a@ =~= b@);
    true
}

impl PendingCollectionClose {
    /// Whether `collection` still is what this confirmation was opened for.
    pub fn matches(&self, collection: &PaneCollection) -> (r: bool)
        ensures
            r == still_matches(*self, *collection),
    {
        if collection.collection_id() != self.collection_id || collection.revision() != self.collection_revision {
            return false;
        }
        if self.cleanup_archive {
            let archived = collection.archived_members();
            same_panes(archived.as_slice(), self.member_ids.as_slice())
        } else {
            same_panes(collection.members(), self.member_ids.as_slice())
        }
    }
}

/// A confirmation no longer matches once the collection's revision moved
/// on, as adding, removing, reordering, archiving or restoring a member
/// moves it (below the largest revision).
pub proof fn lemma_changed_collection_refuses_pending(
    pending: PendingCollectionClose,
    before: PaneCollection,
    after: PaneCollection,
)
    requires
        still_matches(pending, before),
        before.rev() < u64::MAX,
        after.rev() == before.rev().saturating_add(1),
    ensures
        !still_matches(pending, after),
{
}

/// A key pressed in the close confirmation.
#[derive(Debug, Clone, Copy, PartialEq, Eq, Structural)]
pub enum DialogKey {
    Char(char),
    Enter,
    Esc,
    Other,
}

/// What a key does in the close confirmation.
#[derive(Debug, Clone, Copy, PartialEq, Eq, Structural)]
pub enum DialogAction {
    /// Close with this disposition.
    Confirm(CollectionCloseDisposition),
    /// Dismiss the dialog.
    Cancel,
    /// Nothing.
    Ignore,
}

/// `c` closes the members; `p` (or Enter) promotes them, except when
/// cleaning up the archive, where Enter closes and `p` does nothing; Escape
/// dismisses.
pub open spec fn dialog_action(key: DialogKey, cleanup_archive: bool) -> DialogAction {
    match key {
        DialogKey::Char(c) => if c == 'c' || c == 'C' {
            DialogAction::Confirm(CollectionCloseDisposition::CascadeClose)
        } else if (c == 'p' || c == 'P') && !cleanup_archive {
            DialogAction::Confirm(CollectionCloseDisposition::PromoteMembers)
        } else {
            DialogAction::Ignore
        },
        DialogKey::Enter => if cleanup_archive {
            DialogAction::Confirm(CollectionCloseDisposition::CascadeClose)
        } else {
            DialogAction::Confirm(CollectionCloseDisposition::PromoteMembers)
        },
        DialogKey::Esc => DialogAction::Cancel,
        DialogKey::Other => DialogAction::Ignore,
    }
}

/// What `key` does in a close confirmation.
pub fn close_dialog_action(key: DialogKey, cleanup_archive: bool) -> (r: DialogAction)
    ensures
        r == dialog_action(key, cleanup_archive),
{
    match key {
        DialogKey::Char(c) => if c == 'c' || c == 'C' {
            DialogAction::Confirm(CollectionCloseDisposition::CascadeClose)
        } else if (c == 'p' || c == 'P') && !cleanup_archive {
            DialogAction::Confirm(CollectionCloseDisposition::PromoteMembers)
        } else {
            DialogAction::Ignore
        },
        DialogKey::Enter => if cleanup_archive {
            DialogAction::Confirm(CollectionCloseDisposition::CascadeClose)
        } else {
            DialogAction::Confirm(CollectionCloseDisposition::PromoteMembers)
        },
        DialogKey::Esc => DialogAction::Cancel,
        DialogKey::Other => DialogAction::Ignore,
    }
}

} // verus!
