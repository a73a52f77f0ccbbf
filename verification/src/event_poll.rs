//! Polling an event subscription: where its cursor moves and which event it
//! reports, and the answer when the history no longer reaches back to it.

use vstd::prelude::*;
use crate::event_hub::EventHistoryGap;
use crate::schema::{ErrorBody, ErrorResponse};
use crate::text::{concat, decimal, u64_to_decimal};

verus! {

/// The kinds of lifecycle events in the history.
#[derive(Debug, Clone, Copy, PartialEq, Eq, Structural)]
pub enum EventKind {
    WorkspaceCreated,
    WorkspaceUpdated,
    WorkspaceMetadataUpdated,
    WorkspaceResourcesUpdated,
    WorkspaceRenamed,
    WorkspaceMoved,
    WorkspaceReordered,
    WorkspaceClosed,
    WorkspaceFocused,
    CheckoutOpened,
    CheckoutRenamed,
    CheckoutMoved,
    CheckoutClosed,
    CheckoutFocused,
    RepositoryCreated,
    RepositoryRenamed,
    RepositoryMoved,
    RepositoryClosed,
    RepositoryFocused,
    WorktreeCreated,
    WorktreeOpened,
    WorktreeRemoved,
    TabCreated,
    TabClosed,
    TabFocused,
    TabRenamed,
    TabMoved,
    CollectionCreated,
    CollectionMemberAdded,
    CollectionMemberMoved,
    CollectionMemberRemoved,
    CollectionMemberPromoted,
    CollectionMemberSelected,
    CollectionMembersReordered,
    CollectionMemberArchived,
    CollectionMemberRestored,
    CollectionClosed,
    DelegationCreated,
    DelegationReparented,
    DelegationReordered,
    DelegationTombstoned,
    DelegationGarbageCollected,
    PaneCreated,
    PaneClosed,
    PaneUpdated,
    PaneFocused,
    PaneMoved,
    PaneExited,
    PaneAgentDetected,
    LayoutUpdated,
}

/// The subscriptions that follow one kind of lifecycle event.
#[derive(Debug, Clone, Copy, PartialEq, Eq, Structural)]
pub enum EventSubscription {
    WorkspaceCreated,
    WorkspaceUpdated,
    WorkspaceMetadataUpdated,
    WorkspaceResourcesUpdated,
    WorkspaceRenamed,
    WorkspaceMoved,
    WorkspaceReordered,
    WorkspaceClosed,
    WorkspaceFocused,
    CheckoutOpened,
    CheckoutRenamed,
    CheckoutMoved,
    CheckoutClosed,
    CheckoutFocused,
    RepositoryCreated,
    RepositoryRenamed,
    RepositoryMoved,
    RepositoryClosed,
    RepositoryFocused,
    WorktreeCreated,
    WorktreeOpened,
    WorktreeRemoved,
    TabCreated,
    TabClosed,
    TabFocused,
    TabRenamed,
    TabMoved,
    CollectionCreated,
    CollectionMemberAdded,
    CollectionMemberMoved,
    CollectionMemberRemoved,
    CollectionMemberPromoted,
    CollectionMemberSelected,
    CollectionMembersReordered,
    CollectionMemberArchived,
    CollectionMemberRestored,
    CollectionClosed,
    DelegationCreated,
    DelegationReparented,
    DelegationReordered,
    DelegationTombstoned,
    DelegationGarbageCollected,
    PaneCreated,
    PaneClosed,
    PaneUpdated,
    PaneFocused,
    PaneMoved,
    PaneExited,
    PaneAgentDetected,
    LayoutUpdated,
}

/// The kind of event each subscription follows: the one of the same name.
pub open spec fn subscribed_kind(s: EventSubscription) -> EventKind {
    match s {
        EventSubscription::WorkspaceCreated => EventKind::WorkspaceCreated,
        EventSubscription::WorkspaceUpdated => EventKind::WorkspaceUpdated,
        EventSubscription::WorkspaceMetadataUpdated => EventKind::WorkspaceMetadataUpdated,
        EventSubscription::WorkspaceResourcesUpdated => EventKind::WorkspaceResourcesUpdated,
        EventSubscription::WorkspaceRenamed => EventKind::WorkspaceRenamed,
        EventSubscription::WorkspaceMoved => EventKind::WorkspaceMoved,
        EventSubscription::WorkspaceReordered => EventKind::WorkspaceReordered,
        EventSubscription::WorkspaceClosed => EventKind::WorkspaceClosed,
        EventSubscription::WorkspaceFocused => EventKind::WorkspaceFocused,
        EventSubscription::CheckoutOpened => EventKind::CheckoutOpened,
        EventSubscription::CheckoutRenamed => EventKind::CheckoutRenamed,
        EventSubscription::CheckoutMoved => EventKind::CheckoutMoved,
        EventSubscription::CheckoutClosed => EventKind::CheckoutClosed,
        EventSubscription::CheckoutFocused => EventKind::CheckoutFocused,
        EventSubscription::RepositoryCreated => EventKind::RepositoryCreated,
        EventSubscription::RepositoryRenamed => EventKind::RepositoryRenamed,
        EventSubscription::RepositoryMoved => EventKind::RepositoryMoved,
        EventSubscription::RepositoryClosed => EventKind::RepositoryClosed,
        EventSubscription::RepositoryFocused => EventKind::RepositoryFocused,
        EventSubscription::WorktreeCreated => EventKind::WorktreeCreated,
        EventSubscription::WorktreeOpened => EventKind::WorktreeOpened,
        EventSubscription::WorktreeRemoved => EventKind::WorktreeRemoved,
        EventSubscription::TabCreated => EventKind::TabCreated,
        EventSubscription::TabClosed => EventKind::TabClosed,
        EventSubscription::TabFocused => EventKind::TabFocused,
        EventSubscription::TabRenamed => EventKind::TabRenamed,
        EventSubscription::TabMoved => EventKind::TabMoved,
        EventSubscription::CollectionCreated => EventKind::CollectionCreated,
        EventSubscription::CollectionMemberAdded => EventKind::CollectionMemberAdded,
        EventSubscription::CollectionMemberMoved => EventKind::CollectionMemberMoved,
        EventSubscription::CollectionMemberRemoved => EventKind::CollectionMemberRemoved,
        EventSubscription::CollectionMemberPromoted => EventKind::CollectionMemberPromoted,
        EventSubscription::CollectionMemberSelected => EventKind::CollectionMemberSelected,
        EventSubscription::CollectionMembersReordered => EventKind::CollectionMembersReordered,
        EventSubscription::CollectionMemberArchived => EventKind::CollectionMemberArchived,
        EventSubscription::CollectionMemberRestored => EventKind::CollectionMemberRestored,
        EventSubscription::CollectionClosed => EventKind::CollectionClosed,
        EventSubscription::DelegationCreated => EventKind::DelegationCreated,
        EventSubscription::DelegationReparented => EventKind::DelegationReparented,
        EventSubscription::DelegationReordered => EventKind::DelegationReordered,
        EventSubscription::DelegationTombstoned => EventKind::DelegationTombstoned,
        EventSubscription::DelegationGarbageCollected => EventKind::DelegationGarbageCollected,
        EventSubscription::PaneCreated => EventKind::PaneCreated,
        EventSubscription::PaneClosed => EventKind::PaneClosed,
        EventSubscription::PaneUpdated => EventKind::PaneUpdated,
        EventSubscription::PaneFocused => EventKind::PaneFocused,
        EventSubscription::PaneMoved => EventKind::PaneMoved,
        EventSubscription::PaneExited => EventKind::PaneExited,
        EventSubscription::PaneAgentDetected => EventKind::PaneAgentDetected,
        EventSubscription::LayoutUpdated => EventKind::LayoutUpdated,
    }
}

/// The name of an event kind, as the variant is written.
pub open spec fn event_kind_name(k: EventKind) -> Seq<char> {
    match k {
        EventKind::WorkspaceCreated => "WorkspaceCreated"@,
        EventKind::WorkspaceUpdated => "WorkspaceUpdated"@,
        EventKind::WorkspaceMetadataUpdated => "WorkspaceMetadataUpdated"@,
        EventKind::WorkspaceResourcesUpdated => "WorkspaceResourcesUpdated"@,
        EventKind::WorkspaceRenamed => "WorkspaceRenamed"@,
        EventKind::WorkspaceMoved => "WorkspaceMoved"@,
        EventKind::WorkspaceReordered => "WorkspaceReordered"@,
        EventKind::WorkspaceClosed => "WorkspaceClosed"@,
        EventKind::WorkspaceFocused => "WorkspaceFocused"@,
        EventKind::CheckoutOpened => "CheckoutOpened"@,
        EventKind::CheckoutRenamed => "CheckoutRenamed"@,
        EventKind::CheckoutMoved => "CheckoutMoved"@,
        EventKind::CheckoutClosed => "CheckoutClosed"@,
        EventKind::CheckoutFocused => "CheckoutFocused"@,
        EventKind::RepositoryCreated => "RepositoryCreated"@,
        EventKind::RepositoryRenamed => "RepositoryRenamed"@,
        EventKind::RepositoryMoved => "RepositoryMoved"@,
        EventKind::RepositoryClosed => "RepositoryClosed"@,
        EventKind::RepositoryFocused => "RepositoryFocused"@,
        EventKind::WorktreeCreated => "WorktreeCreated"@,
        EventKind::WorktreeOpened => "WorktreeOpened"@,
        EventKind::WorktreeRemoved => "WorktreeRemoved"@,
        EventKind::TabCreated => "TabCreated"@,
        EventKind::TabClosed => "TabClosed"@,
        EventKind::TabFocused => "TabFocused"@,
        EventKind::TabRenamed => "TabRenamed"@,
        EventKind::TabMoved => "TabMoved"@,
        EventKind::CollectionCreated => "CollectionCreated"@,
        EventKind::CollectionMemberAdded => "CollectionMemberAdded"@,
        EventKind::CollectionMemberMoved => "CollectionMemberMoved"@,
        EventKind::CollectionMemberRemoved => "CollectionMemberRemoved"@,
        EventKind::CollectionMemberPromoted => "CollectionMemberPromoted"@,
        EventKind::CollectionMemberSelected => "CollectionMemberSelected"@,
        EventKind::CollectionMembersReordered => "CollectionMembersReordered"@,
        EventKind::CollectionMemberArchived => "CollectionMemberArchived"@,
        EventKind::CollectionMemberRestored => "CollectionMemberRestored"@,
        EventKind::CollectionClosed => "CollectionClosed"@,
        EventKind::DelegationCreated => "DelegationCreated"@,
        EventKind::DelegationReparented => "DelegationReparented"@,
        EventKind::DelegationReordered => "DelegationReordered"@,
        EventKind::DelegationTombstoned => "DelegationTombstoned"@,
        EventKind::DelegationGarbageCollected => "DelegationGarbageCollected"@,
        EventKind::PaneCreated => "PaneCreated"@,
        EventKind::PaneClosed => "PaneClosed"@,
        EventKind::PaneUpdated => "PaneUpdated"@,
        EventKind::PaneFocused => "PaneFocused"@,
        EventKind::PaneMoved => "PaneMoved"@,
        EventKind::PaneExited => "PaneExited"@,
        EventKind::PaneAgentDetected => "PaneAgentDetected"@,
        EventKind::LayoutUpdated => "LayoutUpdated"@,
    }
}

/// The name of an event subscription, as the variant is written.
pub open spec fn subscription_name(s: EventSubscription) -> Seq<char> {
    match s {
        EventSubscription::WorkspaceCreated => "WorkspaceCreated"@,
        EventSubscription::WorkspaceUpdated => "WorkspaceUpdated"@,
        EventSubscription::WorkspaceMetadataUpdated => "WorkspaceMetadataUpdated"@,
        EventSubscription::WorkspaceResourcesUpdated => "WorkspaceResourcesUpdated"@,
        EventSubscription::WorkspaceRenamed => "WorkspaceRenamed"@,
        EventSubscription::WorkspaceMoved => "WorkspaceMoved"@,
        EventSubscription::WorkspaceReordered => "WorkspaceReordered"@,
        EventSubscription::WorkspaceClosed => "WorkspaceClosed"@,
        EventSubscription::WorkspaceFocused => "WorkspaceFocused"@,
        EventSubscription::CheckoutOpened => "CheckoutOpened"@,
        EventSubscription::CheckoutRenamed => "CheckoutRenamed"@,
        EventSubscription::CheckoutMoved => "CheckoutMoved"@,
        EventSubscription::CheckoutClosed => "CheckoutClosed"@,
        EventSubscription::CheckoutFocused => "CheckoutFocused"@,
        EventSubscription::RepositoryCreated => "RepositoryCreated"@,
        EventSubscription::RepositoryRenamed => "RepositoryRenamed"@,
        EventSubscription::RepositoryMoved => "RepositoryMoved"@,
        EventSubscription::RepositoryClosed => "RepositoryClosed"@,
        EventSubscription::RepositoryFocused => "RepositoryFocused"@,
        EventSubscription::WorktreeCreated => "WorktreeCreated"@,
        EventSubscription::WorktreeOpened => "WorktreeOpened"@,
        EventSubscription::WorktreeRemoved => "WorktreeRemoved"@,
        EventSubscription::TabCreated => "TabCreated"@,
        EventSubscription::TabClosed => "TabClosed"@,
        EventSubscription::TabFocused => "TabFocused"@,
        EventSubscription::TabRenamed => "TabRenamed"@,
        EventSubscription::TabMoved => "TabMoved"@,
        EventSubscription::CollectionCreated => "CollectionCreated"@,
        EventSubscription::CollectionMemberAdded => "CollectionMemberAdded"@,
        EventSubscription::CollectionMemberMoved => "CollectionMemberMoved"@,
        EventSubscription::CollectionMemberRemoved => "CollectionMemberRemoved"@,
        EventSubscription::CollectionMemberPromoted => "CollectionMemberPromoted"@,
        EventSubscription::CollectionMemberSelected => "CollectionMemberSelected"@,
        EventSubscription::CollectionMembersReordered => "CollectionMembersReordered"@,
        EventSubscription::CollectionMemberArchived => "CollectionMemberArchived"@,
        EventSubscription::CollectionMemberRestored => "CollectionMemberRestored"@,
        EventSubscription::CollectionClosed => "CollectionClosed"@,
        EventSubscription::DelegationCreated => "DelegationCreated"@,
        EventSubscription::DelegationReparented => "DelegationReparented"@,
        EventSubscription::DelegationReordered => "DelegationReordered"@,
        EventSubscription::DelegationTombstoned => "DelegationTombstoned"@,
        EventSubscription::DelegationGarbageCollected => "DelegationGarbageCollected"@,
        EventSubscription::PaneCreated => "PaneCreated"@,
        EventSubscription::PaneClosed => "PaneClosed"@,
        EventSubscription::PaneUpdated => "PaneUpdated"@,
        EventSubscription::PaneFocused => "PaneFocused"@,
        EventSubscription::PaneMoved => "PaneMoved"@,
        EventSubscription::PaneExited => "PaneExited"@,
        EventSubscription::PaneAgentDetected => "PaneAgentDetected"@,
        EventSubscription::LayoutUpdated => "LayoutUpdated"@,
    }
}

/// The subscription that follows events of kind `k`.
pub open spec fn subscription_for(k: EventKind) -> EventSubscription {
    match k {
        EventKind::WorkspaceCreated => EventSubscription::WorkspaceCreated,
        EventKind::WorkspaceUpdated => EventSubscription::WorkspaceUpdated,
        EventKind::WorkspaceMetadataUpdated => EventSubscription::WorkspaceMetadataUpdated,
        EventKind::WorkspaceResourcesUpdated => EventSubscription::WorkspaceResourcesUpdated,
        EventKind::WorkspaceRenamed => EventSubscription::WorkspaceRenamed,
        EventKind::WorkspaceMoved => EventSubscription::WorkspaceMoved,
        EventKind::WorkspaceReordered => EventSubscription::WorkspaceReordered,
        EventKind::WorkspaceClosed => EventSubscription::WorkspaceClosed,
        EventKind::WorkspaceFocused => EventSubscription::WorkspaceFocused,
        EventKind::CheckoutOpened => EventSubscription::CheckoutOpened,
        EventKind::CheckoutRenamed => EventSubscription::CheckoutRenamed,
        EventKind::CheckoutMoved => EventSubscription::CheckoutMoved,
        EventKind::CheckoutClosed => EventSubscription::CheckoutClosed,
        EventKind::CheckoutFocused => EventSubscription::CheckoutFocused,
        EventKind::RepositoryCreated => EventSubscription::RepositoryCreated,
        EventKind::RepositoryRenamed => EventSubscription::RepositoryRenamed,
        EventKind::RepositoryMoved => EventSubscription::RepositoryMoved,
        EventKind::RepositoryClosed => EventSubscription::RepositoryClosed,
        EventKind::RepositoryFocused => EventSubscription::RepositoryFocused,
        EventKind::WorktreeCreated => EventSubscription::WorktreeCreated,
        EventKind::WorktreeOpened => EventSubscription::WorktreeOpened,
        EventKind::WorktreeRemoved => EventSubscription::WorktreeRemoved,
        EventKind::TabCreated => EventSubscription::TabCreated,
        EventKind::TabClosed => EventSubscription::TabClosed,
        EventKind::TabFocused => EventSubscription::TabFocused,
        EventKind::TabRenamed => EventSubscription::TabRenamed,
        EventKind::TabMoved => EventSubscription::TabMoved,
        EventKind::CollectionCreated => EventSubscription::CollectionCreated,
        EventKind::CollectionMemberAdded => EventSubscription::CollectionMemberAdded,
        EventKind::CollectionMemberMoved => EventSubscription::CollectionMemberMoved,
        EventKind::CollectionMemberRemoved => EventSubscription::CollectionMemberRemoved,
        EventKind::CollectionMemberPromoted => EventSubscription::CollectionMemberPromoted,
        EventKind::CollectionMemberSelected => EventSubscription::CollectionMemberSelected,
        EventKind::CollectionMembersReordered => EventSubscription::CollectionMembersReordered,
        EventKind::CollectionMemberArchived => EventSubscription::CollectionMemberArchived,
        EventKind::CollectionMemberRestored => EventSubscription::CollectionMemberRestored,
        EventKind::CollectionClosed => EventSubscription::CollectionClosed,
        EventKind::DelegationCreated => EventSubscription::DelegationCreated,
        EventKind::DelegationReparented => EventSubscription::DelegationReparented,
        EventKind::DelegationReordered => EventSubscription::DelegationReordered,
        EventKind::DelegationTombstoned => EventSubscription::DelegationTombstoned,
        EventKind::DelegationGarbageCollected => EventSubscription::DelegationGarbageCollected,
        EventKind::PaneCreated => EventSubscription::PaneCreated,
        EventKind::PaneClosed => EventSubscription::PaneClosed,
        EventKind::PaneUpdated => EventSubscription::PaneUpdated,
        EventKind::PaneFocused => EventSubscription::PaneFocused,
        EventKind::PaneMoved => EventSubscription::PaneMoved,
        EventKind::PaneExited => EventSubscription::PaneExited,
        EventKind::PaneAgentDetected => EventSubscription::PaneAgentDetected,
        EventKind::LayoutUpdated => EventSubscription::LayoutUpdated,
    }
}

/// Every subscription follows the event kind of its own name, and no two
/// subscriptions follow the same kind: the kind a subscription follows
/// leads back to that subscription.
pub proof fn lemma_subscription_follows_namesake(s: EventSubscription)
    ensures
        event_kind_name(subscribed_kind(s)) == subscription_name(s),
        subscription_for(subscribed_kind(s)) == s,
{
}

/// The kind of event subscription `s` follows.
pub fn event_kind_of(s: EventSubscription) -> (r: EventKind)
    ensures
        r == subscribed_kind(s),
{
    match s {
        EventSubscription::WorkspaceCreated => EventKind::WorkspaceCreated,
        EventSubscription::WorkspaceUpdated => EventKind::WorkspaceUpdated,
        EventSubscription::WorkspaceMetadataUpdated => EventKind::WorkspaceMetadataUpdated,
        EventSubscription::WorkspaceResourcesUpdated => EventKind::WorkspaceResourcesUpdated,
        EventSubscription::WorkspaceRenamed => EventKind::WorkspaceRenamed,
        EventSubscription::WorkspaceMoved => EventKind::WorkspaceMoved,
        EventSubscription::WorkspaceReordered => EventKind::WorkspaceReordered,
        EventSubscription::WorkspaceClosed => EventKind::WorkspaceClosed,
        EventSubscription::WorkspaceFocused => EventKind::WorkspaceFocused,
        EventSubscription::CheckoutOpened => EventKind::CheckoutOpened,
        EventSubscription::CheckoutRenamed => EventKind::CheckoutRenamed,
        EventSubscription::CheckoutMoved => EventKind::CheckoutMoved,
        EventSubscription::CheckoutClosed => EventKind::CheckoutClosed,
        EventSubscription::CheckoutFocused => EventKind::CheckoutFocused,
        EventSubscription::RepositoryCreated => EventKind::RepositoryCreated,
        EventSubscription::RepositoryRenamed => EventKind::RepositoryRenamed,
        EventSubscription::RepositoryMoved => EventKind::RepositoryMoved,
        EventSubscription::RepositoryClosed => EventKind::RepositoryClosed,
        EventSubscription::RepositoryFocused => EventKind::RepositoryFocused,
        EventSubscription::WorktreeCreated => EventKind::WorktreeCreated,
        EventSubscription::WorktreeOpened => EventKind::WorktreeOpened,
        EventSubscription::WorktreeRemoved => EventKind::WorktreeRemoved,
        EventSubscription::TabCreated => EventKind::TabCreated,
        EventSubscription::TabClosed => EventKind::TabClosed,
        EventSubscription::TabFocused => EventKind::TabFocused,
        EventSubscription::TabRenamed => EventKind::TabRenamed,
        EventSubscription::TabMoved => EventKind::TabMoved,
        EventSubscription::CollectionCreated => EventKind::CollectionCreated,
        EventSubscription::CollectionMemberAdded => EventKind::CollectionMemberAdded,
        EventSubscription::CollectionMemberMoved => EventKind::CollectionMemberMoved,
        EventSubscription::CollectionMemberRemoved => EventKind::CollectionMemberRemoved,
        EventSubscription::CollectionMemberPromoted => EventKind::CollectionMemberPromoted,
        EventSubscription::CollectionMemberSelected => EventKind::CollectionMemberSelected,
        EventSubscription::CollectionMembersReordered => EventKind::CollectionMembersReordered,
        EventSubscription::CollectionMemberArchived => EventKind::CollectionMemberArchived,
        EventSubscription::CollectionMemberRestored => EventKind::CollectionMemberRestored,
        EventSubscription::CollectionClosed => EventKind::CollectionClosed,
        EventSubscription::DelegationCreated => EventKind::DelegationCreated,
        EventSubscription::DelegationReparented => EventKind::DelegationReparented,
        EventSubscription::DelegationReordered => EventKind::DelegationReordered,
        EventSubscription::DelegationTombstoned => EventKind::DelegationTombstoned,
        EventSubscription::DelegationGarbageCollected => EventKind::DelegationGarbageCollected,
        EventSubscription::PaneCreated => EventKind::PaneCreated,
        EventSubscription::PaneClosed => EventKind::PaneClosed,
        EventSubscription::PaneUpdated => EventKind::PaneUpdated,
        EventSubscription::PaneFocused => EventKind::PaneFocused,
        EventSubscription::PaneMoved => EventKind::PaneMoved,
        EventSubscription::PaneExited => EventKind::PaneExited,
        EventSubscription::PaneAgentDetected => EventKind::PaneAgentDetected,
        EventSubscription::LayoutUpdated => EventKind::LayoutUpdated,
    }
}

/// The first position of `events` whose kind is `kind`.
pub open spec fn first_of_kind(events: Seq<(u64, EventKind)>, kind: EventKind) -> Option<int> {
    if exists|i: int| 0 <= i < events.len() && events[i].1 == kind {
        Some(choose|i: int| 0 <= i < events.len() && events[i].1 == kind && forall|j: int| 0 <= j < i ==> events[j].1 != kind)
    } else {
        None
    }
}

/// The cursor after a poll that reported nothing: past every event read
/// and at least at the watermark.
pub open spec fn idle_cursor(last_sequence: u64, events: Seq<(u64, EventKind)>, watermark: u64) -> u64 {
    let read = if events.len() > 0 { events.last().0 } else { last_sequence };
    if read < watermark { watermark } else { read }
}

/// One poll of a subscription to events of kind `kind`, given the events
/// read after its cursor up to `watermark` (numbers with kinds, in order):
/// the position of the first event of that kind, with the cursor moved to
/// it, or none, with the cursor moved past everything read and to the
/// watermark.
pub fn event_poll_step(last_sequence: u64, kind: EventKind, events: &[(u64, EventKind)], watermark: u64) -> (r: (Option<usize>, u64))
    ensures
        match first_of_kind(events@, kind) {
            Some(i) => r.0 == Some(i as usize) && r.1 == events@[i].0,
            None => r.0 is None && r.1 == idle_cursor(last_sequence, events@, watermark),
        },
{
    let mut cursor = last_sequence;
    let mut i: usize = 0;
    while i < events.len()
        invariant
            0 <= i <= events@.len(),
            forall|j: int| 0 <= j < i ==> events@[j].1 != kind,
            cursor == if i > 0 { events@[i - 1].0 } else { last_sequence },
        decreases events@.len() - i,
    {
        let (sequence, event_kind) = events[i];
        if event_kind == kind {
            proof {
                let c = first_of_kind(events@, kind)->0;
                assert(0 <= i < events@.len() && events@[i as int].1 == kind && forall|j: int|
                    0 <= j < i ==> events@[j].1 != kind);
                if c < i {
                } else if c > i {
                    assert(events@[i as int].1 != kind);
                }
            }
            return (Some(i), sequence);
        }
        cursor = sequence;
        i = i + 1;
    }
    if cursor < watermark {
        cursor = watermark;
    }
    (None, cursor)
}

/// The message of a subscription that fell behind the history.
pub open spec fn gap_message(gap: EventHistoryGap) -> Seq<char> {
    "event history after sequence "@ + decimal(gap.requested_sequence as nat) + " is unavailable; oldest available is "@
        + decimal(gap.oldest_available_sequence as nat) + " (current "@ + decimal(gap.current_sequence as nat) + ")"@
}

/// The answer to request `request_id` whose subscription fell behind the
/// history: it must resynchronize.
pub fn history_gap_error(request_id: &str, gap: EventHistoryGap) -> (r: ErrorResponse)
    ensures
        r.id@ == request_id@,
        r.error.code@ == "resync_required"@,
        r.error.message@ == gap_message(gap),
{
    let requested = u64_to_decimal(gap.requested_sequence);
    let oldest = u64_to_decimal(gap.oldest_available_sequence);
    let current = u64_to_decimal(gap.current_sequence);
    let a = concat("event history after sequence ", requested.as_str());
    let b = concat(a.as_str(), " is unavailable; oldest available is ");
    let c = concat(b.as_str(), oldest.as_str());
    let d = concat(c.as_str(), " (current ");
    let e = concat(d.as_str(), current.as_str());
    let message = concat(e.as_str(), ")");
    ErrorResponse {
        id: String::from_str(request_id),
        error: ErrorBody { code: String::from_str("resync_required"), message },
    }
}

} // verus!
