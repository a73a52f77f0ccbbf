use herdr::event_hub::EventHub;
use herdr::event_poll::{event_kind_of, event_poll_step, history_gap_error, EventKind, EventSubscription};

const FOCUSED: EventKind = EventKind::WorkspaceFocused;
const CREATED: EventKind = EventKind::WorkspaceCreated;

/// One poll as a subscription does it: read after the cursor up to the
/// watermark, then step.
fn poll(hub: &EventHub<EventKind>, cursor: &mut u64, kind: EventKind, request: &str) -> Result<Option<u64>, herdr::schema::ErrorResponse> {
    let watermark = hub.current_sequence();
    let events = hub
        .checked_events_after_through(*cursor, watermark)
        .map_err(|gap| history_gap_error(request, gap))?;
    let (found, next) = event_poll_step(*cursor, kind, &events, watermark);
    *cursor = next;
    Ok(found.map(|i| events[i].0))
}

#[test]
fn a_subscription_reports_setup_window_events_then_live_ones() {
    let mut hub = EventHub::new();
    hub.push(FOCUSED);
    let mut cursor = hub.current_sequence();
    hub.push(CREATED);
    hub.push(FOCUSED);
    assert_eq!(poll(&hub, &mut cursor, FOCUSED, "test"), Ok(Some(3)));
    assert_eq!(poll(&hub, &mut cursor, FOCUSED, "test"), Ok(None));
    assert_eq!(cursor, 3);
    hub.push(FOCUSED);
    assert_eq!(poll(&hub, &mut cursor, FOCUSED, "test"), Ok(Some(4)));
}

#[test]
fn an_idle_poll_moves_the_cursor_to_the_watermark() {
    assert_eq!(event_poll_step(2, FOCUSED, &[(3, CREATED), (4, CREATED)], 6), (None, 6));
    assert_eq!(event_poll_step(7, FOCUSED, &[], 5), (None, 7));
    assert_eq!(event_poll_step(2, FOCUSED, &[(3, CREATED), (5, FOCUSED), (6, FOCUSED)], 6), (Some(1), 5));
}

#[test]
fn a_subscription_behind_the_history_must_resync() {
    let mut hub = EventHub::new();
    let mut cursor = 0;
    for _ in 0..513 {
        hub.push(FOCUSED);
    }
    let error = poll(&hub, &mut cursor, FOCUSED, "job:sub:retry").unwrap_err();
    assert_eq!(error.id, "job:sub:retry");
    assert_eq!(error.error.code, "resync_required");
    assert_eq!(
        error.error.message,
        "event history after sequence 0 is unavailable; oldest available is 2 (current 513)"
    );
}

#[test]
fn each_subscription_follows_the_event_kind_of_its_name() {
    assert_eq!(event_kind_of(EventSubscription::WorkspaceFocused), EventKind::WorkspaceFocused);
    assert_eq!(
        event_kind_of(EventSubscription::WorkspaceMetadataUpdated),
        EventKind::WorkspaceMetadataUpdated
    );
    assert_eq!(
        event_kind_of(EventSubscription::CollectionMembersReordered),
        EventKind::CollectionMembersReordered
    );
    assert_eq!(event_kind_of(EventSubscription::LayoutUpdated), EventKind::LayoutUpdated);
}
