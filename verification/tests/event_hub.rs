use herdr::event_hub::{EventHistoryGap, EventHub, MAX_EVENTS};

fn event(index: usize) -> String {
    format!("workspace_{index}")
}

#[test]
fn history_overflow_is_an_explicit_gap() {
    let mut hub = EventHub::default();
    for index in 0..=MAX_EVENTS {
        hub.push(event(index));
    }

    let gap = hub
        .checked_events_after(0)
        .expect_err("overflow must require resync");
    assert_eq!(gap.requested_sequence, 0);
    assert_eq!(gap.oldest_available_sequence, 2);
    assert_eq!(gap.current_sequence, 513);
    assert_eq!(hub.checked_events_after(1).unwrap().len(), MAX_EVENTS);
}

#[test]
fn reserved_observation_sequences_do_not_create_history_gaps() {
    let mut hub = EventHub::default();
    for _ in 0..600 {
        hub.reserve_sequence();
    }
    for index in 0..MAX_EVENTS {
        hub.push(event(index));
    }

    assert_eq!(hub.checked_events_after(0).unwrap().len(), MAX_EVENTS);

    hub.push(event(MAX_EVENTS));
    let gap = hub
        .checked_events_after(600)
        .expect_err("the dropped lifecycle event requires resync");
    assert_eq!(gap.oldest_available_sequence, 602);
    assert_eq!(hub.checked_events_after(601).unwrap().len(), 512);
}

#[test]
fn events_are_numbered_from_one_and_returned_after_the_cursor() {
    let mut hub = EventHub::new();
    assert_eq!(hub.current_sequence(), 0);
    hub.push(event(0));
    hub.push(event(1));
    assert_eq!(hub.reserve_sequence(), 3);
    hub.push(event(2));
    assert_eq!(hub.current_sequence(), 4);
    let after_one = hub.checked_events_after(1).unwrap();
    assert_eq!(
        after_one,
        vec![(2, "workspace_1".to_string()), (4, "workspace_2".to_string())]
    );
    assert_eq!(hub.events_after(0).len(), 3);
}

#[test]
fn watermark_bounds_the_window() {
    let mut hub = EventHub::new();
    for index in 0..5 {
        hub.push(event(index));
    }
    let window = hub.checked_events_after_through(1, 3).unwrap();
    assert_eq!(
        window,
        vec![(2, "workspace_1".to_string()), (3, "workspace_2".to_string())]
    );
    assert!(hub.checked_events_after_through(3, 3).unwrap().is_empty());
}

#[test]
fn empty_history_gap_names_the_next_sequence() {
    let mut hub: EventHub<String> = EventHub::new();
    for index in 0..=MAX_EVENTS {
        hub.push(event(index));
    }
    // a cursor behind the dropped event is refused with the exact gap
    assert_eq!(
        hub.checked_events_after(0),
        Err(EventHistoryGap {
            requested_sequence: 0,
            oldest_available_sequence: 2,
            current_sequence: 513,
        })
    );
    // the cursor at the dropped event itself is served
    assert_eq!(hub.events_after(1).len(), MAX_EVENTS);
    assert!(hub.events_after(0).is_empty());
}
