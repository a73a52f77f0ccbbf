use herdr::event_hub::EventHub;
use herdr::observation::attach_observation_sequence;

#[test]
fn successful_object_replies_get_a_fresh_sequence() {
    let mut hub: EventHub<u8> = EventHub::new();
    hub.push(1);
    let mut response = String::from(r#"{"id":"r1","result":{"ok":true}}"#);
    attach_observation_sequence(&mut response, &mut hub);
    assert_eq!(hub.current_sequence(), 2);
    let value: serde_json::Value = serde_json::from_str(&response).unwrap();
    assert_eq!(value["observation_sequence"], 2);
    assert_eq!(value["result"]["ok"], true);
    // The history itself is untouched.
    assert_eq!(hub.checked_events_after(0).unwrap(), vec![(1, 1)]);
}

#[test]
fn errors_and_other_replies_are_left_alone() {
    let mut hub: EventHub<u8> = EventHub::new();
    for text in [
        r#"{"id":"r1","error":{"code":"x","message":"y"}}"#,
        "[1,2,3]",
        "not json",
    ] {
        let mut response = String::from(text);
        attach_observation_sequence(&mut response, &mut hub);
        assert_eq!(response, text);
    }
    assert_eq!(hub.current_sequence(), 0);
}
