use herdr::schema::AgentStatus;
use herdr::status_watch::{same_snapshot, PresentationSnapshot, StatusWatch};

fn shown(title: &str) -> PresentationSnapshot {
    PresentationSnapshot {
        title: Some(title.to_string()),
        display_agent: None,
        state_labels: vec![("mode".to_string(), "plan".to_string())],
    }
}

#[test]
fn filtered_watch_reports_only_the_wanted_status() {
    let mut watch = StatusWatch::new(Some(AgentStatus::Done), AgentStatus::Working, shown("a"), 7);
    assert!(!watch.initial_pending);
    assert!(!watch.observe_event(8, AgentStatus::Blocked, shown("a")));
    assert!(watch.observe_event(9, AgentStatus::Done, shown("a")));
    assert_eq!(watch.last_sequence, 9);
    watch.finish_events(12, true);
    assert_eq!(watch.last_sequence, 12);
}

#[test]
fn initial_status_is_reported_once() {
    let mut watch = StatusWatch::new(Some(AgentStatus::Idle), AgentStatus::Idle, shown("a"), 0);
    assert!(watch.initial_pending);
    assert!(watch.observe_initial(AgentStatus::Idle, shown("a")));
    assert!(!watch.initial_pending);
    assert!(!watch.observe_snapshot(AgentStatus::Idle, shown("a")));
}

#[test]
fn snapshots_report_changes_of_status_or_presentation() {
    let mut watch = StatusWatch::new(None, AgentStatus::Working, shown("a"), 0);
    assert!(!watch.snapshot_changed(AgentStatus::Working, &shown("a")));
    assert!(watch.snapshot_changed(AgentStatus::Working, &shown("b")));
    assert!(watch.observe_snapshot(AgentStatus::Blocked, shown("a")));
    assert!(!watch.observe_snapshot(AgentStatus::Blocked, shown("a")));
    assert!(watch.observe_snapshot(AgentStatus::Blocked, shown("c")));
    assert!(same_snapshot(&shown("x"), &shown("x")));
    assert!(!same_snapshot(&shown("x"), &PresentationSnapshot { state_labels: vec![], ..shown("x") }));
}
