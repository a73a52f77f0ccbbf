use herdr::event_hub::EventHistoryGap;
use herdr::plugin_output::BoundedOutput;
use herdr::repository_text::{agent_status_label, format_repository, format_repository_list};
use herdr::responses::{collection_not_found, history_gap_error, parse_collection_id, with_request_id};
use herdr::schema::{AgentStatus, RepositoryInfo};

fn repository() -> RepositoryInfo {
    RepositoryInfo {
        repository_id: "r123".into(),
        label: "herdr".into(),
        git_common_dir: "/repo/.git".into(),
        checkout_workspace_ids: vec!["w1".into(), "w2".into()],
        last_focused_workspace_id: Some("w2".into()),
        preferred_base: Some("origin/main".into()),
        focused: true,
        pane_count: 3,
        active_agent_count: 1,
        agent_status: AgentStatus::Working,
        descendant_attention_count: 0,
    }
}

#[test]
fn human_repository_queries_are_non_empty() {
    let repository = repository();
    let list = format_repository_list(std::slice::from_ref(&repository));
    assert!(list.contains("r123"));
    assert!(list.contains("herdr"));
    let detail = format_repository(&repository);
    assert!(detail.contains("git common dir: /repo/.git"));
    assert!(detail.contains("preferred base: origin/main"));
}

#[test]
fn repository_list_lines_and_details_are_exact() {
    let mut single = repository();
    single.checkout_workspace_ids = vec!["w1".into()];
    single.agent_status = AgentStatus::Idle;
    single.preferred_base = None;
    assert_eq!(format_repository_list(&[]), "No repositories.");
    assert_eq!(
        format_repository_list(&[repository(), single.clone()]),
        "r123\therdr\t2 checkouts\tworking\nr123\therdr\t1 checkout\tidle"
    );
    assert_eq!(
        format_repository(&single),
        "id: r123\nlabel: herdr\ngit common dir: /repo/.git\ncheckouts: w1\nfocused: true\npanes: 3\nactive agents: 1\nagent status: idle\npreferred base: -"
    );
    assert_eq!(agent_status_label(AgentStatus::Blocked), "blocked");
}

#[test]
fn gap_and_not_found_answers() {
    let gap = EventHistoryGap {
        requested_sequence: 3,
        oldest_available_sequence: 10,
        current_sequence: 600,
    };
    let answer = history_gap_error("job:sub:retry", gap);
    assert_eq!(answer.id, "job:sub:retry");
    assert_eq!(answer.error.code, "resync_required");
    assert_eq!(
        answer.error.message,
        "event history after sequence 3 is unavailable; oldest available is 10 (current 600)"
    );
    let renamed = with_request_id(answer, "other");
    assert_eq!(renamed.id, "other");
    assert_eq!(renamed.error.code, "resync_required");
    let missing = collection_not_found("q".into(), "collection_9");
    assert_eq!(missing.error.message, "collection collection_9 not found");
    assert_eq!(parse_collection_id("collection_9").map(|id| id.raw()), Some(9));
    assert_eq!(parse_collection_id("collection_x"), None);
}

#[test]
fn bounded_output_keeps_the_prefix_and_notes_truncation() {
    let mut output = BoundedOutput::default();
    output.append(b"hello ", 8);
    output.append(b"world", 8);
    assert_eq!(output.bytes, b"hello wo".to_vec());
    assert!(output.truncated);
    assert_eq!(
        output.log_string(8),
        "hello wo\n[herdr truncated plugin output after 8 bytes]"
    );
    let mut exact = BoundedOutput::default();
    exact.append(b"abc", 3);
    assert!(!exact.truncated);
    assert_eq!(exact.log_string(3), "abc");
}
