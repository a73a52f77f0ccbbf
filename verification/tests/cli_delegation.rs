use herdr::cli::delegation::{one, parse_create, parse_reorder, parse_reparent};
use herdr::schema::DelegationSiblingPosition;

fn strings(values: &[&str]) -> Vec<String> {
    values.iter().map(|value| (*value).to_string()).collect()
}

#[test]
fn parses_delegation_create_reparent_and_all_reorder_positions() {
    let create = parse_create(&strings(&[
        "--pane",
        "w1:p1",
        "--parent",
        "d1",
        "--purpose",
        "review",
    ]))
    .expect("create");
    assert_eq!(create.parent_id.as_deref(), Some("d1"));
    assert_eq!(
        parse_reparent(&strings(&["d2", "--root"]))
            .expect("root")
            .parent_id,
        None
    );
    assert_eq!(
        parse_reparent(&strings(&["d2", "--parent", "d1"]))
            .expect("parent")
            .parent_id
            .as_deref(),
        Some("d1")
    );
    assert!(matches!(
        parse_reorder(&strings(&["d2", "--first"]))
            .expect("first")
            .position,
        DelegationSiblingPosition::First
    ));
    assert!(matches!(
        parse_reorder(&strings(&["d2", "--last"]))
            .expect("last")
            .position,
        DelegationSiblingPosition::Last
    ));
    assert!(matches!(
        parse_reorder(&strings(&["d2", "--before", "d1"]))
            .expect("before")
            .position,
        DelegationSiblingPosition::Before { .. }
    ));
    assert!(matches!(
        parse_reorder(&strings(&["d2", "--after", "d1"]))
            .expect("after")
            .position,
        DelegationSiblingPosition::After { .. }
    ));
}

#[test]
fn delegation_parsers_reject_ambiguous_arguments() {
    assert!(parse_reparent(&strings(&["d2", "--root", "--parent", "d1"])).is_err());
    assert!(parse_reorder(&strings(&["d2", "--first", "--last"])).is_err());
    assert!(parse_create(&strings(&["--pane"])).is_err());
}

#[test]
fn delegation_parser_messages_name_the_problem() {
    assert_eq!(
        parse_create(&strings(&["--pane"])).unwrap_err(),
        "missing value for --pane"
    );
    assert_eq!(
        parse_create(&strings(&["--bogus", "x"])).unwrap_err(),
        "unknown option: --bogus"
    );
    let later_wins = parse_create(&strings(&["--pane", "a", "--pane", "b"])).unwrap();
    assert_eq!(later_wins.pane_id.as_deref(), Some("b"));
    assert_eq!(later_wins.purpose, None);
    assert_eq!(parse_reparent(&strings(&[])).unwrap_err(), "missing delegation_id");
    assert_eq!(
        parse_reparent(&strings(&["d2"])).unwrap_err(),
        "usage: herdr delegation reparent <id> (--parent ID|--root)"
    );
    assert_eq!(
        parse_reorder(&strings(&["d2"])).unwrap_err(),
        "choose --first, --last, --before ID, or --after ID"
    );
    assert_eq!(one(&strings(&["d1"])).unwrap(), "d1");
    assert_eq!(one(&strings(&["d1", "d2"])).unwrap_err(), "expected one delegation ID");
}
