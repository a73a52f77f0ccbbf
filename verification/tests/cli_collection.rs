use herdr::cli::collection::{
    one, parse_close, parse_create, parse_direction, parse_env_assignment, parse_list,
    parse_member_create, parse_options, parse_promote, parse_reorder, parse_select,
    required_value, two,
};
use herdr::schema::{CollectionCloseDisposition, SplitDirection};

fn strings(values: &[&str]) -> Vec<String> {
    values.iter().map(|value| (*value).to_string()).collect()
}

/// The arguments that read as finite decimal numbers.
fn finite(args: &[String]) -> Vec<String> {
    args.iter()
        .filter(|arg| arg.parse::<f32>().map_or(false, f32::is_finite))
        .cloned()
        .collect()
}

fn create(args: &[&str]) -> Result<herdr::schema::CollectionCreateParams, String> {
    let args = strings(args);
    parse_create(&args, &finite(&args))
}

fn promote(args: &[&str]) -> Result<herdr::schema::CollectionPromoteParams, String> {
    let args = strings(args);
    parse_promote(&args, &finite(&args))
}

#[test]
fn parses_collection_create_promote_close_and_member_create() {
    let create = create(&[
        "--target-pane",
        "w1:p1",
        "--direction",
        "right",
        "--ratio",
        "0.4",
        "--label",
        "helpers",
        "--no-focus",
    ])
    .expect("create");
    assert_eq!(create.target_pane_id, "w1:p1");
    assert_eq!(
        create.ratio.as_deref().map(|text| text.parse::<f32>().unwrap()),
        Some(0.4)
    );
    assert!(!create.focus);

    let promote = promote(&[
        "w1:p2",
        "--target-pane",
        "w1:p1",
        "--direction",
        "down",
        "--focus",
    ])
    .expect("promote");
    assert_eq!(promote.pane_id, "w1:p2");
    assert!(promote.focus);

    let close = parse_close(&strings(&[
        "collection_1",
        "--promote-members",
        "--target-pane",
        "w1:p1",
        "--focus-promoted",
    ]))
    .expect("close");
    assert_eq!(
        close.disposition,
        Some(CollectionCloseDisposition::PromoteMembers)
    );
    assert!(close.focus_promoted);

    let member = parse_member_create(&strings(&[
        "collection_1",
        "--cwd",
        "/tmp",
        "--env",
        "ROLE=review",
        "--parent",
        "d1",
        "--purpose",
        "review",
    ]))
    .expect("member create");
    let role = member
        .env
        .iter()
        .find(|(key, _)| key == "ROLE")
        .map(|(_, value)| value.as_str());
    assert_eq!(role, Some("review"));
    assert_eq!(member.delegation_parent_id.as_deref(), Some("d1"));
}

#[test]
fn collection_parsers_reject_ambiguous_or_invalid_mutations() {
    assert!(parse_close(&strings(&[
        "collection_1",
        "--cascade-close",
        "--promote-members"
    ]))
    .is_err());
    assert!(create(&["--target-pane", "p1", "--direction", "left"]).is_err());
    assert!(parse_reorder(&strings(&["collection_1", "p1", "--index", "nope"])).is_err());
    assert!(parse_select(&strings(&["collection_1"])).is_err());
}

#[test]
fn option_walker_pairs_values_and_stops_at_positionals() {
    let (pairs, error) = parse_options(&strings(&["--a", "1", "--b", "--c", "x", "stray", "--d"]));
    assert_eq!(
        pairs,
        vec![
            ("--a".to_string(), Some("1".to_string())),
            ("--b".to_string(), None),
            ("--c".to_string(), Some("x".to_string())),
        ]
    );
    assert_eq!(error.as_deref(), Some("unexpected argument: stray"));
    assert_eq!(
        required_value("--cwd", None).unwrap_err(),
        "missing value for --cwd"
    );
    let value = "v".to_string();
    assert_eq!(required_value("--cwd", Some(&value)).unwrap(), "v");
}

#[test]
fn handler_errors_come_before_later_positional_errors() {
    // the unknown option is handled before the walker reaches the stray word
    assert_eq!(
        parse_list(&strings(&["--bogus", "x", "stray"])).unwrap_err(),
        "unknown option: --bogus"
    );
    assert_eq!(
        parse_list(&strings(&["--workspace", "w1", "stray"])).unwrap_err(),
        "unexpected argument: stray"
    );
    let list = parse_list(&strings(&["--workspace", "w1", "--tab", "t2"])).unwrap();
    assert_eq!(list.workspace_id.as_deref(), Some("w1"));
    assert_eq!(list.tab_id.as_deref(), Some("t2"));
    assert_eq!(
        parse_list(&strings(&["--tab"])).unwrap_err(),
        "missing value for --tab"
    );
}

#[test]
fn create_and_promote_report_each_problem() {
    assert_eq!(
        create(&["--direction", "left"]).unwrap_err(),
        "direction must be right or down"
    );
    assert_eq!(
        create(&["--direction", "right"]).unwrap_err(),
        "missing --target-pane"
    );
    assert_eq!(
        create(&["--target-pane", "p1"]).unwrap_err(),
        "missing --direction"
    );
    assert_eq!(
        create(&["--target-pane", "p1", "--direction", "down", "--ratio", "inf"]).unwrap_err(),
        "invalid ratio"
    );
    assert_eq!(
        promote(&["--target-pane", "p1"]).unwrap_err(),
        "missing pane_id"
    );
    assert_eq!(
        promote(&["p2", "--target-pane", "p1", "--direction", "right", "--label", "x"]).unwrap_err(),
        "unknown option: --label"
    );
    let made = create(&["--target-pane", "p1", "--direction", "down", "--focus"]).unwrap();
    assert_eq!(made.direction, SplitDirection::Down);
    assert!(made.focus);
    assert_eq!(made.ratio, None);
}

#[test]
fn select_reorder_and_identity_arguments() {
    let select = parse_select(&strings(&["c1", "p1", "--focus", "--no-focus", "--focus"])).unwrap();
    assert!(select.focus);
    assert_eq!(
        parse_select(&strings(&["c1", "p1", "--later"])).unwrap_err(),
        "unknown option: --later"
    );
    let reorder = parse_reorder(&strings(&["c1", "p1", "--index", "3"])).unwrap();
    assert_eq!(reorder.index, 3);
    assert_eq!(
        parse_reorder(&strings(&["c1", "p1", "--at", "3"])).unwrap_err(),
        "usage: herdr collection reorder <collection_id> <pane_id> --index N"
    );
    assert_eq!(
        parse_reorder(&strings(&["c1", "p1", "--index", "-1"])).unwrap_err(),
        "invalid index"
    );
    assert_eq!(parse_direction("right"), Ok(SplitDirection::Right));
    assert_eq!(one(&strings(&["c1"])).unwrap(), "c1");
    assert_eq!(one(&strings(&[])).unwrap_err(), "expected one ID");
    assert_eq!(
        two(&strings(&["c1", "p1"])).unwrap(),
        ("c1".to_string(), "p1".to_string())
    );
    assert_eq!(two(&strings(&["c1"])).unwrap_err(), "expected two IDs");
}

#[test]
fn close_and_member_create_edge_cases() {
    assert_eq!(
        parse_close(&strings(&["-x"])).unwrap_err(),
        "missing collection_id"
    );
    assert_eq!(
        parse_close(&strings(&["c1", "--cascade-close", "--cascade-close"])).unwrap_err(),
        "choose one disposition"
    );
    let member = parse_member_create(&strings(&[
        "c1", "--env", "A=1", "--env", "B=2", "--env", "A=3=4",
    ]))
    .unwrap();
    assert_eq!(
        member.env,
        vec![
            ("A".to_string(), "3=4".to_string()),
            ("B".to_string(), "2".to_string())
        ]
    );
    assert!(parse_member_create(&strings(&["c1", "--env", "=1"])).is_err());
    assert!(parse_env_assignment("NOEQUALS").is_err());
    assert_eq!(
        parse_env_assignment("K=").unwrap(),
        ("K".to_string(), String::new())
    );
}
