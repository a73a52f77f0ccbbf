use herdr::cli::commands::{
    collection_command, delegation_command, repository_command, CollectionCommand, CommandOutcome,
    DelegationCommand, RepositoryCommand,
};
use herdr::schema::{
    CollectionAddParams, CollectionMoveParams, CollectionTarget, DelegationTarget, RepositoryMoveParams,
    RepositoryRenameParams, RepositoryTarget,
};

fn strings(values: &[&str]) -> Vec<String> {
    values.iter().map(|value| (*value).to_string()).collect()
}

fn usage<T>(code: i32, message: Option<&str>) -> CommandOutcome<T> {
    CommandOutcome::Usage { code, message: message.map(str::to_string) }
}

#[test]
fn collection_words_choose_their_requests() {
    assert_eq!(
        collection_command(&strings(&["get", "c1"]), &[]),
        CommandOutcome::Send(CollectionCommand::Get(CollectionTarget { collection_id: "c1".into() }))
    );
    assert_eq!(
        collection_command(&strings(&["add", "c1", "w1:p2"]), &[]),
        CommandOutcome::Send(CollectionCommand::Add(CollectionAddParams {
            collection_id: "c1".into(),
            pane_id: "w1:p2".into(),
        }))
    );
    assert_eq!(
        collection_command(&strings(&["move", "w1:p2", "c1"]), &[]),
        CommandOutcome::Send(CollectionCommand::Move(CollectionMoveParams {
            pane_id: "w1:p2".into(),
            collection_id: "c1".into(),
        }))
    );
    let create = collection_command(
        &strings(&["create", "--target-pane", "w1:p1", "--direction", "down", "--ratio", "0.5"]),
        &strings(&["0.5"]),
    );
    match create {
        CommandOutcome::Send(CollectionCommand::Create(params)) => {
            assert_eq!(params.ratio.as_deref(), Some("0.5"));
        }
        other => panic!("unexpected outcome {other:?}"),
    }
}

#[test]
fn collection_errors_and_help_end_in_usage() {
    assert_eq!(collection_command(&[], &[]), usage(2, None));
    assert_eq!(collection_command(&strings(&["--help"]), &[]), usage(0, None));
    assert_eq!(collection_command(&strings(&["bogus"]), &[]), usage(2, None));
    assert_eq!(collection_command(&strings(&["get"]), &[]), usage(2, Some("expected one ID")));
    assert_eq!(
        collection_command(&strings(&["archive", "c1"]), &[]),
        usage(2, Some("expected two IDs"))
    );
}

#[test]
fn delegation_words_choose_their_requests() {
    assert_eq!(delegation_command(&strings(&["tree"])), CommandOutcome::Send(DelegationCommand::Tree));
    assert_eq!(delegation_command(&strings(&["tree", "d1"])), usage(2, None));
    assert_eq!(
        delegation_command(&strings(&["descendants", "d4"])),
        CommandOutcome::Send(DelegationCommand::Descendants(DelegationTarget { delegation_id: "d4".into() }))
    );
    assert_eq!(
        delegation_command(&strings(&["root"])),
        usage(2, Some("expected one delegation ID"))
    );
    assert_eq!(delegation_command(&strings(&["-h"])), usage(0, None));
}

#[test]
fn repository_words_choose_their_requests() {
    assert_eq!(
        repository_command(&strings(&["list", "--json"])),
        CommandOutcome::Send(RepositoryCommand::List { json: true })
    );
    assert_eq!(
        repository_command(&strings(&["list", "extra"])),
        CommandOutcome::Refused { message: "usage: herdr repository list [--json]".into() }
    );
    assert_eq!(
        repository_command(&strings(&["get", "r1"])),
        CommandOutcome::Send(RepositoryCommand::Get { repository_id: "r1".into(), json: false })
    );
    assert_eq!(
        repository_command(&strings(&["rename", "r1", "my", "repo"])),
        CommandOutcome::Send(RepositoryCommand::Rename(RepositoryRenameParams {
            repository_id: "r1".into(),
            label: "my repo".into(),
        }))
    );
    assert_eq!(
        repository_command(&strings(&["move", "r1", "3"])),
        CommandOutcome::Send(RepositoryCommand::Move(RepositoryMoveParams {
            repository_id: "r1".into(),
            insert_index: 3,
        }))
    );
    assert_eq!(
        repository_command(&strings(&["move", "r1", "-1"])),
        CommandOutcome::Refused { message: "insert_index must be a non-negative integer".into() }
    );
    assert_eq!(
        repository_command(&strings(&["close", "r1"])),
        CommandOutcome::Send(RepositoryCommand::Close(RepositoryTarget { repository_id: "r1".into() }))
    );
    assert_eq!(repository_command(&strings(&["focus"])), usage(2, None));
    assert_eq!(repository_command(&strings(&["help"])), usage(0, None));
}
