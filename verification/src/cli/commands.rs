//! Which request a `collection`, `delegation` or `repository` command line
//! asks for, or which usage text it ends in.

use vstd::prelude::*;
use crate::cli::collection::{
    close_outcome, create_outcome, list_outcome, member_create_outcome, one_outcome, parse_close,
    parse_create, parse_list, parse_member_create, parse_promote, parse_reorder, parse_select,
    promote_outcome, reorder_outcome, select_outcome, two, two_outcome,
};
use crate::cli::collection;
use crate::cli::delegation;
use crate::schema::{
    CollectionAddParams, CollectionCloseParams, CollectionCreateMemberParams, CollectionCreateParams,
    CollectionListParams, CollectionMemberTarget, CollectionMoveParams, CollectionPromoteParams,
    CollectionReorderParams, CollectionSelectParams, CollectionTarget, DelegationCreateParams,
    DelegationReorderParams, DelegationReparentParams, DelegationTarget, RepositoryMoveParams,
    RepositoryRenameParams, RepositoryTarget,
};
use crate::text::{concat, parse_usize, parse_usize_spec, str_eq};

verus! {

/// What a command line comes to.
#[derive(Debug, Clone, PartialEq, Eq)]
#[allow(inconsistent_fields)]
pub enum CommandOutcome<T> {
    /// Send this request.
    Send(T),
    /// Print `message`, if any, then the usage text, and exit with `code`.
    Usage { code: i32, message: Option<String> },
    /// Print `message` alone and exit with status 2.
    Refused { message: String },
}

/// The requests of the `collection` command.
#[derive(Debug, Clone, PartialEq, Eq)]
pub enum CollectionCommand {
    List(CollectionListParams),
    Get(CollectionTarget),
    Create(CollectionCreateParams),
    Add(CollectionAddParams),
    Move(CollectionMoveParams),
    Promote(CollectionPromoteParams),
    Select(CollectionSelectParams),
    Reorder(CollectionReorderParams),
    Archive(CollectionMemberTarget),
    Restore(CollectionMemberTarget),
    CreateMember(CollectionCreateMemberParams),
    Close(CollectionCloseParams),
}

/// The requests of the `delegation` command.
#[derive(Debug, Clone, PartialEq, Eq)]
pub enum DelegationCommand {
    Create(DelegationCreateParams),
    Get(DelegationTarget),
    Tree,
    Root(DelegationTarget),
    Descendants(DelegationTarget),
    Reparent(DelegationReparentParams),
    Reorder(DelegationReorderParams),
}

/// The requests of the `repository` command; `json` asks for the raw reply.
#[derive(Debug, Clone, PartialEq, Eq)]
pub enum RepositoryCommand {
    List { json: bool },
    Get { repository_id: String, json: bool },
    Focus(RepositoryTarget),
    Close(RepositoryTarget),
    Rename(RepositoryRenameParams),
    Move(RepositoryMoveParams),
}

pub open spec fn usage<T>(code: i32) -> CommandOutcome<T> {
    CommandOutcome::Usage { code, message: None }
}

pub open spec fn is_help(word: Seq<char>) -> bool {
    word == "help"@ || word == "--help"@ || word == "-h"@
}

/// What the `collection` command does with `args`; `finite` lists the texts
/// that read as finite decimal numbers.
pub open spec fn collection_outcome(args: Seq<String>, finite: Seq<String>, r: CommandOutcome<CollectionCommand>) -> bool {
    if args.len() == 0 {
        r == usage::<CollectionCommand>(2)
    } else {
        let word = args[0]@;
        let rest = args.subrange(1, args.len() as int);
        if word == "list"@ {
            ||| (r matches CommandOutcome::Send(CollectionCommand::List(p)) && list_outcome(rest, Ok(p)))
            ||| (r matches CommandOutcome::Usage { code, message: Some(e) } && code == 2 && list_outcome(rest, Err(e)))
        } else if word == "get"@ {
            ||| (r matches CommandOutcome::Send(CollectionCommand::Get(t)) && one_outcome(rest, Ok(t.collection_id)))
            ||| (r matches CommandOutcome::Usage { code, message: Some(e) } && code == 2 && one_outcome(rest, Err(e)))
        } else if word == "create"@ {
            ||| (r matches CommandOutcome::Send(CollectionCommand::Create(p)) && create_outcome(rest, finite, Ok(p)))
            ||| (r matches CommandOutcome::Usage { code, message: Some(e) } && code == 2 && create_outcome(rest, finite, Err(e)))
        } else if word == "add"@ {
            ||| (r matches CommandOutcome::Send(CollectionCommand::Add(p)) && two_outcome(rest, Ok((p.collection_id, p.pane_id))))
            ||| (r matches CommandOutcome::Usage { code, message: Some(e) } && code == 2 && two_outcome(rest, Err(e)))
        } else if word == "move"@ {
            ||| (r matches CommandOutcome::Send(CollectionCommand::Move(p)) && two_outcome(rest, Ok((p.pane_id, p.collection_id))))
            ||| (r matches CommandOutcome::Usage { code, message: Some(e) } && code == 2 && two_outcome(rest, Err(e)))
        } else if word == "promote"@ {
            ||| (r matches CommandOutcome::Send(CollectionCommand::Promote(p)) && promote_outcome(rest, finite, Ok(p)))
            ||| (r matches CommandOutcome::Usage { code, message: Some(e) } && code == 2 && promote_outcome(rest, finite, Err(e)))
        } else if word == "select"@ {
            ||| (r matches CommandOutcome::Send(CollectionCommand::Select(p)) && select_outcome(rest, Ok(p)))
            ||| (r matches CommandOutcome::Usage { code, message: Some(e) } && code == 2 && select_outcome(rest, Err(e)))
        } else if word == "reorder"@ {
            ||| (r matches CommandOutcome::Send(CollectionCommand::Reorder(p)) && reorder_outcome(rest, Ok(p)))
            ||| (r matches CommandOutcome::Usage { code, message: Some(e) } && code == 2 && reorder_outcome(rest, Err(e)))
        } else if word == "archive"@ {
            ||| (r matches CommandOutcome::Send(CollectionCommand::Archive(p)) && two_outcome(rest, Ok((p.collection_id, p.pane_id))))
            ||| (r matches CommandOutcome::Usage { code, message: Some(e) } && code == 2 && two_outcome(rest, Err(e)))
        } else if word == "restore"@ {
            ||| (r matches CommandOutcome::Send(CollectionCommand::Restore(p)) && two_outcome(rest, Ok((p.collection_id, p.pane_id))))
            ||| (r matches CommandOutcome::Usage { code, message: Some(e) } && code == 2 && two_outcome(rest, Err(e)))
        } else if word == "member-create"@ {
            ||| (r matches CommandOutcome::Send(CollectionCommand::CreateMember(p)) && member_create_outcome(rest, Ok(p)))
            ||| (r matches CommandOutcome::Usage { code, message: Some(e) } && code == 2 && member_create_outcome(rest, Err(e)))
        } else if word == "close"@ {
            ||| (r matches CommandOutcome::Send(CollectionCommand::Close(p)) && close_outcome(rest, Ok(p)))
            ||| (r matches CommandOutcome::Usage { code, message: Some(e) } && code == 2 && close_outcome(rest, Err(e)))
        } else if is_help(word) {
            r == usage::<CollectionCommand>(0)
        } else {
            r == usage::<CollectionCommand>(2)
        }
    }
}

fn refuse<T>(message: String) -> (r: CommandOutcome<T>)
    ensures
        r == (CommandOutcome::<T>::Usage { code: 2, message: Some(message) }),
{
    CommandOutcome::Usage { code: 2, message: Some(message) }
}

fn usage_with<T>(code: i32) -> (r: CommandOutcome<T>)
    ensures
        r == usage::<T>(code),
{
    CommandOutcome::Usage { code, message: None }
}

/// The request a `collection` command line asks for. `finite` lists the
/// argument texts that read as finite decimal numbers.
pub fn collection_command(args: &[String], finite: &[String]) -> (r: CommandOutcome<CollectionCommand>)
    ensures
        collection_outcome(args@, finite@, r),
{
    if args.len() == 0 {
        return usage_with(2);
    }
    let word = args[0].as_str();
    let rest = vstd::slice::slice_subrange(args, 1, args.len());
    if str_eq(word, "list") {
        match parse_list(rest) {
            Ok(p) => CommandOutcome::Send(CollectionCommand::List(p)),
            Err(e) => refuse(e),
        }
    } else if str_eq(word, "get") {
        match collection::one(rest) {
            Ok(collection_id) => CommandOutcome::Send(CollectionCommand::Get(CollectionTarget { collection_id })),
            Err(e) => refuse(e),
        }
    } else if str_eq(word, "create") {
        match parse_create(rest, finite) {
            Ok(p) => CommandOutcome::Send(CollectionCommand::Create(p)),
            Err(e) => refuse(e),
        }
    } else if str_eq(word, "add") {
        match two(rest) {
            Ok((collection_id, pane_id)) => CommandOutcome::Send(
                CollectionCommand::Add(CollectionAddParams { collection_id, pane_id }),
            ),
            Err(e) => refuse(e),
        }
    } else if str_eq(word, "move") {
        match two(rest) {
            Ok((pane_id, collection_id)) => CommandOutcome::Send(
                CollectionCommand::Move(CollectionMoveParams { pane_id, collection_id }),
            ),
            Err(e) => refuse(e),
        }
    } else if str_eq(word, "promote") {
        match parse_promote(rest, finite) {
            Ok(p) => CommandOutcome::Send(CollectionCommand::Promote(p)),
            Err(e) => refuse(e),
        }
    } else if str_eq(word, "select") {
        match parse_select(rest) {
            Ok(p) => CommandOutcome::Send(CollectionCommand::Select(p)),
            Err(e) => refuse(e),
        }
    } else if str_eq(word, "reorder") {
        match parse_reorder(rest) {
            Ok(p) => CommandOutcome::Send(CollectionCommand::Reorder(p)),
            Err(e) => refuse(e),
        }
    } else if str_eq(word, "archive") {
        match two(rest) {
            Ok((collection_id, pane_id)) => CommandOutcome::Send(
                CollectionCommand::Archive(CollectionMemberTarget { collection_id, pane_id }),
            ),
            Err(e) => refuse(e),
        }
    } else if str_eq(word, "restore") {
        match two(rest) {
            Ok((collection_id, pane_id)) => CommandOutcome::Send(
                CollectionCommand::Restore(CollectionMemberTarget { collection_id, pane_id }),
            ),
            Err(e) => refuse(e),
        }
    } else if str_eq(word, "member-create") {
        match parse_member_create(rest) {
            Ok(p) => CommandOutcome::Send(CollectionCommand::CreateMember(p)),
            Err(e) => refuse(e),
        }
    } else if str_eq(word, "close") {
        match parse_close(rest) {
            Ok(p) => CommandOutcome::Send(CollectionCommand::Close(p)),
            Err(e) => refuse(e),
        }
    } else if str_eq(word, "help") || str_eq(word, "--help") || str_eq(word, "-h") {
        usage_with(0)
    } else {
        usage_with(2)
    }
}

/// What the `delegation` command does with `args`.
pub open spec fn delegation_outcome(args: Seq<String>, r: CommandOutcome<DelegationCommand>) -> bool {
    if args.len() == 0 {
        r == usage::<DelegationCommand>(2)
    } else {
        let word = args[0]@;
        let rest = args.subrange(1, args.len() as int);
        if word == "create"@ {
            ||| (r matches CommandOutcome::Send(DelegationCommand::Create(p)) && delegation::create_outcome(rest, Ok(p)))
            ||| (r matches CommandOutcome::Usage { code, message: Some(e) } && code == 2 && delegation::create_outcome(rest, Err(e)))
        } else if word == "get"@ {
            ||| (r matches CommandOutcome::Send(DelegationCommand::Get(t)) && delegation::one_outcome(rest, Ok(t.delegation_id)))
            ||| (r matches CommandOutcome::Usage { code, message: Some(e) } && code == 2 && delegation::one_outcome(rest, Err(e)))
        } else if word == "tree"@ && args.len() == 1 {
            r == CommandOutcome::Send(DelegationCommand::Tree)
        } else if word == "root"@ {
            ||| (r matches CommandOutcome::Send(DelegationCommand::Root(t)) && delegation::one_outcome(rest, Ok(t.delegation_id)))
            ||| (r matches CommandOutcome::Usage { code, message: Some(e) } && code == 2 && delegation::one_outcome(rest, Err(e)))
        } else if word == "descendants"@ {
            ||| (r matches CommandOutcome::Send(DelegationCommand::Descendants(t)) && delegation::one_outcome(rest, Ok(t.delegation_id)))
            ||| (r matches CommandOutcome::Usage { code, message: Some(e) } && code == 2 && delegation::one_outcome(rest, Err(e)))
        } else if word == "reparent"@ {
            ||| (r matches CommandOutcome::Send(DelegationCommand::Reparent(p)) && delegation::reparent_outcome(rest, Ok(p)))
            ||| (r matches CommandOutcome::Usage { code, message: Some(e) } && code == 2 && delegation::reparent_outcome(rest, Err(e)))
        } else if word == "reorder"@ {
            ||| (r matches CommandOutcome::Send(DelegationCommand::Reorder(p)) && delegation::reorder_outcome(rest, Ok(p)))
            ||| (r matches CommandOutcome::Usage { code, message: Some(e) } && code == 2 && delegation::reorder_outcome(rest, Err(e)))
        } else if is_help(word) {
            r == usage::<DelegationCommand>(0)
        } else {
            r == usage::<DelegationCommand>(2)
        }
    }
}

/// The request a `delegation` command line asks for.
pub fn delegation_command(args: &[String]) -> (r: CommandOutcome<DelegationCommand>)
    ensures
        delegation_outcome(args@, r),
{
    if args.len() == 0 {
        return usage_with(2);
    }
    let word = args[0].as_str();
    let rest = vstd::slice::slice_subrange(args, 1, args.len());
    if str_eq(word, "create") {
        match delegation::parse_create(rest) {
            Ok(p) => CommandOutcome::Send(DelegationCommand::Create(p)),
            Err(e) => refuse(e),
        }
    } else if str_eq(word, "get") {
        match delegation::one(rest) {
            Ok(delegation_id) => CommandOutcome::Send(DelegationCommand::Get(DelegationTarget { delegation_id })),
            Err(e) => refuse(e),
        }
    } else if str_eq(word, "tree") && args.len() == 1 {
        CommandOutcome::Send(DelegationCommand::Tree)
    } else if str_eq(word, "root") {
        match delegation::one(rest) {
            Ok(delegation_id) => CommandOutcome::Send(DelegationCommand::Root(DelegationTarget { delegation_id })),
            Err(e) => refuse(e),
        }
    } else if str_eq(word, "descendants") {
        match delegation::one(rest) {
            Ok(delegation_id) => CommandOutcome::Send(
                DelegationCommand::Descendants(DelegationTarget { delegation_id }),
            ),
            Err(e) => refuse(e),
        }
    } else if str_eq(word, "reparent") {
        match delegation::parse_reparent(rest) {
            Ok(p) => CommandOutcome::Send(DelegationCommand::Reparent(p)),
            Err(e) => refuse(e),
        }
    } else if str_eq(word, "reorder") {
        match delegation::parse_reorder(rest) {
            Ok(p) => CommandOutcome::Send(DelegationCommand::Reorder(p)),
            Err(e) => refuse(e),
        }
    } else if str_eq(word, "help") || str_eq(word, "--help") || str_eq(word, "-h") {
        usage_with(0)
    } else {
        usage_with(2)
    }
}

/// The texts of `parts`, separated by `sep`.
pub open spec fn joined(parts: Seq<Seq<char>>, sep: Seq<char>) -> Seq<char>
    decreases parts.len(),
{
    if parts.len() == 0 {
        seq![]
    } else if parts.len() == 1 {
        parts[0]
    } else {
        joined(parts.drop_last(), sep) + sep + parts.last()
    }
}

pub open spec fn texts(args: Seq<String>) -> Seq<Seq<char>> {
    args.map_values(|a: String| a@)
}

/// `args[from..]` joined by single spaces.
fn join_from(args: &[String], from: usize) -> (r: String)
    requires
        from < args@.len(),
    ensures
        r@ == joined(texts(args@.subrange(from as int, args@.len() as int)), " "@),
{
    let mut out = args[from].clone();
    let mut i: usize = from + 1;
    assert(texts(args@.subrange(from as int, i as int)) =~= seq![args@[from as int]@]);
    while i < args.len()
        invariant
            from < i <= args@.len(),
            out@ == joined(texts(args@.subrange(from as int, i as int)), " "@),
        decreases args@.len() - i,
    {
        let ghost before = texts(args@.subrange(from as int, i as int));
        let spaced = concat(out.as_str(), " ");
        out = concat(spaced.as_str(), args[i].as_str());
        proof {
            let after = texts(args@.subrange(from as int, i + 1));
            assert(after.drop_last() =~= before);
            assert(after.last() == args@[i as int]@);
        }
        i = i + 1;
    }
    out
}

/// What the `repository` command does with `args`.
pub open spec fn repository_outcome(args: Seq<String>, r: CommandOutcome<RepositoryCommand>) -> bool {
    if args.len() == 0 {
        r == usage::<RepositoryCommand>(2)
    } else {
        let word = args[0]@;
        if word == "list"@ {
            if args.len() == 1 {
                r == CommandOutcome::Send(RepositoryCommand::List { json: false })
            } else if args.len() == 2 && args[1]@ == "--json"@ {
                r == CommandOutcome::Send(RepositoryCommand::List { json: true })
            } else {
                r matches CommandOutcome::Refused { message } && message@ == "usage: herdr repository list [--json]"@
            }
        } else if word == "get"@ {
            if args.len() == 2 {
                r matches CommandOutcome::Send(RepositoryCommand::Get { repository_id, json }) && repository_id@
                    == args[1]@ && !json
            } else if args.len() == 3 && args[2]@ == "--json"@ {
                r matches CommandOutcome::Send(RepositoryCommand::Get { repository_id, json }) && repository_id@
                    == args[1]@ && json
            } else {
                r matches CommandOutcome::Refused { message } && message@
                    == "usage: herdr repository get <repository_id> [--json]"@
            }
        } else if word == "focus"@ && args.len() == 2 {
            r matches CommandOutcome::Send(RepositoryCommand::Focus(t)) && t.repository_id@ == args[1]@
        } else if word == "close"@ && args.len() == 2 {
            r matches CommandOutcome::Send(RepositoryCommand::Close(t)) && t.repository_id@ == args[1]@
        } else if word == "rename"@ && args.len() >= 3 {
            r matches CommandOutcome::Send(RepositoryCommand::Rename(p)) && p.repository_id@ == args[1]@
                && p.label@ == joined(texts(args.subrange(2, args.len() as int)), " "@)
        } else if word == "move"@ && args.len() == 3 {
            match parse_usize_spec(args[2]@) {
                Some(index) => r matches CommandOutcome::Send(RepositoryCommand::Move(p))
                    && p.repository_id@ == args[1]@ && p.insert_index == index,
                None => r matches CommandOutcome::Refused { message } && message@
                    == "insert_index must be a non-negative integer"@,
            }
        } else if is_help(word) {
            r == usage::<RepositoryCommand>(0)
        } else {
            r == usage::<RepositoryCommand>(2)
        }
    }
}

/// The request a `repository` command line asks for.
pub fn repository_command(args: &[String]) -> (r: CommandOutcome<RepositoryCommand>)
    ensures
        repository_outcome(args@, r),
{
    if args.len() == 0 {
        return usage_with(2);
    }
    let word = args[0].as_str();
    if str_eq(word, "list") {
        if args.len() == 1 {
            CommandOutcome::Send(RepositoryCommand::List { json: false })
        } else if args.len() == 2 && str_eq(args[1].as_str(), "--json") {
            CommandOutcome::Send(RepositoryCommand::List { json: true })
        } else {
            CommandOutcome::Refused { message: String::from_str("usage: herdr repository list [--json]") }
        }
    } else if str_eq(word, "get") {
        if args.len() == 2 {
            CommandOutcome::Send(RepositoryCommand::Get { repository_id: args[1].clone(), json: false })
        } else if args.len() == 3 && str_eq(args[2].as_str(), "--json") {
            CommandOutcome::Send(RepositoryCommand::Get { repository_id: args[1].clone(), json: true })
        } else {
            CommandOutcome::Refused {
                message: String::from_str("usage: herdr repository get <repository_id> [--json]"),
            }
        }
    } else if str_eq(word, "focus") && args.len() == 2 {
        CommandOutcome::Send(RepositoryCommand::Focus(RepositoryTarget { repository_id: args[1].clone() }))
    } else if str_eq(word, "close") && args.len() == 2 {
        CommandOutcome::Send(RepositoryCommand::Close(RepositoryTarget { repository_id: args[1].clone() }))
    } else if str_eq(word, "rename") && args.len() >= 3 {
        let label = join_from(args, 2);
        CommandOutcome::Send(
            RepositoryCommand::Rename(RepositoryRenameParams { repository_id: args[1].clone(), label }),
        )
    } else if str_eq(word, "move") && args.len() == 3 {
        match parse_usize(args[2].as_str()) {
            Some(insert_index) => CommandOutcome::Send(
                RepositoryCommand::Move(RepositoryMoveParams { repository_id: args[1].clone(), insert_index }),
            ),
            None => CommandOutcome::Refused {
                message: String::from_str("insert_index must be a non-negative integer"),
            },
        }
    } else if str_eq(word, "help") || str_eq(word, "--help") || str_eq(word, "-h") {
        usage_with(0)
    } else {
        usage_with(2)
    }
}

} // verus!
