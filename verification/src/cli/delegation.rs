//! Argument grammar of the `delegation` command.

use vstd::prelude::*;
use crate::schema::{
    DelegationCreateParams, DelegationReorderParams, DelegationReparentParams,
    DelegationSiblingPosition,
};
use crate::text::{concat, opt_view, str_eq};

verus! {

/// The options of `create` from position `i` on: `--pane`, `--parent` and
/// `--purpose`, each followed by a value (a later occurrence replaces an
/// earlier one).
pub open spec fn create_args(
    args: Seq<String>,
    i: nat,
    pane: Option<Seq<char>>,
    parent: Option<Seq<char>>,
    purpose: Option<Seq<char>>,
) -> Result<(Option<Seq<char>>, Option<Seq<char>>, Option<Seq<char>>), Seq<char>>
    decreases args.len() - i,
{
    if i >= args.len() {
        Ok((pane, parent, purpose))
    } else if i + 1 >= args.len() {
        Err("missing value for "@ + args[i as int]@)
    } else {
        let name = args[i as int]@;
        let value = args[i + 1int]@;
        if name == "--pane"@ {
            create_args(args, i + 2, Some(value), parent, purpose)
        } else if name == "--parent"@ {
            create_args(args, i + 2, pane, Some(value), purpose)
        } else if name == "--purpose"@ {
            create_args(args, i + 2, pane, parent, Some(value))
        } else {
            Err("unknown option: "@ + name)
        }
    }
}

/// What `parse_create` returns for `args`.
pub open spec fn create_outcome(args: Seq<String>, r: Result<DelegationCreateParams, String>) -> bool {
    match create_args(args, 0, None, None, None) {
        Ok((pane, parent, purpose)) => r matches Ok(p) && opt_view(p.pane_id) == pane
            && opt_view(p.parent_id) == parent && opt_view(p.purpose) == purpose,
        Err(message) => r matches Err(e) && e@ == message,
    }
}

/// `create [--pane ID] [--parent ID] [--purpose TEXT]`.
pub fn parse_create(args: &[String]) -> (r: Result<DelegationCreateParams, String>)
    ensures
        create_outcome(args@, r),
{
    let mut pane_id: Option<String> = None;
    let mut parent_id: Option<String> = None;
    let mut purpose: Option<String> = None;
    let mut i: usize = 0;
    while i < args.len()
        invariant
            i <= args@.len(),
            create_args(args@, 0, None, None, None) == create_args(
                args@,
                i as nat,
                opt_view(pane_id),
                opt_view(parent_id),
                opt_view(purpose),
            ),
        decreases args@.len() - i,
    {
        if i + 1 >= args.len() {
            return Err(concat("missing value for ", args[i].as_str()));
        }
        let name = args[i].as_str();
        let value = args[i + 1].clone();
        if str_eq(name, "--pane") {
            pane_id = Some(value);
        } else if str_eq(name, "--parent") {
            parent_id = Some(value);
        } else if str_eq(name, "--purpose") {
            purpose = Some(value);
        } else {
            return Err(concat("unknown option: ", name));
        }
        i = i + 2;
    }
    Ok(DelegationCreateParams { pane_id, parent_id, purpose })
}

/// The usage line of `reparent`.
pub open spec fn reparent_usage() -> Seq<char> {
    "usage: herdr delegation reparent <id> (--parent ID|--root)"@
}

/// What `parse_reparent` returns for `args`.
pub open spec fn reparent_outcome(args: Seq<String>, r: Result<DelegationReparentParams, String>) -> bool {
    &&& args.len() == 0 ==> (r matches Err(e) && e@ == "missing delegation_id"@)
    &&& args.len() == 2 && args[1]@ == "--root"@ ==> (r matches Ok(p) && p.delegation_id@
        == args[0]@ && p.parent_id is None)
    &&& args.len() == 3 && args[1]@ == "--parent"@ ==> (r matches Ok(p) && p.delegation_id@
        == args[0]@ && opt_view(p.parent_id) == Some(args[2]@))
    &&& args.len() > 0 && !(args.len() == 2 && args[1]@ == "--root"@) && !(args.len() == 3
        && args[1]@ == "--parent"@) ==> (r matches Err(e) && e@ == reparent_usage())
}

/// `reparent <id> (--parent ID | --root)`.
pub fn parse_reparent(args: &[String]) -> (r: Result<DelegationReparentParams, String>)
    ensures
        reparent_outcome(args@, r),
{
    if args.len() == 0 {
        return Err(String::from_str("missing delegation_id"));
    }
    let delegation_id = args[0].clone();
    if args.len() == 2 && str_eq(args[1].as_str(), "--root") {
        return Ok(DelegationReparentParams { delegation_id, parent_id: None });
    }
    if args.len() == 3 && str_eq(args[1].as_str(), "--parent") {
        return Ok(DelegationReparentParams { delegation_id, parent_id: Some(args[2].clone()) });
    }
    Err(String::from_str("usage: herdr delegation reparent <id> (--parent ID|--root)"))
}

/// What `parse_reorder` returns for `args`.
pub open spec fn reorder_outcome(args: Seq<String>, r: Result<DelegationReorderParams, String>) -> bool {
    &&& args.len() == 0 ==> (r matches Err(e) && e@ == "missing delegation_id"@)
    &&& args.len() == 2 && args[1]@ == "--first"@ ==> (r matches Ok(p) && p.delegation_id@
        == args[0]@ && p.position is First)
    &&& args.len() == 2 && args[1]@ == "--last"@ ==> (r matches Ok(p) && p.delegation_id@
        == args[0]@ && p.position is Last)
    &&& args.len() == 3 && args[1]@ == "--before"@ ==> (r matches Ok(p) && p.delegation_id@
        == args[0]@ && (p.position matches DelegationSiblingPosition::Before { delegation_id }
        && delegation_id@ == args[2]@))
    &&& args.len() == 3 && args[1]@ == "--after"@ ==> (r matches Ok(p) && p.delegation_id@
        == args[0]@ && (p.position matches DelegationSiblingPosition::After { delegation_id }
        && delegation_id@ == args[2]@))
    &&& args.len() > 0 && !(args.len() == 2 && (args[1]@ == "--first"@ || args[1]@
        == "--last"@)) && !(args.len() == 3 && (args[1]@ == "--before"@ || args[1]@
        == "--after"@)) ==> (r matches Err(e) && e@
        == "choose --first, --last, --before ID, or --after ID"@)
}

/// `reorder <id> (--first | --last | --before ID | --after ID)`.
pub fn parse_reorder(args: &[String]) -> (r: Result<DelegationReorderParams, String>)
    ensures
        reorder_outcome(args@, r),
{
    proof {
        reveal_strlit("--first");
        reveal_strlit("--last");
        reveal_strlit("--before");
        reveal_strlit("--after");
        assert("--first"@[2] != "--last"@[2]);
        assert("--before"@[2] != "--after"@[2]);
    }
    if args.len() == 0 {
        return Err(String::from_str("missing delegation_id"));
    }
    let delegation_id = args[0].clone();
    if args.len() == 2 {
        if str_eq(args[1].as_str(), "--first") {
            return Ok(DelegationReorderParams { delegation_id, position: DelegationSiblingPosition::First });
        }
        if str_eq(args[1].as_str(), "--last") {
            return Ok(DelegationReorderParams { delegation_id, position: DelegationSiblingPosition::Last });
        }
    }
    if args.len() == 3 {
        if str_eq(args[1].as_str(), "--before") {
            return Ok(
                DelegationReorderParams {
                    delegation_id,
                    position: DelegationSiblingPosition::Before { delegation_id: args[2].clone() },
                },
            );
        }
        if str_eq(args[1].as_str(), "--after") {
            return Ok(
                DelegationReorderParams {
                    delegation_id,
                    position: DelegationSiblingPosition::After { delegation_id: args[2].clone() },
                },
            );
        }
    }
    Err(String::from_str("choose --first, --last, --before ID, or --after ID"))
}

/// What `one` returns for `args`.
pub open spec fn one_outcome(args: Seq<String>, r: Result<String, String>) -> bool {
    &&& args.len() == 1 ==> (r matches Ok(id) && id@ == args[0]@)
    &&& args.len() != 1 ==> (r matches Err(e) && e@ == "expected one delegation ID"@)
}

/// Exactly one delegation identity.
pub fn one(args: &[String]) -> (r: Result<String, String>)
    ensures
        one_outcome(args@, r),
{
    if args.len() == 1 {
        Ok(args[0].clone())
    } else {
        Err(String::from_str("expected one delegation ID"))
    }
}

} // verus!
