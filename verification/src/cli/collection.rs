//! Argument grammar of the `collection` command.
//!
//! Options are `--name` words; an option takes the next argument as its value
//! unless that argument is itself an option. Options are handled left to
//! right and the first problem found is the one reported.

use vstd::prelude::*;
use crate::schema::{
    CollectionCloseDisposition, CollectionCloseParams, CollectionCreateMemberParams,
    CollectionCreateParams, CollectionPromoteParams,
    CollectionListParams, CollectionReorderParams, CollectionSelectParams, SplitDirection,
};
use crate::text::{
    concat, has_prefix, opt_view, parse_usize, parse_usize_spec, starts_with, str_eq,
};

verus! {

/// An option word and the value that follows it, as text.
pub type OptionText = (Seq<char>, Option<Seq<char>>);

/// The text of one split option.
pub open spec fn pair_view(p: (String, Option<String>)) -> OptionText {
    (p.0@, opt_view(p.1))
}

/// The options of `args` from position `i`, up to the first argument that
/// is not an option, and the error that argument causes (if any).
pub open spec fn option_pairs(args: Seq<String>, i: nat) -> (Seq<OptionText>, Option<Seq<char>>)
    decreases args.len() - i,
{
    if i >= args.len() {
        (Seq::empty(), None)
    } else if !has_prefix(args[i as int]@, "--"@) {
        (Seq::empty(), Some("unexpected argument: "@ + args[i as int]@))
    } else {
        let has_value = i + 1 < args.len() && !has_prefix(args[i + 1int]@, "--"@);
        let value = if has_value {
            Some(args[i + 1int]@)
        } else {
            None
        };
        let rest = option_pairs(args, if has_value { i + 2 } else { i + 1 });
        (seq![(args[i as int]@, value)] + rest.0, rest.1)
    }
}

/// The outcome of handling the options, then the error of the first
/// argument that is not an option.
pub open spec fn after_walk<T>(handled: Result<T, Seq<char>>, walk_error: Option<Seq<char>>) -> Result<T, Seq<char>> {
    match handled {
        Err(e) => Err(e),
        Ok(x) => match walk_error {
            Some(e) => Err(e),
            None => Ok(x),
        },
    }
}

pub open spec fn missing_value(name: Seq<char>) -> Seq<char> {
    "missing value for "@ + name
}

pub open spec fn unknown_option(name: Seq<char>) -> Seq<char> {
    "unknown option: "@ + name
}

/// Split `args[start..]` into options and their values.
fn split_options(args: &[String], start: usize) -> (r: (Vec<(String, Option<String>)>, Option<String>))
    requires
        start <= args@.len(),
    ensures
        r.0@.map_values(|p: (String, Option<String>)| pair_view(p)) == option_pairs(args@, start as nat).0,
        opt_view(r.1) == option_pairs(args@, start as nat).1,
{
    let mut pairs: Vec<(String, Option<String>)> = Vec::new();
    let mut i: usize = start;
    while i < args.len()
        invariant
            start <= i <= args@.len(),
            option_pairs(args@, start as nat).1 == option_pairs(args@, i as nat).1,
            option_pairs(args@, start as nat).0 == pairs@.map_values(
                |p: (String, Option<String>)| pair_view(p),
            ) + option_pairs(args@, i as nat).0,
        decreases args@.len() - i,
    {
        let name = &args[i];
        if !starts_with(name.as_str(), "--") {
            return (pairs, Some(concat("unexpected argument: ", name.as_str())));
        }
        let ghost before = pairs@;
        let has_value = i + 1 < args.len() && !starts_with(args[i + 1].as_str(), "--");
        let value = if has_value {
            Some(args[i + 1].clone())
        } else {
            None
        };
        pairs.push((name.clone(), value));
        proof {
            let next = if has_value { i + 2 } else { i + 1 };
            assert(option_pairs(args@, i as nat).0 == seq![pair_view(pairs@.last())] + option_pairs(args@, next as nat).0);
            assert(pairs@.map_values(|p: (String, Option<String>)| pair_view(p)) =~= before.map_values(
                |p: (String, Option<String>)| pair_view(p),
            ).push(pair_view(pairs@.last())));
        }
        i = if has_value {
            i + 2
        } else {
            i + 1
        };
    }
    proof {
        assert(pairs@.map_values(|p: (String, Option<String>)| pair_view(p)) + Seq::<OptionText>::empty()
            =~= pairs@.map_values(|p: (String, Option<String>)| pair_view(p)));
    }
    (pairs, None)
}

/// Split `args` into options and their values: the options up to the first
/// argument that is not an option, and the error that argument causes.
pub fn parse_options(args: &[String]) -> (r: (Vec<(String, Option<String>)>, Option<String>))
    ensures
        r.0@.map_values(|p: (String, Option<String>)| pair_view(p)) == option_pairs(args@, 0).0,
        opt_view(r.1) == option_pairs(args@, 0).1,
{
    split_options(args, 0)
}

/// The value of option `name`, which must have one.
pub fn required_value(name: &str, value: Option<&String>) -> (r: Result<String, String>)
    ensures
        match value {
            Some(v) => r matches Ok(s) && s@ == v@,
            None => r matches Err(e) && e@ == missing_value(name@),
        },
{
    match value {
        Some(v) => Ok(v.clone()),
        None => Err(concat("missing value for ", name)),
    }
}

pub open spec fn direction_spec(value: Seq<char>) -> Result<SplitDirection, Seq<char>> {
    if value == "right"@ {
        Ok(SplitDirection::Right)
    } else if value == "down"@ {
        Ok(SplitDirection::Down)
    } else {
        Err("direction must be right or down"@)
    }
}

/// `right` or `down`.
pub fn parse_direction(value: &str) -> (r: Result<SplitDirection, String>)
    ensures
        match direction_spec(value@) {
            Ok(d) => r == Ok::<SplitDirection, String>(d),
            Err(m) => r matches Err(e) && e@ == m,
        },
{
    if str_eq(value, "right") {
        Ok(SplitDirection::Right)
    } else if str_eq(value, "down") {
        Ok(SplitDirection::Down)
    } else {
        Err(String::from_str("direction must be right or down"))
    }
}

/// What `one` returns for `args`.
pub open spec fn one_outcome(args: Seq<String>, r: Result<String, String>) -> bool {
    &&& args.len() == 1 ==> (r matches Ok(id) && id@ == args[0]@)
    &&& args.len() != 1 ==> (r matches Err(e) && e@ == "expected one ID"@)
}

/// Exactly one identity.
pub fn one(args: &[String]) -> (r: Result<String, String>)
    ensures
        one_outcome(args@, r),
{
    if args.len() == 1 {
        Ok(args[0].clone())
    } else {
        Err(String::from_str("expected one ID"))
    }
}

/// What `two` returns for `args`.
pub open spec fn two_outcome(args: Seq<String>, r: Result<(String, String), String>) -> bool {
    &&& args.len() == 2 ==> (r matches Ok((a, b)) && a@ == args[0]@ && b@ == args[1]@)
    &&& args.len() != 2 ==> (r matches Err(e) && e@ == "expected two IDs"@)
}

/// Exactly two identities.
pub fn two(args: &[String]) -> (r: Result<(String, String), String>)
    ensures
        two_outcome(args@, r),
{
    if args.len() == 2 {
        Ok((args[0].clone(), args[1].clone()))
    } else {
        Err(String::from_str("expected two IDs"))
    }
}

// ------------------------------------------------------------------ list

/// `list` options: `--workspace ID` and `--tab ID`.
pub open spec fn list_options(
    pairs: Seq<OptionText>,
    workspace: Option<Seq<char>>,
    tab: Option<Seq<char>>,
) -> Result<(Option<Seq<char>>, Option<Seq<char>>), Seq<char>>
    decreases pairs.len(),
{
    if pairs.len() == 0 {
        Ok((workspace, tab))
    } else {
        let (name, value) = pairs[0];
        if name == "--workspace"@ {
            match value {
                Some(v) => list_options(pairs.drop_first(), Some(v), tab),
                None => Err(missing_value(name)),
            }
        } else if name == "--tab"@ {
            match value {
                Some(v) => list_options(pairs.drop_first(), workspace, Some(v)),
                None => Err(missing_value(name)),
            }
        } else {
            Err(unknown_option(name))
        }
    }
}

/// What `parse_list` returns for `args`.
pub open spec fn list_outcome(args: Seq<String>, r: Result<CollectionListParams, String>) -> bool {
    match after_walk(list_options(option_pairs(args, 0).0, None, None), option_pairs(args, 0).1) {
        Ok((workspace, tab)) => r matches Ok(p) && opt_view(p.workspace_id) == workspace
            && opt_view(p.tab_id) == tab,
        Err(m) => r matches Err(e) && e@ == m,
    }
}

/// `list [--workspace ID] [--tab ID]`.
pub fn parse_list(args: &[String]) -> (r: Result<CollectionListParams, String>)
    ensures
        list_outcome(args@, r),
{
    let (pairs, walk_error) = parse_options(args);
    let ghost all = option_pairs(args@, 0).0;
    let mut workspace_id: Option<String> = None;
    let mut tab_id: Option<String> = None;
    let mut j: usize = 0;
    assert(all.skip(0) =~= all);
    while j < pairs.len()
        invariant
            all == pairs@.map_values(|p: (String, Option<String>)| pair_view(p)),
            all == option_pairs(args@, 0).0,
            0 <= j <= pairs@.len(),
            list_options(all, None, None) == list_options(all.skip(j as int), opt_view(workspace_id), opt_view(tab_id)),
        decreases pairs@.len() - j,
    {
        let name = pairs[j].0.as_str();
        let value = match &pairs[j].1 {
            Some(v) => Some(v),
            None => None,
        };
        proof {
            assert(all.skip(j as int)[0] == pair_view(pairs@[j as int]));
            assert(all.skip(j as int).drop_first() =~= all.skip(j + 1));
        }
        if str_eq(name, "--workspace") {
            match required_value(name, value) {
                Ok(v) => workspace_id = Some(v),
                Err(e) => return Err(e),
            }
        } else if str_eq(name, "--tab") {
            match required_value(name, value) {
                Ok(v) => tab_id = Some(v),
                Err(e) => return Err(e),
            }
        } else {
            return Err(concat("unknown option: ", name));
        }
        j = j + 1;
    }
    match walk_error {
        Some(e) => Err(e),
        None => Ok(CollectionListParams { workspace_id, tab_id }),
    }
}

// ---------------------------------------------------------------- select

/// The `--focus` / `--no-focus` flags of `select` from position `i`.
pub open spec fn select_flags(args: Seq<String>, i: nat, focus: bool) -> Result<bool, Seq<char>>
    decreases args.len() - i,
{
    if i >= args.len() {
        Ok(focus)
    } else if args[i as int]@ == "--focus"@ {
        select_flags(args, i + 1, true)
    } else if args[i as int]@ == "--no-focus"@ {
        select_flags(args, i + 1, false)
    } else {
        Err(unknown_option(args[i as int]@))
    }
}

/// What `parse_select` returns for `args`.
pub open spec fn select_outcome(args: Seq<String>, r: Result<CollectionSelectParams, String>) -> bool {
    &&& args.len() < 2 ==> (r matches Err(e) && e@ == "expected collection_id and pane_id"@)
    &&& args.len() >= 2 ==> match select_flags(args, 2, false) {
        Ok(focus) => r matches Ok(p) && p.collection_id@ == args[0]@ && p.pane_id@ == args[1]@
            && p.focus == focus,
        Err(m) => r matches Err(e) && e@ == m,
    }
}

/// `select <collection_id> <pane_id> [--focus | --no-focus]...`.
pub fn parse_select(args: &[String]) -> (r: Result<CollectionSelectParams, String>)
    ensures
        select_outcome(args@, r),
{
    if args.len() < 2 {
        return Err(String::from_str("expected collection_id and pane_id"));
    }
    let mut focus = false;
    let mut i: usize = 2;
    while i < args.len()
        invariant
            2 <= i <= args@.len(),
            select_flags(args@, 2, false) == select_flags(args@, i as nat, focus),
        decreases args@.len() - i,
    {
        let arg = args[i].as_str();
        if str_eq(arg, "--focus") {
            focus = true;
        } else if str_eq(arg, "--no-focus") {
            focus = false;
        } else {
            return Err(concat("unknown option: ", arg));
        }
        i = i + 1;
    }
    Ok(CollectionSelectParams { collection_id: args[0].clone(), pane_id: args[1].clone(), focus })
}

// --------------------------------------------------------------- reorder

pub open spec fn reorder_usage() -> Seq<char> {
    "usage: herdr collection reorder <collection_id> <pane_id> --index N"@
}

/// What `parse_reorder` returns for `args`.
pub open spec fn reorder_outcome(args: Seq<String>, r: Result<CollectionReorderParams, String>) -> bool {
    &&& !(args.len() == 4 && args[2]@ == "--index"@) ==> (r matches Err(e) && e@ == reorder_usage())
    &&& args.len() == 4 && args[2]@ == "--index"@ ==> match parse_usize_spec(args[3]@) {
        Some(index) => r matches Ok(p) && p.collection_id@ == args[0]@ && p.pane_id@
            == args[1]@ && p.index == index,
        None => r matches Err(e) && e@ == "invalid index"@,
    }
}

/// `reorder <collection_id> <pane_id> --index N`.
pub fn parse_reorder(args: &[String]) -> (r: Result<CollectionReorderParams, String>)
    ensures
        reorder_outcome(args@, r),
{
    if args.len() != 4 || !str_eq(args[2].as_str(), "--index") {
        return Err(String::from_str("usage: herdr collection reorder <collection_id> <pane_id> --index N"));
    }
    let index = match parse_usize(args[3].as_str()) {
        Some(index) => index,
        None => return Err(String::from_str("invalid index")),
    };
    Ok(CollectionReorderParams { collection_id: args[0].clone(), pane_id: args[1].clone(), index })
}

/// The leading positional identity: present and not starting with `-`.
pub open spec fn leading_id(args: Seq<String>) -> bool {
    args.len() > 0 && !(args[0]@.len() > 0 && args[0]@[0] == '-')
}

/// Whether the first argument is a positional identity.
fn has_leading_id(args: &[String]) -> (r: bool)
    ensures
        r == leading_id(args@),
{
    if args.len() == 0 {
        return false;
    }
    let first = args[0].as_str();
    !(first.unicode_len() > 0 && first.get_char(0) == '-')
}

// ----------------------------------------------------------------- close

/// `close` options: one disposition flag, `--target-pane ID` and
/// `--focus-promoted`.
pub open spec fn close_options(
    pairs: Seq<OptionText>,
    disposition: Option<CollectionCloseDisposition>,
    target: Option<Seq<char>>,
    focus_promoted: bool,
) -> Result<(Option<CollectionCloseDisposition>, Option<Seq<char>>, bool), Seq<char>>
    decreases pairs.len(),
{
    if pairs.len() == 0 {
        Ok((disposition, target, focus_promoted))
    } else {
        let (name, value) = pairs[0];
        let rest = pairs.drop_first();
        if name == "--cascade-close"@ {
            if disposition is Some {
                Err("choose one disposition"@)
            } else {
                close_options(rest, Some(CollectionCloseDisposition::CascadeClose), target, focus_promoted)
            }
        } else if name == "--promote-members"@ {
            if disposition is Some {
                Err("choose one disposition"@)
            } else {
                close_options(rest, Some(CollectionCloseDisposition::PromoteMembers), target, focus_promoted)
            }
        } else if name == "--target-pane"@ {
            match value {
                Some(v) => close_options(rest, disposition, Some(v), focus_promoted),
                None => Err(missing_value(name)),
            }
        } else if name == "--focus-promoted"@ {
            close_options(rest, disposition, target, true)
        } else {
            Err(unknown_option(name))
        }
    }
}

/// What `parse_close` returns for `args`.
pub open spec fn close_outcome(args: Seq<String>, r: Result<CollectionCloseParams, String>) -> bool {
    &&& !leading_id(args) ==> (r matches Err(e) && e@ == "missing collection_id"@)
    &&& leading_id(args) ==> match after_walk(
        close_options(option_pairs(args, 1).0, None, None, false),
        option_pairs(args, 1).1,
    ) {
        Ok((disposition, target, focus_promoted)) => r matches Ok(p) && p.collection_id@
            == args[0]@ && p.disposition == disposition && opt_view(p.target_pane_id) == target
            && p.focus_promoted == focus_promoted,
        Err(m) => r matches Err(e) && e@ == m,
    }
}

/// `close <collection_id> [--cascade-close | --promote-members] [--target-pane ID] [--focus-promoted]`.
pub fn parse_close(args: &[String]) -> (r: Result<CollectionCloseParams, String>)
    ensures
        close_outcome(args@, r),
{
    if !has_leading_id(args) {
        return Err(String::from_str("missing collection_id"));
    }
    let collection_id = args[0].clone();
    let (pairs, walk_error) = split_options(args, 1);
    let ghost all = option_pairs(args@, 1).0;
    let mut disposition: Option<CollectionCloseDisposition> = None;
    let mut target_pane_id: Option<String> = None;
    let mut focus_promoted = false;
    let mut j: usize = 0;
    assert(all.skip(0) =~= all);
    while j < pairs.len()
        invariant
            all == pairs@.map_values(|p: (String, Option<String>)| pair_view(p)),
            all == option_pairs(args@, 1).0,
            leading_id(args@),
            0 <= j <= pairs@.len(),
            close_options(all, None, None, false) == close_options(
                all.skip(j as int),
                disposition,
                opt_view(target_pane_id),
                focus_promoted,
            ),
        decreases pairs@.len() - j,
    {
        let name = pairs[j].0.as_str();
        let value = match &pairs[j].1 {
            Some(v) => Some(v),
            None => None,
        };
        proof {
            assert(all.skip(j as int)[0] == pair_view(pairs@[j as int]));
            assert(all.skip(j as int).drop_first() =~= all.skip(j + 1));
        }
        if str_eq(name, "--cascade-close") {
            if disposition.is_some() {
                return Err(String::from_str("choose one disposition"));
            }
            disposition = Some(CollectionCloseDisposition::CascadeClose);
        } else if str_eq(name, "--promote-members") {
            if disposition.is_some() {
                return Err(String::from_str("choose one disposition"));
            }
            disposition = Some(CollectionCloseDisposition::PromoteMembers);
        } else if str_eq(name, "--target-pane") {
            match required_value(name, value) {
                Ok(v) => target_pane_id = Some(v),
                Err(e) => return Err(e),
            }
        } else if str_eq(name, "--focus-promoted") {
            focus_promoted = true;
        } else {
            return Err(concat("unknown option: ", name));
        }
        j = j + 1;
    }
    match walk_error {
        Some(e) => Err(e),
        None => Ok(CollectionCloseParams { collection_id, disposition, target_pane_id, focus_promoted }),
    }
}

// --------------------------------------------------------- member-create

/// The message for an environment assignment without a variable name.
pub open spec fn env_usage() -> Seq<char> {
    "environment assignments must look like KEY=VALUE"@
}

/// The position of the first `=` in `s`, if any.
pub open spec fn first_equals(s: Seq<char>) -> Option<int> {
    if exists|i: int| 0 <= i < s.len() && s[i] == '=' {
        Some(choose|i: int| 0 <= i < s.len() && s[i] == '=' && forall|j: int| 0 <= j < i ==> s[j] != '=')
    } else {
        None
    }
}

/// `KEY=VALUE`: the variable name is the nonempty text before the first `=`.
pub open spec fn env_assignment(raw: Seq<char>) -> Result<(Seq<char>, Seq<char>), Seq<char>> {
    match first_equals(raw) {
        Some(i) => if i > 0 {
            Ok((raw.subrange(0, i), raw.subrange(i + 1, raw.len() as int)))
        } else {
            Err(env_usage())
        },
        None => Err(env_usage()),
    }
}

/// Split an environment assignment `KEY=VALUE` at its first `=`.
pub fn parse_env_assignment(raw: &str) -> (r: Result<(String, String), String>)
    ensures
        match env_assignment(raw@) {
            Ok((k, v)) => r matches Ok((key, value)) && key@ == k && value@ == v,
            Err(m) => r matches Err(e) && e@ == m,
        },
{
    let n = raw.unicode_len();
    let mut i: usize = 0;
    while i < n
        invariant
            n == raw@.len(),
            0 <= i <= n,
            forall|j: int| 0 <= j < i ==> raw@[j] != '=',
        decreases n - i,
    {
        if raw.get_char(i) == '=' {
            proof {
                let s = raw@;
                assert(exists|x: int| 0 <= x < s.len() && s[x] == '=');
                let c = choose|x: int| 0 <= x < s.len() && s[x] == '=' && forall|j: int| 0 <= j < x ==> s[j] != '=';
                assert(s[i as int] == '=' && forall|j: int| 0 <= j < i ==> s[j] != '=');
                assert(c == i) by {
                    if c < i {
                        assert(s[c] != '=');
                    }
                    if c > i {
                        assert(s[i as int] != '=');
                    }
                }
            }
            if i == 0 {
                return Err(String::from_str("environment assignments must look like KEY=VALUE"));
            }
            let key = raw.substring_char(0, i);
            let value = raw.substring_char(i + 1, n);
            return Ok((String::from_str(key), String::from_str(value)));
        }
        i = i + 1;
    }
    Err(String::from_str("environment assignments must look like KEY=VALUE"))
}

/// The environment after setting `key` to `value`: a listed variable keeps
/// its place and takes the new value; a new one is appended.
pub open spec fn env_insert(env: Seq<(Seq<char>, Seq<char>)>, key: Seq<char>, value: Seq<char>) -> Seq<(Seq<char>, Seq<char>)> {
    if exists|i: int| 0 <= i < env.len() && env[i].0 == key {
        env.update(choose|i: int| 0 <= i < env.len() && env[i].0 == key, (key, value))
    } else {
        env.push((key, value))
    }
}

/// The text of an environment list.
pub open spec fn env_view(env: Seq<(String, String)>) -> Seq<(Seq<char>, Seq<char>)> {
    env.map_values(|p: (String, String)| (p.0@, p.1@))
}

/// No variable is listed twice.
pub open spec fn env_unique(env: Seq<(Seq<char>, Seq<char>)>) -> bool {
    forall|i: int, j: int| 0 <= i < j < env.len() ==> #[trigger] env[i].0 != #[trigger] env[j].0
}

/// Set `key` to `value` in `env`.
fn set_env(env: &mut Vec<(String, String)>, key: String, value: String)
    requires
        env_unique(env_view(old(env)@)),
    ensures
        env_view(final(env)@) == env_insert(env_view(old(env)@), key@, value@),
        env_unique(env_view(final(env)@)),
{
    let ghost e0 = env_view(env@);
    let mut i: usize = 0;
    while i < env.len()
        invariant
            e0 == env_view(env@),
            e0 == env_view(old(env)@),
            env_unique(e0),
            0 <= i <= env@.len(),
            forall|j: int| 0 <= j < i ==> e0[j].0 != key@,
        decreases env@.len() - i,
    {
        if str_eq(env[i].0.as_str(), key.as_str()) {
            proof {
                assert(e0[i as int].0 == key@);
                let c = choose|x: int| 0 <= x < e0.len() && e0[x].0 == key@;
                assert(c == i) by {
                    if c != i {
                        if c < i {
                            assert(e0[c].0 != key@);
                        } else {
                            assert(e0[i as int].0 != e0[c].0);
                        }
                    }
                }
            }
            let ghost kv = (key@, value@);
            assert(env_insert(e0, key@, value@) == e0.update(i as int, kv));
            env.set(i, (key, value));
            proof {
                assert(env_view(env@) =~= e0.update(i as int, kv));
                assert forall|a: int, b: int| 0 <= a < b < env_view(env@).len() implies #[trigger] env_view(env@)[a].0
                    != #[trigger] env_view(env@)[b].0 by {
                    assert(e0[a].0 != e0[b].0);
                }
            }
            return;
        }
        i = i + 1;
    }
    env.push((key, value));
    proof {
        assert(env_view(env@) =~= e0.push((key@, value@)));
    }
}

/// `member-create` options: `--cwd DIR`, `--env KEY=VALUE` (repeatable),
/// `--parent ID` and `--purpose TEXT`.
pub open spec fn member_options(
    pairs: Seq<OptionText>,
    cwd: Option<Seq<char>>,
    env: Seq<(Seq<char>, Seq<char>)>,
    parent: Option<Seq<char>>,
    purpose: Option<Seq<char>>,
) -> Result<(Option<Seq<char>>, Seq<(Seq<char>, Seq<char>)>, Option<Seq<char>>, Option<Seq<char>>), Seq<char>>
    decreases pairs.len(),
{
    if pairs.len() == 0 {
        Ok((cwd, env, parent, purpose))
    } else {
        let (name, value) = pairs[0];
        let rest = pairs.drop_first();
        if name == "--cwd"@ {
            match value {
                Some(v) => member_options(rest, Some(v), env, parent, purpose),
                None => Err(missing_value(name)),
            }
        } else if name == "--env"@ {
            match value {
                Some(v) => match env_assignment(v) {
                    Ok((k, x)) => member_options(rest, cwd, env_insert(env, k, x), parent, purpose),
                    Err(m) => Err(m),
                },
                None => Err(missing_value(name)),
            }
        } else if name == "--parent"@ {
            match value {
                Some(v) => member_options(rest, cwd, env, Some(v), purpose),
                None => Err(missing_value(name)),
            }
        } else if name == "--purpose"@ {
            match value {
                Some(v) => member_options(rest, cwd, env, parent, Some(v)),
                None => Err(missing_value(name)),
            }
        } else {
            Err(unknown_option(name))
        }
    }
}

/// What `parse_member_create` returns for `args`.
pub open spec fn member_create_outcome(args: Seq<String>, r: Result<CollectionCreateMemberParams, String>) -> bool {
    &&& !leading_id(args) ==> (r matches Err(e) && e@ == "missing collection_id"@)
    &&& leading_id(args) ==> match after_walk(
        member_options(option_pairs(args, 1).0, None, Seq::empty(), None, None),
        option_pairs(args, 1).1,
    ) {
        Ok((cwd, env, parent, purpose)) => r matches Ok(p) && p.collection_id@ == args[0]@
            && opt_view(p.cwd) == cwd && env_view(p.env@) == env && opt_view(p.delegation_parent_id)
            == parent && opt_view(p.purpose) == purpose,
        Err(m) => r matches Err(e) && e@ == m,
    }
    &&& r matches Ok(p) ==> env_unique(env_view(p.env@))
}

/// `member-create <collection_id> [--cwd DIR] [--env KEY=VALUE]... [--parent ID] [--purpose TEXT]`.
pub fn parse_member_create(args: &[String]) -> (r: Result<CollectionCreateMemberParams, String>)
    ensures
        member_create_outcome(args@, r),
{
    if !has_leading_id(args) {
        return Err(String::from_str("missing collection_id"));
    }
    let collection_id = args[0].clone();
    let (pairs, walk_error) = split_options(args, 1);
    let ghost all = option_pairs(args@, 1).0;
    let mut cwd: Option<String> = None;
    let mut env: Vec<(String, String)> = Vec::new();
    let mut delegation_parent_id: Option<String> = None;
    let mut purpose: Option<String> = None;
    let mut j: usize = 0;
    assert(all.skip(0) =~= all);
    assert(env_view(env@) =~= Seq::<(Seq<char>, Seq<char>)>::empty());
    while j < pairs.len()
        invariant
            all == pairs@.map_values(|p: (String, Option<String>)| pair_view(p)),
            all == option_pairs(args@, 1).0,
            leading_id(args@),
            0 <= j <= pairs@.len(),
            env_unique(env_view(env@)),
            member_options(all, None, Seq::empty(), None, None) == member_options(
                all.skip(j as int),
                opt_view(cwd),
                env_view(env@),
                opt_view(delegation_parent_id),
                opt_view(purpose),
            ),
        decreases pairs@.len() - j,
    {
        let name = pairs[j].0.as_str();
        let value = match &pairs[j].1 {
            Some(v) => Some(v),
            None => None,
        };
        proof {
            assert(all.skip(j as int)[0] == pair_view(pairs@[j as int]));
            assert(all.skip(j as int).drop_first() =~= all.skip(j + 1));
        }
        if str_eq(name, "--cwd") {
            match required_value(name, value) {
                Ok(v) => cwd = Some(v),
                Err(e) => return Err(e),
            }
        } else if str_eq(name, "--env") {
            let raw = match required_value(name, value) {
                Ok(v) => v,
                Err(e) => return Err(e),
            };
            match parse_env_assignment(raw.as_str()) {
                Ok((key, x)) => set_env(&mut env, key, x),
                Err(e) => return Err(e),
            }
        } else if str_eq(name, "--parent") {
            match required_value(name, value) {
                Ok(v) => delegation_parent_id = Some(v),
                Err(e) => return Err(e),
            }
        } else if str_eq(name, "--purpose") {
            match required_value(name, value) {
                Ok(v) => purpose = Some(v),
                Err(e) => return Err(e),
            }
        } else {
            return Err(concat("unknown option: ", name));
        }
        j = j + 1;
    }
    match walk_error {
        Some(e) => Err(e),
        None => Ok(CollectionCreateMemberParams { collection_id, cwd, env, delegation_parent_id, purpose }),
    }
}

// ------------------------------------------------------- create / promote

/// Whether `v` is one of the texts listed in `finite`.
pub open spec fn listed(finite: Seq<String>, v: Seq<char>) -> bool {
    exists|i: int| 0 <= i < finite.len() && #[trigger] finite[i]@ == v
}

/// Whether `v` is one of `finite`.
fn is_listed(finite: &[String], v: &str) -> (r: bool)
    ensures
        r == listed(finite@, v@),
{
    let mut i: usize = 0;
    while i < finite.len()
        invariant
            0 <= i <= finite@.len(),
            forall|j: int| 0 <= j < i ==> finite@[j]@ != v@,
        decreases finite@.len() - i,
    {
        if str_eq(finite[i].as_str(), v) {
            return true;
        }
        i = i + 1;
    }
    false
}

/// The options shared by `create` and `promote`: `--target-pane ID`,
/// `--direction right|down`, `--ratio R` (one of the finite numbers
/// `finite`), `--focus` and `--no-focus`, and for `create` also
/// `--label TEXT`.
pub open spec fn placement_options(
    pairs: Seq<OptionText>,
    finite: Seq<String>,
    with_label: bool,
    target: Option<Seq<char>>,
    direction: Option<SplitDirection>,
    ratio: Option<Seq<char>>,
    label: Option<Seq<char>>,
    focus: bool,
) -> Result<(Option<Seq<char>>, Option<SplitDirection>, Option<Seq<char>>, Option<Seq<char>>, bool), Seq<char>>
    decreases pairs.len(),
{
    if pairs.len() == 0 {
        Ok((target, direction, ratio, label, focus))
    } else {
        let (name, value) = pairs[0];
        let rest = pairs.drop_first();
        if name == "--target-pane"@ {
            match value {
                Some(v) => placement_options(rest, finite, with_label, Some(v), direction, ratio, label, focus),
                None => Err(missing_value(name)),
            }
        } else if name == "--direction"@ {
            match value {
                Some(v) => match direction_spec(v) {
                    Ok(d) => placement_options(rest, finite, with_label, target, Some(d), ratio, label, focus),
                    Err(m) => Err(m),
                },
                None => Err(missing_value(name)),
            }
        } else if name == "--ratio"@ {
            match value {
                Some(v) => if listed(finite, v) {
                    placement_options(rest, finite, with_label, target, direction, Some(v), label, focus)
                } else {
                    Err("invalid ratio"@)
                },
                None => Err(missing_value(name)),
            }
        } else if with_label && name == "--label"@ {
            match value {
                Some(v) => placement_options(rest, finite, with_label, target, direction, ratio, Some(v), focus),
                None => Err(missing_value(name)),
            }
        } else if name == "--focus"@ {
            placement_options(rest, finite, with_label, target, direction, ratio, label, true)
        } else if name == "--no-focus"@ {
            placement_options(rest, finite, with_label, target, direction, ratio, label, false)
        } else {
            Err(unknown_option(name))
        }
    }
}

/// Handle the placement options of `args[start..]`.
fn placement_args(args: &[String], start: usize, finite: &[String], with_label: bool) -> (r: Result<
    (Option<String>, Option<SplitDirection>, Option<String>, Option<String>, bool),
    String,
>)
    requires
        start <= args@.len(),
    ensures
        match after_walk(
            placement_options(option_pairs(args@, start as nat).0, finite@, with_label, None, None, None, None, false),
            option_pairs(args@, start as nat).1,
        ) {
            Ok((t, d, ra, l, f)) => r matches Ok((t2, d2, ra2, l2, f2)) && opt_view(t2) == t && d2 == d
                && opt_view(ra2) == ra && opt_view(l2) == l && f2 == f,
            Err(m) => r matches Err(e) && e@ == m,
        },
{
    let (pairs, walk_error) = split_options(args, start);
    let ghost all = option_pairs(args@, start as nat).0;
    let mut target: Option<String> = None;
    let mut direction: Option<SplitDirection> = None;
    let mut ratio: Option<String> = None;
    let mut label: Option<String> = None;
    let mut focus = false;
    let mut j: usize = 0;
    assert(all.skip(0) =~= all);
    while j < pairs.len()
        invariant
            all == pairs@.map_values(|p: (String, Option<String>)| pair_view(p)),
            all == option_pairs(args@, start as nat).0,
            0 <= j <= pairs@.len(),
            placement_options(all, finite@, with_label, None, None, None, None, false) == placement_options(
                all.skip(j as int),
                finite@,
                with_label,
                opt_view(target),
                direction,
                opt_view(ratio),
                opt_view(label),
                focus,
            ),
        decreases pairs@.len() - j,
    {
        let name = pairs[j].0.as_str();
        let value = match &pairs[j].1 {
            Some(v) => Some(v),
            None => None,
        };
        proof {
            assert(all.skip(j as int)[0] == pair_view(pairs@[j as int]));
            assert(all.skip(j as int).drop_first() =~= all.skip(j + 1));
        }
        if str_eq(name, "--target-pane") {
            match required_value(name, value) {
                Ok(v) => target = Some(v),
                Err(e) => return Err(e),
            }
        } else if str_eq(name, "--direction") {
            let v = match required_value(name, value) {
                Ok(v) => v,
                Err(e) => return Err(e),
            };
            match parse_direction(v.as_str()) {
                Ok(d) => direction = Some(d),
                Err(e) => return Err(e),
            }
        } else if str_eq(name, "--ratio") {
            let v = match required_value(name, value) {
                Ok(v) => v,
                Err(e) => return Err(e),
            };
            if !is_listed(finite, v.as_str()) {
                return Err(String::from_str("invalid ratio"));
            }
            ratio = Some(v);
        } else if with_label && str_eq(name, "--label") {
            match required_value(name, value) {
                Ok(v) => label = Some(v),
                Err(e) => return Err(e),
            }
        } else if str_eq(name, "--focus") {
            focus = true;
        } else if str_eq(name, "--no-focus") {
            focus = false;
        } else {
            return Err(concat("unknown option: ", name));
        }
        j = j + 1;
    }
    match walk_error {
        Some(e) => Err(e),
        None => Ok((target, direction, ratio, label, focus)),
    }
}

/// What `parse_create` returns for `args`.
pub open spec fn create_outcome(args: Seq<String>, finite: Seq<String>, r: Result<CollectionCreateParams, String>) -> bool {
    match after_walk(
        placement_options(option_pairs(args, 0).0, finite, true, None, None, None, None, false),
        option_pairs(args, 0).1,
    ) {
        Ok((t, d, ra, l, f)) => match (t, d) {
            (Some(t), Some(d)) => r matches Ok(p) && p.target_pane_id@ == t && p.direction == d
                && opt_view(p.ratio) == ra && opt_view(p.label) == l && p.focus == f,
            (None, _) => r matches Err(e) && e@ == "missing --target-pane"@,
            (Some(_), None) => r matches Err(e) && e@ == "missing --direction"@,
        },
        Err(m) => r matches Err(e) && e@ == m,
    }
}

/// `create --target-pane ID --direction right|down [--ratio R] [--label TEXT] [--focus|--no-focus]`.
/// `finite` lists the texts that read as finite decimal numbers.
pub fn parse_create(args: &[String], finite: &[String]) -> (r: Result<CollectionCreateParams, String>)
    ensures
        create_outcome(args@, finite@, r),
{
    let (target, direction, ratio, label, focus) = match placement_args(args, 0, finite, true) {
        Ok(v) => v,
        Err(e) => return Err(e),
    };
    let target_pane_id = match target {
        Some(t) => t,
        None => return Err(String::from_str("missing --target-pane")),
    };
    let direction = match direction {
        Some(d) => d,
        None => return Err(String::from_str("missing --direction")),
    };
    Ok(CollectionCreateParams { target_pane_id, direction, ratio, label, focus })
}

/// What `parse_promote` returns for `args`.
pub open spec fn promote_outcome(args: Seq<String>, finite: Seq<String>, r: Result<CollectionPromoteParams, String>) -> bool {
    &&& !leading_id(args) ==> (r matches Err(e) && e@ == "missing pane_id"@)
    &&& leading_id(args) ==> match after_walk(
        placement_options(option_pairs(args, 1).0, finite, false, None, None, None, None, false),
        option_pairs(args, 1).1,
    ) {
        Ok((t, d, ra, l, f)) => match (t, d) {
            (Some(t), Some(d)) => r matches Ok(p) && p.pane_id@ == args[0]@ && p.target_pane_id@ == t
                && p.direction == d && opt_view(p.ratio) == ra && p.focus == f,
            (None, _) => r matches Err(e) && e@ == "missing --target-pane"@,
            (Some(_), None) => r matches Err(e) && e@ == "missing --direction"@,
        },
        Err(m) => r matches Err(e) && e@ == m,
    }
}

/// `promote <pane_id> --target-pane ID --direction right|down [--ratio R] [--focus|--no-focus]`.
/// `finite` lists the texts that read as finite decimal numbers.
pub fn parse_promote(args: &[String], finite: &[String]) -> (r: Result<CollectionPromoteParams, String>)
    ensures
        promote_outcome(args@, finite@, r),
{
    if !has_leading_id(args) {
        return Err(String::from_str("missing pane_id"));
    }
    let pane_id = args[0].clone();
    let (target, direction, ratio, _label, focus) = match placement_args(args, 1, finite, false) {
        Ok(v) => v,
        Err(e) => return Err(e),
    };
    let target_pane_id = match target {
        Some(t) => t,
        None => return Err(String::from_str("missing --target-pane")),
    };
    let direction = match direction {
        Some(d) => d,
        None => return Err(String::from_str("missing --direction")),
    };
    Ok(CollectionPromoteParams { pane_id, target_pane_id, direction, ratio, focus })
}

} // verus!
