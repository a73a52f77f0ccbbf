//! Human-readable renderings of repository reports.

use vstd::prelude::*;
use crate::schema::{AgentStatus, RepositoryInfo};
use crate::text::{decimal, u64_to_decimal};

verus! {

/// The texts of `parts`, separated by `sep`.
pub open spec fn joined(parts: Seq<Seq<char>>, sep: Seq<char>) -> Seq<char>
    decreases parts.len(),
{
    if parts.len() == 0 {
        Seq::empty()
    } else if parts.len() == 1 {
        parts[0]
    } else {
        joined(parts.drop_last(), sep) + sep + parts.last()
    }
}

pub open spec fn status_text(status: AgentStatus) -> Seq<char> {
    match status {
        AgentStatus::Idle => "idle"@,
        AgentStatus::Working => "working"@,
        AgentStatus::Blocked => "blocked"@,
        AgentStatus::Done => "done"@,
        AgentStatus::Unknown => "unknown"@,
    }
}

/// The label of an agent status.
pub fn agent_status_label(status: AgentStatus) -> (r: &'static str)
    ensures
        r@ == status_text(status),
{
    match status {
        AgentStatus::Idle => "idle",
        AgentStatus::Working => "working",
        AgentStatus::Blocked => "blocked",
        AgentStatus::Done => "done",
        AgentStatus::Unknown => "unknown",
    }
}

/// One line of the repository list: identity, label, checkout count and
/// agent status, separated by tabs.
pub open spec fn repository_line(r: RepositoryInfo) -> Seq<char> {
    let n = r.checkout_workspace_ids@.len();
    r.repository_id@ + "\t"@ + r.label@ + "\t"@ + decimal(n) + " checkout"@ + (if n == 1 {
        Seq::<char>::empty()
    } else {
        "s"@
    }) + "\t"@ + status_text(r.agent_status)
}

/// The repository list: one line per repository, or a notice when there is none.
pub open spec fn repository_list_text(repositories: Seq<RepositoryInfo>) -> Seq<char> {
    if repositories.len() == 0 {
        "No repositories."@
    } else {
        joined(repositories.map_values(|r: RepositoryInfo| repository_line(r)), "\n"@)
    }
}

fn push_usize(s: &mut String, n: usize)
    ensures
        final(s)@ == old(s)@ + decimal(n as nat),
{
    let digits = u64_to_decimal(n as u64);
    s.append(digits.as_str());
}

fn repository_line_exec(r: &RepositoryInfo) -> (s: String)
    ensures
        s@ == repository_line(*r),
{
    let n = r.checkout_workspace_ids.len();
    let mut s = String::from_str(r.repository_id.as_str());
    s.append("\t");
    s.append(r.label.as_str());
    s.append("\t");
    push_usize(&mut s, n);
    s.append(" checkout");
    if n != 1 {
        s.append("s");
    }
    s.append("\t");
    s.append(agent_status_label(r.agent_status));
    assert(s@ =~= repository_line(*r));
    s
}

/// The repository list, one tab-separated line per repository.
pub fn format_repository_list(repositories: &[RepositoryInfo]) -> (r: String)
    ensures
        r@ == repository_list_text(repositories@),
{
    if repositories.len() == 0 {
        return String::from_str("No repositories.");
    }
    let ghost lines = repositories@.map_values(|r: RepositoryInfo| repository_line(r));
    let mut out = repository_line_exec(&repositories[0]);
    assert(lines.take(1).len() == 1);
    let mut i: usize = 1;
    while i < repositories.len()
        invariant
            lines == repositories@.map_values(|r: RepositoryInfo| repository_line(r)),
            1 <= i <= repositories@.len(),
            out@ == joined(lines.take(i as int), "\n"@),
        decreases repositories@.len() - i,
    {
        let line = repository_line_exec(&repositories[i]);
        out.append("\n");
        out.append(line.as_str());
        proof {
            assert(lines.take(i + 1).drop_last() =~= lines.take(i as int));
            assert(lines.take(i + 1).last() == lines[i as int]);
        }
        i = i + 1;
    }
    assert(lines.take(lines.len() as int) =~= lines);
    out
}

pub open spec fn bool_text(b: bool) -> Seq<char> {
    if b {
        "true"@
    } else {
        "false"@
    }
}

/// The details of one repository, one `name: value` line per field.
pub open spec fn repository_text(r: RepositoryInfo) -> Seq<char> {
    "id: "@ + r.repository_id@ + "\nlabel: "@ + r.label@ + "\ngit common dir: "@ + r.git_common_dir@
        + "\ncheckouts: "@ + joined(r.checkout_workspace_ids@.map_values(|w: String| w@), ", "@)
        + "\nfocused: "@ + bool_text(r.focused) + "\npanes: "@ + decimal(r.pane_count as nat)
        + "\nactive agents: "@ + decimal(r.active_agent_count as nat) + "\nagent status: "@
        + status_text(r.agent_status) + "\npreferred base: "@ + match r.preferred_base {
        Some(b) => b@,
        None => "-"@,
    }
}

fn join_strings(parts: &Vec<String>, sep: &str) -> (r: String)
    ensures
        r@ == joined(parts@.map_values(|w: String| w@), sep@),
{
    let ghost texts = parts@.map_values(|w: String| w@);
    let mut out = String::new();
    if parts.len() == 0 {
        assert(texts.len() == 0);
        return out;
    }
    out.append(parts[0].as_str());
    assert(out@ =~= texts[0]);
    let mut i: usize = 1;
    while i < parts.len()
        invariant
            texts == parts@.map_values(|w: String| w@),
            1 <= i <= parts@.len(),
            out@ == joined(texts.take(i as int), sep@),
        decreases parts@.len() - i,
    {
        out.append(sep);
        out.append(parts[i].as_str());
        proof {
            assert(texts.take(i + 1).drop_last() =~= texts.take(i as int));
            assert(texts.take(i + 1).last() == texts[i as int]);
        }
        i = i + 1;
    }
    assert(texts.take(texts.len() as int) =~= texts);
    out
}

/// The details of one repository.
pub fn format_repository(repository: &RepositoryInfo) -> (r: String)
    ensures
        r@ == repository_text(*repository),
{
    let mut s = String::from_str("id: ");
    s.append(repository.repository_id.as_str());
    s.append("\nlabel: ");
    s.append(repository.label.as_str());
    s.append("\ngit common dir: ");
    s.append(repository.git_common_dir.as_str());
    s.append("\ncheckouts: ");
    let checkouts = join_strings(&repository.checkout_workspace_ids, ", ");
    s.append(checkouts.as_str());
    s.append("\nfocused: ");
    s.append(if repository.focused {
        "true"
    } else {
        "false"
    });
    s.append("\npanes: ");
    push_usize(&mut s, repository.pane_count);
    s.append("\nactive agents: ");
    push_usize(&mut s, repository.active_agent_count);
    s.append("\nagent status: ");
    s.append(agent_status_label(repository.agent_status));
    s.append("\npreferred base: ");
    match &repository.preferred_base {
        Some(b) => s.append(b.as_str()),
        None => s.append("-"),
    }
    assert(s@ =~= repository_text(*repository));
    s
}

} // verus!
