//! The lifecycle summary of a collection and the advisory warnings its
//! configured limits raise.

use vstd::prelude::*;
use crate::schema::CollectionLifecycleSummary;
use crate::text::{concat, decimal, u64_to_decimal};

verus! {

/// Advisory limits on a collection's lifecycle; zero disables a limit.
#[derive(Debug, Clone, Copy, PartialEq, Eq, Structural)]
pub struct CollectionLifecyclePolicy {
    /// How many archived members are advisable.
    pub archive_count: usize,
    /// How many working or blocked members are advisable.
    pub concurrency: usize,
    /// How many days a member may stay archived.
    pub archive_age_days: u64,
}

/// The summary of a collection of `members` members, `archived` of them
/// archived, `live` with a running terminal, and `working` and `blocked`
/// agents among them.
pub fn lifecycle_summary(members: usize, archived: usize, live: usize, working: usize, blocked: usize) -> (r: CollectionLifecycleSummary)
    ensures
        r.active == (if members >= archived { members - archived } else { 0 }),
        r.archived == archived,
        r.live == live,
        r.working == working,
        r.blocked == blocked,
        r.exited == (if members >= live { members - live } else { 0 }),
{
    CollectionLifecycleSummary {
        active: members.saturating_sub(archived),
        archived,
        live,
        working,
        blocked,
        exited: members.saturating_sub(live),
    }
}

/// How long, in seconds, a member may stay archived under `days`.
pub fn archive_age_limit_secs(days: u64) -> (r: u64)
    ensures
        r == (if days * 86400 > u64::MAX { u64::MAX as int } else { days * 86400 }),
{
    if days > u64::MAX / 86400 {
        u64::MAX
    } else {
        days * 86400
    }
}

pub open spec fn busy(working: usize, blocked: usize) -> int {
    if working + blocked > usize::MAX {
        usize::MAX as int
    } else {
        working + blocked
    }
}

/// The warnings a collection raises: too many archived members, too many
/// working or blocked members, archived members older than the age limit
/// (`stale_archive` says whether any is).
pub open spec fn warnings_for(
    policy: CollectionLifecyclePolicy,
    archived: usize,
    working: usize,
    blocked: usize,
    stale_archive: bool,
) -> Seq<Seq<char>> {
    (if policy.archive_count > 0 && archived > policy.archive_count {
        seq!["archive count "@ + decimal(archived as nat) + " exceeds advisory limit "@ + decimal(policy.archive_count as nat)]
    } else {
        seq![]
    }) + (if policy.concurrency > 0 && busy(working, blocked) > policy.concurrency {
        seq!["working/blocked concurrency "@ + decimal(busy(working, blocked) as nat) + " exceeds advisory limit "@
            + decimal(policy.concurrency as nat)]
    } else {
        seq![]
    }) + (if policy.archive_age_days > 0 && stale_archive {
        seq!["archive contains members older than advisory limit of "@ + decimal(policy.archive_age_days as nat)
            + " days"@]
    } else {
        seq![]
    })
}

fn text4(a: &str, b: &str, c: &str, d: &str) -> (r: String)
    ensures
        r@ == a@ + b@ + c@ + d@,
{
    let ab = concat(a, b);
    let abc = concat(ab.as_str(), c);
    concat(abc.as_str(), d)
}

/// The advisory warnings of a collection.
pub fn advisory_warnings(
    policy: CollectionLifecyclePolicy,
    archived: usize,
    working: usize,
    blocked: usize,
    stale_archive: bool,
) -> (r: Vec<String>)
    ensures
        r@.map_values(|w: String| w@) == warnings_for(policy, archived, working, blocked, stale_archive),
{
    let mut warnings: Vec<String> = Vec::new();
    let ghost first: Seq<Seq<char>> = if policy.archive_count > 0 && archived > policy.archive_count {
        seq!["archive count "@ + decimal(archived as nat) + " exceeds advisory limit "@ + decimal(policy.archive_count as nat)]
    } else {
        seq![]
    };
    if policy.archive_count > 0 && archived > policy.archive_count {
        let count = u64_to_decimal(archived as u64);
        let limit = u64_to_decimal(policy.archive_count as u64);
        warnings.push(text4("archive count ", count.as_str(), " exceeds advisory limit ", limit.as_str()));
    }
    assert(warnings@.map_values(|w: String| w@) =~= first);
    let load = working.saturating_add(blocked);
    let ghost second: Seq<Seq<char>> = if policy.concurrency > 0 && busy(working, blocked) > policy.concurrency {
        seq!["working/blocked concurrency "@ + decimal(busy(working, blocked) as nat) + " exceeds advisory limit "@
            + decimal(policy.concurrency as nat)]
    } else {
        seq![]
    };
    if policy.concurrency > 0 && load > policy.concurrency {
        let busy_text = u64_to_decimal(load as u64);
        let limit = u64_to_decimal(policy.concurrency as u64);
        warnings.push(text4("working/blocked concurrency ", busy_text.as_str(), " exceeds advisory limit ", limit.as_str()));
    }
    assert(warnings@.map_values(|w: String| w@) =~= first + second);
    let ghost third: Seq<Seq<char>> = if policy.archive_age_days > 0 && stale_archive {
        seq!["archive contains members older than advisory limit of "@ + decimal(policy.archive_age_days as nat)
            + " days"@]
    } else {
        seq![]
    };
    if policy.archive_age_days > 0 && stale_archive {
        let days = u64_to_decimal(policy.archive_age_days);
        let head = concat("archive contains members older than advisory limit of ", days.as_str());
        warnings.push(concat(head.as_str(), " days"));
    }
    assert(warnings@.map_values(|w: String| w@) =~= first + second + third);
    warnings
}

} // verus!
