//! The model of repairing untrusted delegation records: which record is
//! kept for each identity, which panes survive, which parents are dropped,
//! and where parent cycles are cut.

use vstd::prelude::*;
use vstd::set_lib::{lemma_len_subset, lemma_set_subset_finite};
use crate::delegation::{DelegationRecord, with_pane};
use crate::forest::{Forest, ancestor, parent_key, with_parent};
use crate::ids::PaneId;

verus! {

/// Input record `j` is the one kept for its identity: the lowest sibling
/// rank, and the earliest among equal ranks.
pub open spec fn is_kept(input: Seq<DelegationRecord>, j: int) -> bool {
    &&& 0 <= j < input.len()
    &&& forall|i: int|
        0 <= i < input.len() && #[trigger] input[i].id == input[j].id ==> input[j].sibling_rank
            < input[i].sibling_rank || (input[j].sibling_rank == input[i].sibling_rank && j <= i)
}

/// The numbers of the identities in `input`.
pub open spec fn input_ids(input: Seq<DelegationRecord>) -> Set<u64> {
    Set::new(|k: u64| exists|j: int| 0 <= j < input.len() && input[j].id.value() == k)
}

/// The record kept for identity number `k`.
pub open spec fn kept(input: Seq<DelegationRecord>, k: u64) -> DelegationRecord {
    input[choose|j: int| is_kept(input, j) && input[j].id.value() == k]
}

/// A kept record with a smaller identity carries pane `p`.
pub open spec fn pane_taken_below(input: Seq<DelegationRecord>, k: u64, p: PaneId) -> bool {
    exists|j: int| is_kept(input, j) && input[j].id.value() < k && #[trigger] input[j].pane_id == Some(p)
}

/// The kept record for `k`, turned into a tombstone without a pane when it
/// carries no pane or a smaller identity carries its pane.
pub open spec fn deduplicated(input: Seq<DelegationRecord>, k: u64) -> DelegationRecord {
    let r = kept(input, k);
    match r.pane_id {
        Some(p) => if pane_taken_below(input, k, p) {
            with_pane(r, None, true)
        } else {
            r
        },
        None => with_pane(r, None, true),
    }
}

/// `r` made a root when it names itself or a missing identity as parent.
pub open spec fn reattached(input: Seq<DelegationRecord>, r: DelegationRecord) -> DelegationRecord {
    match r.parent_id {
        Some(p) => if p == r.id || !input_ids(input).contains(p.value()) {
            with_parent(r, None, r.sibling_rank)
        } else {
            r
        },
        None => r,
    }
}

/// The forest of kept, deduplicated and reattached records.
pub open spec fn screened(input: Seq<DelegationRecord>) -> Forest {
    Map::new(|k: u64| input_ids(input).contains(k), |k: u64| reattached(input, deduplicated(input, k)))
}

/// The walk up from `s` meets at step `j` a record it met at an earlier step.
pub open spec fn revisits_at(m: Forest, s: u64, j: nat) -> bool {
    &&& ancestor(m, s, j) is Some
    &&& exists|i: nat| i < j && #[trigger] ancestor(m, s, i) == ancestor(m, s, j)
}

/// The walk up from `s` meets some record twice.
pub open spec fn revisits(m: Forest, s: u64) -> bool {
    exists|j: nat| #[trigger] revisits_at(m, s, j)
}

/// The record at which the walk up from `s` first meets a record again.
pub open spec fn first_revisit(m: Forest, s: u64) -> u64 {
    let j = choose|j: nat| revisits_at(m, s, j) && forall|j2: nat| j2 < j ==> !#[trigger] revisits_at(m, s, j2);
    ancestor(m, s, j)->0
}

/// The smallest record whose walk meets some record twice.
pub open spec fn lowest_revisiting(m: Forest) -> u64 {
    choose|s: u64| m.contains_key(s) && revisits(m, s) && forall|t: u64| m.contains_key(t) && revisits(m, t) ==> s <= t
}

/// The records that have a parent.
pub open spec fn linked(m: Forest) -> Set<u64> {
    m.dom().filter(|k: u64| m[k].parent_id is Some)
}

/// `m` with record `x` made a root (its rank kept).
pub open spec fn cut(m: Forest, x: u64) -> Forest {
    m.insert(x, with_parent(m[x], None, m[x].sibling_rank))
}

/// Cut cycles until no walk meets a record twice: each time at the record
/// where the walk from the smallest such record first meets one again.
pub open spec fn cycles_cut(m: Forest) -> Forest
    decreases linked(m).len(),
    when m.dom().finite()
{
    if exists|s: u64| m.contains_key(s) && revisits(m, s) {
        proof {
            lemma_cut_progress(m);
        }
        cycles_cut(cut(m, first_revisit(m, lowest_revisiting(m))))
    } else {
        m
    }
}

/// The forest `repair_records` builds from `input`, before its sibling
/// ranks are renumbered.
pub open spec fn repaired(input: Seq<DelegationRecord>) -> Forest {
    cycles_cut(screened(input))
}

/// Every step of a walk before a record it reaches is a record with a parent.
pub proof fn lemma_ancestor_prefix(m: Forest, s: u64, j: nat, i: nat)
    requires
        ancestor(m, s, j) is Some,
        i < j,
    ensures
        ancestor(m, s, i) is Some,
        m.contains_key(ancestor(m, s, i)->0),
        parent_key(m[ancestor(m, s, i)->0]) == ancestor(m, s, i + 1),
        ancestor(m, s, i + 1) is Some,
    decreases j - i,
{
    if i + 1 < j {
        lemma_ancestor_prefix(m, s, j, i + 1);
    }
    assert(ancestor(m, s, i + 1) == match ancestor(m, s, i) {
        Some(a) => if m.contains_key(a) { parent_key(m[a]) } else { None },
        None => None,
    });
}

/// A property of naturals that holds somewhere holds at a least place.
pub proof fn lemma_least_step(m: Forest, s: u64, j: nat)
    requires
        revisits_at(m, s, j),
    ensures
        exists|j0: nat| revisits_at(m, s, j0) && forall|j2: nat| j2 < j0 ==> !#[trigger] revisits_at(m, s, j2),
    decreases j,
{
    if exists|j2: nat| j2 < j && #[trigger] revisits_at(m, s, j2) {
        let j2 = choose|j2: nat| j2 < j && #[trigger] revisits_at(m, s, j2);
        lemma_least_step(m, s, j2);
    }
}

/// A nonempty finite set of numbers has a least member.
pub proof fn lemma_least_key(keys: Set<u64>)
    requires
        keys.finite(),
        keys.len() > 0,
    ensures
        exists|s: u64| keys.contains(s) && forall|t: u64| keys.contains(t) ==> s <= t,
    decreases keys.len(),
{
    let a = keys.choose();
    assert(keys.contains(a));
    let rest = keys.remove(a);
    if rest.len() == 0 {
        assert forall|t: u64| keys.contains(t) implies a <= t by {
            if t != a {
                assert(rest.contains(t));
            }
        }
    } else {
        lemma_least_key(rest);
        let b = choose|s: u64| rest.contains(s) && forall|t: u64| rest.contains(t) ==> s <= t;
        if a < b {
            assert forall|t: u64| keys.contains(t) implies a <= t by {
                if t != a {
                    assert(rest.contains(t));
                }
            }
        } else {
            assert forall|t: u64| keys.contains(t) implies b <= t by {
                if t != a {
                    assert(rest.contains(t));
                }
            }
        }
    }
}

/// Where some walk meets a record twice, the smallest such record exists.
pub proof fn lemma_lowest_revisiting(m: Forest)
    requires
        m.dom().finite(),
        exists|s: u64| m.contains_key(s) && revisits(m, s),
    ensures
        m.contains_key(lowest_revisiting(m)),
        revisits(m, lowest_revisiting(m)),
        forall|t: u64| m.contains_key(t) && revisits(m, t) ==> lowest_revisiting(m) <= t,
{
    let starts = m.dom().filter(|t: u64| revisits(m, t));
    let s0 = choose|s: u64| m.contains_key(s) && revisits(m, s);
    assert(starts.contains(s0));
    lemma_set_subset_finite(m.dom(), starts);
    lemma_least_key(starts);
    let b = choose|s: u64| starts.contains(s) && forall|t: u64| starts.contains(t) ==> s <= t;
    assert(m.contains_key(b) && revisits(m, b) && forall|t: u64| m.contains_key(t) && revisits(m, t) ==> b <= t) by {
        assert forall|t: u64| m.contains_key(t) && revisits(m, t) implies b <= t by {
            assert(starts.contains(t));
        }
    }
}

/// The first meeting point of a revisiting walk is a record with a parent.
pub proof fn lemma_first_revisit_linked(m: Forest, s: u64)
    requires
        revisits(m, s),
    ensures
        linked(m).contains(first_revisit(m, s)),
{
    let j1 = choose|j: nat| #[trigger] revisits_at(m, s, j);
    lemma_least_step(m, s, j1);
    let j = choose|j: nat| revisits_at(m, s, j) && forall|j2: nat| j2 < j ==> !#[trigger] revisits_at(m, s, j2);
    let x = first_revisit(m, s);
    let i = choose|i: nat| i < j && #[trigger] ancestor(m, s, i) == ancestor(m, s, j);
    lemma_ancestor_prefix(m, s, j, i);
    assert(ancestor(m, s, i) == Some(x));
    assert(parent_key(m[x]) is Some);
}

/// Cutting a record with a parent leaves one record fewer with a parent.
pub proof fn lemma_cut_linked(m: Forest, x: u64)
    requires
        m.dom().finite(),
        linked(m).contains(x),
    ensures
        cut(m, x).dom() == m.dom(),
        linked(cut(m, x)) == linked(m).remove(x),
        linked(cut(m, x)).len() < linked(m).len(),
{
    let c = cut(m, x);
    assert(c.dom() =~= m.dom());
    assert(linked(c) =~= linked(m).remove(x));
    lemma_set_subset_finite(m.dom(), linked(m));
}

/// Cutting at the first meeting point of the smallest revisiting walk makes progress.
pub proof fn lemma_cut_progress(m: Forest)
    requires
        m.dom().finite(),
        exists|s: u64| m.contains_key(s) && revisits(m, s),
    ensures
        linked(cut(m, first_revisit(m, lowest_revisiting(m)))).len() < linked(m).len(),
{
    lemma_lowest_revisiting(m);
    lemma_first_revisit_linked(m, lowest_revisiting(m));
    lemma_cut_linked(m, first_revisit(m, lowest_revisiting(m)));
}

/// Cutting cycles keeps every record.
pub proof fn lemma_cycles_cut_dom(m: Forest)
    requires
        m.dom().finite(),
    ensures
        cycles_cut(m).dom() == m.dom(),
    decreases linked(m).len(),
{
    if exists|s: u64| m.contains_key(s) && revisits(m, s) {
        lemma_lowest_revisiting(m);
        lemma_first_revisit_linked(m, lowest_revisiting(m));
        let x = first_revisit(m, lowest_revisiting(m));
        lemma_cut_linked(m, x);
        lemma_cycles_cut_dom(cut(m, x));
    }
}

/// The repaired forest holds exactly the identities of the input.
pub proof fn lemma_repaired_dom(input: Seq<DelegationRecord>)
    requires
        screened(input).dom().finite(),
    ensures
        repaired(input).dom() == input_ids(input),
{
    assert(screened(input).dom() =~= input_ids(input));
    lemma_cycles_cut_dom(screened(input));
}

} // verus!
