//! The mathematical model of the delegation forest: records keyed by the
//! number of their identity, parent links, sibling order, and the facts about
//! them that the delegation operations rely on.

use vstd::prelude::*;
use vstd::set_lib::{lemma_len_subset, lemma_set_subset_finite};
use vstd::relations::{total_ordering, is_maximal};
use crate::ids::{DelegationId, PaneId, lemma_delegation_id_value_injective};
use crate::delegation::{DelegationRecord, same_but_rank};

verus! {

/// Records keyed by the number of their identity.
pub type Forest = Map<u64, DelegationRecord>;

/// The key of the record's parent, if it has one.
pub open spec fn parent_key(r: DelegationRecord) -> Option<u64> {
    match r.parent_id {
        Some(p) => Some(p.value()),
        None => None,
    }
}

/// Number of parent links from `k` up to a root, following at most `fuel`
/// links; `None` when `k` is absent, a link dangles, or the fuel runs out.
pub open spec fn chain_len(m: Forest, k: u64, fuel: nat) -> Option<nat>
    decreases fuel,
{
    if !m.contains_key(k) {
        None
    } else {
        match m[k].parent_id {
            None => Some(0),
            Some(p) => if fuel == 0 {
                None
            } else {
                match chain_len(m, p.value(), (fuel - 1) as nat) {
                    Some(d) => Some(d + 1),
                    None => None,
                }
            },
        }
    }
}

/// Whether walking up from `k` (at most `fuel` links) meets `target`.
pub open spec fn reaches(m: Forest, k: u64, target: u64, fuel: nat) -> bool
    decreases fuel,
{
    if k == target {
        true
    } else if !m.contains_key(k) {
        false
    } else {
        match m[k].parent_id {
            None => false,
            Some(p) => fuel > 0 && reaches(m, p.value(), target, (fuel - 1) as nat),
        }
    }
}

/// The root reached by walking up from `k`, following at most `fuel` links.
pub open spec fn root_key(m: Forest, k: u64, fuel: nat) -> u64
    decreases fuel,
{
    if !m.contains_key(k) {
        k
    } else {
        match m[k].parent_id {
            None => k,
            Some(p) => if fuel == 0 {
                k
            } else {
                root_key(m, p.value(), (fuel - 1) as nat)
            },
        }
    }
}

/// Every record's parent chain ends at a root.
pub open spec fn acyclic(m: Forest) -> bool {
    forall|k: u64| m.contains_key(k) ==> (#[trigger] chain_len(m, k, m.dom().len())) is Some
}

pub open spec fn ids_consistent(m: Forest) -> bool {
    forall|k: u64| #[trigger] m.contains_key(k) ==> m[k].id.value() == k && k != 0
}

/// No pane carries two delegations.
pub open spec fn panes_unique(m: Forest) -> bool {
    forall|a: u64, b: u64|
        #![trigger m[a].pane_id, m[b].pane_id]
        m.contains_key(a) && m.contains_key(b) && a != b && m[a].pane_id is Some ==> m[a].pane_id
            != m[b].pane_id
}

/// Every parent link names a record of the forest.
pub open spec fn parents_present(m: Forest) -> bool {
    forall|k: u64|
        #[trigger] m.contains_key(k) ==> match m[k].parent_id {
            Some(p) => m.contains_key(p.value()),
            None => true,
        }
}

/// Keys of the records whose parent is `parent`.
pub open spec fn group(m: Forest, parent: Option<DelegationId>) -> Set<u64> {
    m.dom().filter(|k: u64| m[k].parent_id == parent)
}

/// Within every sibling group the ranks are exactly `0..n`.
pub open spec fn ranks_normalized(m: Forest) -> bool {
    &&& forall|k: u64| #[trigger]
        m.contains_key(k) ==> m[k].sibling_rank < group(m, m[k].parent_id).len()
    &&& forall|a: u64, b: u64|
        #![trigger m[a].sibling_rank, m[b].sibling_rank]
        m.contains_key(a) && m.contains_key(b) && a != b && m[a].parent_id == m[b].parent_id
            ==> m[a].sibling_rank != m[b].sibling_rank
}

/// The invariant of every delegation forest this library hands out.
pub open spec fn well_formed(m: Forest) -> bool {
    &&& m.dom().finite()
    &&& ids_consistent(m)
    &&& panes_unique(m)
    &&& parents_present(m)
    &&& acyclic(m)
    &&& ranks_normalized(m)
}

/// Sibling order: by rank, ties broken by the smaller identity.
pub open spec fn precedes(m: Forest, a: u64, b: u64) -> bool {
    m[a].sibling_rank < m[b].sibling_rank || (m[a].sibling_rank == m[b].sibling_rank && a < b)
}

/// `s` lists the children of `parent`, each once, in sibling order.
pub open spec fn is_sibling_order(m: Forest, parent: Option<DelegationId>, s: Seq<DelegationId>) -> bool {
    &&& forall|i: int|
        #![trigger s[i]]
        0 <= i < s.len() ==> m.contains_key(s[i].value()) && m[s[i].value()].parent_id == parent
            && m[s[i].value()].id == s[i]
    &&& forall|k: u64|
        #![trigger m[k].parent_id]
        m.contains_key(k) && m[k].parent_id == parent ==> exists|i: int|
            0 <= i < s.len() && s[i].value() == k
    &&& forall|i: int, j: int|
        #![trigger s[i], s[j]]
        0 <= i < j < s.len() ==> precedes(m, s[i].value(), s[j].value())
}

/// The children of `parent` in sibling order.
pub open spec fn siblings(m: Forest, parent: Option<DelegationId>) -> Seq<DelegationId> {
    choose|s: Seq<DelegationId>| is_sibling_order(m, parent, s)
}

/// Every identity of `cs`, each followed by all of its descendants, depth
/// first in sibling order; `fuel` bounds the depth.
pub open spec fn subtree_list(m: Forest, cs: Seq<DelegationId>, fuel: nat) -> Seq<DelegationId>
    decreases fuel, cs.len(),
{
    if cs.len() == 0 || fuel == 0 {
        Seq::empty()
    } else {
        seq![cs[0]] + subtree_list(m, siblings(m, Some(cs[0])), (fuel - 1) as nat) + subtree_list(
            m,
            cs.drop_first(),
            fuel,
        )
    }
}

/// All descendants of `id`, depth first in sibling order.
pub open spec fn descendants_of(m: Forest, id: DelegationId) -> Seq<DelegationId> {
    subtree_list(m, siblings(m, Some(id)), m.dom().len())
}

/// All records: each root in sibling order, followed by its descendants.
pub open spec fn preorder_of(m: Forest) -> Seq<DelegationId> {
    subtree_list(m, siblings(m, None), m.dom().len())
}

/// The record carrying `pane`, if any.
pub open spec fn carries_pane(m: Forest, k: u64, pane: PaneId) -> bool {
    m.contains_key(k) && m[k].pane_id == Some(pane)
}

// ------------------------------------------------------------------ lemmas

/// With enough fuel the chain length does not depend on the fuel.
pub proof fn lemma_chain_len_fuel(m: Forest, k: u64, f: nat, g: nat)
    requires
        chain_len(m, k, f) is Some,
        g >= chain_len(m, k, f)->0,
    ensures
        chain_len(m, k, g) == chain_len(m, k, f),
    decreases f,
{
    if m.contains_key(k) {
        if let Some(p) = m[k].parent_id {
            lemma_chain_len_fuel(m, p.value(), (f - 1) as nat, (g - 1) as nat);
        }
    }
}

/// A chain is never longer than the fuel spent on it.
pub proof fn lemma_chain_len_le_fuel(m: Forest, k: u64, f: nat)
    requires
        chain_len(m, k, f) is Some,
    ensures
        chain_len(m, k, f)->0 <= f,
    decreases f,
{
    if m.contains_key(k) {
        if let Some(p) = m[k].parent_id {
            lemma_chain_len_le_fuel(m, p.value(), (f - 1) as nat);
        }
    }
}

/// The keys met walking up from `k`, `k` first.
pub open spec fn chain_nodes(m: Forest, k: u64, fuel: nat) -> Seq<u64>
    decreases fuel,
{
    if !m.contains_key(k) {
        Seq::empty()
    } else {
        match m[k].parent_id {
            None => seq![k],
            Some(p) => if fuel == 0 {
                seq![k]
            } else {
                seq![k] + chain_nodes(m, p.value(), (fuel - 1) as nat)
            },
        }
    }
}

proof fn lemma_chain_nodes(m: Forest, k: u64, f: nat)
    requires
        chain_len(m, k, f) is Some,
    ensures
        chain_nodes(m, k, f).len() == chain_len(m, k, f)->0 + 1,
        forall|i: int|
            0 <= i < chain_nodes(m, k, f).len() ==> m.contains_key(
                #[trigger] chain_nodes(m, k, f)[i],
            ) && chain_len(m, chain_nodes(m, k, f)[i], (f - i) as nat) == Some(
                (chain_len(m, k, f)->0 - i) as nat,
            ) && i <= f,
    decreases f,
{
    if let Some(p) = m[k].parent_id {
        lemma_chain_nodes(m, p.value(), (f - 1) as nat);
        let rest = chain_nodes(m, p.value(), (f - 1) as nat);
        assert forall|i: int| 0 < i < chain_nodes(m, k, f).len() implies chain_nodes(m, k, f)[i]
            == rest[i - 1] by {}
    }
}

/// A chain visits every key at most once, so it is shorter than the forest.
pub proof fn lemma_chain_len_bound(m: Forest, k: u64, f: nat)
    requires
        m.dom().finite(),
        chain_len(m, k, f) is Some,
    ensures
        chain_len(m, k, f)->0 < m.dom().len(),
{
    lemma_chain_nodes(m, k, f);
    lemma_chain_len_le_fuel(m, k, f);
    let s = chain_nodes(m, k, f);
    let d = chain_len(m, k, f)->0;
    assert(s.no_duplicates()) by {
        assert forall|i: int, j: int| 0 <= i < s.len() && 0 <= j < s.len() && i != j implies s[i]
            != s[j] by {
            if s[i] == s[j] {
                let fi = (f - i) as nat;
                let fj = (f - j) as nat;
                lemma_chain_len_fuel(m, s[i], fi, f);
                lemma_chain_len_fuel(m, s[j], fj, f);
            }
        }
    }
    s.unique_seq_to_set();
    assert(s.to_set().subset_of(m.dom()));
    lemma_len_subset(s.to_set(), m.dom());
}

/// In an acyclic forest every record has a depth below the record count.
pub proof fn lemma_depth(m: Forest, k: u64)
    requires
        well_formed(m),
        m.contains_key(k),
    ensures
        chain_len(m, k, m.dom().len()) is Some,
        chain_len(m, k, m.dom().len())->0 < m.dom().len(),
{
    assert(chain_len(m, k, m.dom().len()) is Some);
    lemma_chain_len_bound(m, k, m.dom().len());
}

/// A child is one level deeper than its parent.
pub proof fn lemma_child_depth(m: Forest, c: u64)
    requires
        well_formed(m),
        m.contains_key(c),
        m[c].parent_id is Some,
    ensures
        m.contains_key(m[c].parent_id->0.value()),
        chain_len(m, c, m.dom().len())->0 == chain_len(
            m,
            m[c].parent_id->0.value(),
            m.dom().len(),
        )->0 + 1,
{
    let n = m.dom().len();
    let p = m[c].parent_id->0.value();
    lemma_depth(m, c);
    lemma_depth(m, p);
    lemma_chain_len_fuel(m, p, n, (n - 1) as nat);
}

/// Reaching is monotone in the fuel.
pub proof fn lemma_reaches_fuel(m: Forest, k: u64, t: u64, f: nat, g: nat)
    requires
        reaches(m, k, t, f),
        g >= f,
    ensures
        reaches(m, k, t, g),
    decreases f,
{
    if k != t {
        let p = m[k].parent_id->0;
        lemma_reaches_fuel(m, p.value(), t, (f - 1) as nat, (g - 1) as nat);
    }
}

/// Beyond the length of the chain, more fuel does not change reachability.
pub proof fn lemma_reaches_chain(m: Forest, k: u64, t: u64, f: nat, g: nat)
    requires
        chain_len(m, k, f) is Some,
        g >= chain_len(m, k, f)->0,
        f >= chain_len(m, k, f)->0,
    ensures
        reaches(m, k, t, g) == reaches(m, k, t, f),
    decreases f,
{
    if k != t && m.contains_key(k) {
        if let Some(p) = m[k].parent_id {
            lemma_reaches_chain(m, p.value(), t, (f - 1) as nat, (g - 1) as nat);
        }
    }
}

/// `s` is strictly increasing in sibling order and names records by their identities.
pub open spec fn sorted_members(m: Forest, s: Seq<DelegationId>) -> bool {
    &&& forall|i: int|
        #![trigger s[i]]
        0 <= i < s.len() ==> m.contains_key(s[i].value()) && m[s[i].value()].id == s[i]
    &&& forall|i: int, j: int|
        #![trigger s[i], s[j]]
        0 <= i < j < s.len() ==> precedes(m, s[i].value(), s[j].value())
}

pub open spec fn names_key(s: Seq<DelegationId>, k: u64) -> bool {
    exists|i: int| 0 <= i < s.len() && s[i].value() == k
}

proof fn lemma_sorted_members_unique(m: Forest, s1: Seq<DelegationId>, s2: Seq<DelegationId>)
    requires
        sorted_members(m, s1),
        sorted_members(m, s2),
        forall|k: u64| names_key(s1, k) == names_key(s2, k),
    ensures
        s1 == s2,
    decreases s1.len(),
{
    if s1.len() == 0 {
        if s2.len() > 0 {
            assert(names_key(s2, s2[0].value()));
        }
        assert(s1 =~= s2);
    } else {
        assert(names_key(s1, s1[0].value()));
        let j = choose|j: int| 0 <= j < s2.len() && s2[j].value() == s1[0].value();
        assert(names_key(s2, s2[0].value()));
        let i = choose|i: int| 0 <= i < s1.len() && s1[i].value() == s2[0].value();
        if j > 0 && i > 0 {
            assert(precedes(m, s2[0].value(), s2[j].value()));
            assert(precedes(m, s1[0].value(), s1[i].value()));
        }
        assert(s1[0].value() == s2[0].value());
        assert(s1[0] == s2[0]);
        let t1 = s1.drop_first();
        let t2 = s2.drop_first();
        assert forall|k: u64| names_key(t1, k) == names_key(t2, k) by {
            if names_key(t1, k) {
                let a = choose|a: int| 0 <= a < t1.len() && t1[a].value() == k;
                assert(s1[a + 1].value() == k);
                assert(precedes(m, s1[0].value(), s1[a + 1].value()));
                assert(names_key(s1, k));
                let b = choose|b: int| 0 <= b < s2.len() && s2[b].value() == k;
                if b == 0 {
                    assert(false);
                }
                assert(t2[b - 1].value() == k);
            }
            if names_key(t2, k) {
                let a = choose|a: int| 0 <= a < t2.len() && t2[a].value() == k;
                assert(s2[a + 1].value() == k);
                assert(precedes(m, s2[0].value(), s2[a + 1].value()));
                assert(names_key(s2, k));
                let b = choose|b: int| 0 <= b < s1.len() && s1[b].value() == k;
                if b == 0 {
                    assert(false);
                }
                assert(t1[b - 1].value() == k);
            }
        }
        assert(sorted_members(m, t1)) by {
            assert forall|a: int, b: int| 0 <= a < b < t1.len() implies precedes(
                m,
                t1[a].value(),
                t1[b].value(),
            ) by {
                assert(t1[a] == s1[a + 1] && t1[b] == s1[b + 1]);
            }
        }
        assert(sorted_members(m, t2)) by {
            assert forall|a: int, b: int| 0 <= a < b < t2.len() implies precedes(
                m,
                t2[a].value(),
                t2[b].value(),
            ) by {
                assert(t2[a] == s2[a + 1] && t2[b] == s2[b + 1]);
            }
        }
        lemma_sorted_members_unique(m, t1, t2);
        assert(s1 =~= seq![s1[0]] + t1);
        assert(s2 =~= seq![s2[0]] + t2);
    }
}

/// A sibling order, once one exists, is the sibling order.
pub proof fn lemma_siblings_eq(m: Forest, p: Option<DelegationId>, s: Seq<DelegationId>)
    requires
        is_sibling_order(m, p, s),
    ensures
        siblings(m, p) == s,
        is_sibling_order(m, p, siblings(m, p)),
{
    let t = siblings(m, p);
    assert(is_sibling_order(m, p, t));
    assert(sorted_members(m, s));
    assert(sorted_members(m, t));
    assert forall|k: u64| names_key(s, k) == names_key(t, k) by {
        if names_key(s, k) {
            let i = choose|i: int| 0 <= i < s.len() && s[i].value() == k;
            assert(m.contains_key(k) && m[k].parent_id == p);
        }
        if names_key(t, k) {
            let i = choose|i: int| 0 <= i < t.len() && t[i].value() == k;
            assert(m.contains_key(k) && m[k].parent_id == p);
        }
    }
    lemma_sorted_members_unique(m, s, t);
}

proof fn lemma_increasing_ranks(r: Seq<nat>, n: nat)
    requires
        r.len() == n,
        forall|i: int| 0 <= i < n ==> #[trigger] r[i] < n,
        forall|i: int, j: int| 0 <= i < j < n ==> #[trigger] r[i] < #[trigger] r[j],
    ensures
        forall|i: int| 0 <= i < n ==> #[trigger] r[i] == i,
{
    assert forall|i: int| 0 <= i < n implies #[trigger] r[i] >= i by {
        lemma_increasing_lower(r, n, i);
    }
    assert forall|i: int| 0 <= i < n implies #[trigger] r[i] <= i by {
        lemma_increasing_upper(r, n, i);
    }
}

proof fn lemma_increasing_lower(r: Seq<nat>, n: nat, i: int)
    requires
        r.len() == n,
        0 <= i < n,
        forall|a: int, b: int| 0 <= a < b < n ==> #[trigger] r[a] < #[trigger] r[b],
    ensures
        r[i] >= i,
    decreases i,
{
    if i > 0 {
        lemma_increasing_lower(r, n, i - 1);
        assert(r[i - 1] < r[i]);
    }
}

proof fn lemma_increasing_upper(r: Seq<nat>, n: nat, i: int)
    requires
        r.len() == n,
        0 <= i < n,
        forall|a: int| 0 <= a < n ==> #[trigger] r[a] < n,
        forall|a: int, b: int| 0 <= a < b < n ==> #[trigger] r[a] < #[trigger] r[b],
    ensures
        r[i] <= i,
    decreases n - i,
{
    if i < n - 1 {
        lemma_increasing_upper(r, n, i + 1);
        assert(r[i] < r[i + 1]);
    }
}

/// In a normalized forest the rank of a child is its position among its siblings.
pub proof fn lemma_rank_is_position(m: Forest, p: Option<DelegationId>, s: Seq<DelegationId>)
    requires
        m.dom().finite(),
        ranks_normalized(m),
        is_sibling_order(m, p, s),
    ensures
        s.len() == group(m, p).len(),
        forall|i: int| 0 <= i < s.len() ==> m[#[trigger] s[i].value()].sibling_rank == i,
{
    let keys = s.map_values(|d: DelegationId| d.value());
    assert forall|i: int, j: int| 0 <= i < j < keys.len() implies keys[i] != keys[j] by {
        assert(precedes(m, s[i].value(), s[j].value()));
    }
    assert(keys.no_duplicates());
    keys.unique_seq_to_set();
    assert(keys.to_set() =~= group(m, p)) by {
        assert forall|k: u64| keys.to_set().contains(k) implies group(m, p).contains(k) by {
            let i = choose|i: int| 0 <= i < keys.len() && keys[i] == k;
            assert(s[i].value() == k);
        }
        assert forall|k: u64| group(m, p).contains(k) implies keys.to_set().contains(k) by {
            assert(m[k].parent_id == p);
            let i = choose|i: int| 0 <= i < s.len() && s[i].value() == k;
            assert(keys[i] == k);
        }
    }
    let n = s.len();
    let r = s.map_values(|d: DelegationId| m[d.value()].sibling_rank as nat);
    assert forall|i: int| 0 <= i < n implies #[trigger] r[i] < n by {
        assert(m.contains_key(s[i].value()));
        assert(m[s[i].value()].parent_id == p);
    }
    assert forall|i: int, j: int| 0 <= i < j < n implies #[trigger] r[i] < #[trigger] r[j] by {
        assert(precedes(m, s[i].value(), s[j].value()));
        assert(s[i].value() != s[j].value());
    }
    lemma_increasing_ranks(r, n);
    assert forall|i: int| 0 <= i < s.len() implies m[#[trigger] s[i].value()].sibling_rank == i by {
        assert(r[i] == i);
    }
}

/// `a` and `b` hold the same records with the same parent links.
pub open spec fn same_links(a: Forest, b: Forest) -> bool {
    &&& a.dom() == b.dom()
    &&& forall|k: u64| #[trigger] a.contains_key(k) ==> a[k].parent_id == b[k].parent_id && a[k].id == b[k].id
}

pub proof fn lemma_same_links_chain(a: Forest, b: Forest, k: u64, f: nat)
    requires
        same_links(a, b),
    ensures
        chain_len(a, k, f) == chain_len(b, k, f),
        root_key(a, k, f) == root_key(b, k, f),
        forall|t: u64| #[trigger] reaches(a, k, t, f) == reaches(b, k, t, f),
    decreases f,
{
    if a.contains_key(k) {
        if let Some(p) = a[k].parent_id {
            if f > 0 {
                lemma_same_links_chain(a, b, p.value(), (f - 1) as nat);
                assert forall|t: u64| #[trigger] reaches(a, k, t, f) == reaches(b, k, t, f) by {
                    assert(reaches(a, p.value(), t, (f - 1) as nat) == reaches(b, p.value(), t, (f - 1) as nat));
                }
            }
        }
    }
}

pub proof fn lemma_same_links_acyclic(a: Forest, b: Forest)
    requires
        same_links(a, b),
        acyclic(a),
    ensures
        acyclic(b),
        parents_present(a) ==> parents_present(b),
{
    assert forall|k: u64| b.contains_key(k) implies (#[trigger] chain_len(b, k, b.dom().len())) is Some by {
        lemma_same_links_chain(a, b, k, a.dom().len());
        assert(chain_len(a, k, a.dom().len()) is Some);
    }
}

/// The keys of a sibling order are exactly the group, so it is as long as the group.
pub proof fn lemma_sibling_order_len(m: Forest, p: Option<DelegationId>, s: Seq<DelegationId>)
    requires
        m.dom().finite(),
        is_sibling_order(m, p, s),
    ensures
        s.len() == group(m, p).len(),
        group(m, p).finite(),
{
    let keys = s.map_values(|d: DelegationId| d.value());
    assert forall|i: int, j: int| 0 <= i < j < keys.len() implies keys[i] != keys[j] by {
        assert(precedes(m, s[i].value(), s[j].value()));
    }
    assert(keys.no_duplicates());
    keys.unique_seq_to_set();
    assert(keys.to_set() =~= group(m, p)) by {
        assert forall|k: u64| keys.to_set().contains(k) implies group(m, p).contains(k) by {
            let i = choose|i: int| 0 <= i < keys.len() && keys[i] == k;
            assert(s[i].value() == k);
        }
        assert forall|k: u64| group(m, p).contains(k) implies keys.to_set().contains(k) by {
            assert(m[k].parent_id == p);
            let i = choose|i: int| 0 <= i < s.len() && s[i].value() == k;
            assert(keys[i] == k);
        }
    }
}

/// Ranks equal to positions in a sibling order normalize that group.
pub open spec fn group_normalized(m: Forest, p: Option<DelegationId>) -> bool {
    &&& forall|k: u64| #[trigger]
        group(m, p).contains(k) ==> m[k].sibling_rank < group(m, p).len()
    &&& forall|a: u64, b: u64|
        #![trigger group(m, p).contains(a), group(m, p).contains(b)]
        group(m, p).contains(a) && group(m, p).contains(b) && a != b ==> m[a].sibling_rank
            != m[b].sibling_rank
}

pub proof fn lemma_positions_normalize(m: Forest, p: Option<DelegationId>, s: Seq<DelegationId>)
    requires
        m.dom().finite(),
        is_sibling_order(m, p, s),
        forall|i: int| 0 <= i < s.len() ==> m[#[trigger] s[i].value()].sibling_rank == i,
    ensures
        group_normalized(m, p),
{
    lemma_sibling_order_len(m, p, s);
    assert forall|k: u64| #[trigger] group(m, p).contains(k) implies m[k].sibling_rank < group(m, p).len() by {
        assert(m[k].parent_id == p);
        let i = choose|i: int| 0 <= i < s.len() && s[i].value() == k;
        assert(m[s[i].value()].sibling_rank == i);
    }
    assert forall|a: u64, b: u64|
        group(m, p).contains(a) && group(m, p).contains(b) && a != b implies m[a].sibling_rank
            != m[b].sibling_rank by {
        assert(m[a].parent_id == p);
        assert(m[b].parent_id == p);
        let i = choose|i: int| 0 <= i < s.len() && s[i].value() == a;
        let j = choose|j: int| 0 <= j < s.len() && s[j].value() == b;
        assert(m[s[i].value()].sibling_rank == i);
        assert(m[s[j].value()].sibling_rank == j);
    }
}

pub proof fn lemma_groups_normalize(m: Forest)
    requires
        forall|k: u64| #[trigger] m.contains_key(k) ==> group_normalized(m, m[k].parent_id),
    ensures
        ranks_normalized(m),
{
    assert forall|k: u64| #[trigger] m.contains_key(k) implies m[k].sibling_rank < group(m, m[k].parent_id).len() by {
        assert(group_normalized(m, m[k].parent_id));
        assert(group(m, m[k].parent_id).contains(k));
    }
    assert forall|a: u64, b: u64|
        m.contains_key(a) && m.contains_key(b) && a != b && m[a].parent_id == m[b].parent_id
        implies #[trigger] m[a].sibling_rank != #[trigger] m[b].sibling_rank by {
        assert(group_normalized(m, m[a].parent_id));
        assert(group(m, m[a].parent_id).contains(a));
        assert(group(m, m[a].parent_id).contains(b));
    }
}

pub proof fn lemma_normalized_groups(m: Forest, p: Option<DelegationId>)
    requires
        ranks_normalized(m),
    ensures
        group_normalized(m, p),
{
    assert forall|k: u64| #[trigger] group(m, p).contains(k) implies m[k].sibling_rank < group(m, p).len() by {
        assert(m.contains_key(k));
    }
    assert forall|a: u64, b: u64|
        group(m, p).contains(a) && group(m, p).contains(b) && a != b implies m[a].sibling_rank
            != m[b].sibling_rank by {
        assert(m.contains_key(a) && m.contains_key(b));
    }
}

/// Chains that avoid `x` are untouched by relinking `x`.
proof fn lemma_relink_avoiding(a: Forest, b: Forest, x: u64, k: u64, f: nat)
    requires
        a.dom() == b.dom(),
        forall|j: u64| #[trigger] a.contains_key(j) && j != x ==> b[j].parent_id == a[j].parent_id,
        chain_len(a, k, f) is Some,
        !reaches(a, k, x, f),
    ensures
        chain_len(b, k, f) == chain_len(a, k, f),
    decreases f,
{
    if a.contains_key(k) {
        if let Some(q) = a[k].parent_id {
            lemma_relink_avoiding(a, b, x, q.value(), (f - 1) as nat);
        }
    }
}

proof fn lemma_relink_bounded(a: Forest, b: Forest, x: u64, k: u64, f: nat)
    requires
        a.dom().finite(),
        a.dom() == b.dom(),
        acyclic(a),
        a.contains_key(x),
        forall|j: u64| #[trigger] a.contains_key(j) && j != x ==> b[j].parent_id == a[j].parent_id,
        match b[x].parent_id {
            Some(p) => a.contains_key(p.value()) && !reaches(a, p.value(), x, a.dom().len()),
            None => true,
        },
        chain_len(a, k, f) is Some,
    ensures
        chain_len(b, k, f + a.dom().len() + 1) is Some,
    decreases f,
{
    let n = a.dom().len();
    if k == x {
        if let Some(p) = b[x].parent_id {
            assert(chain_len(a, p.value(), n) is Some);
            lemma_relink_avoiding(a, b, x, p.value(), n);
            lemma_chain_len_le_fuel(a, p.value(), n);
            lemma_chain_len_fuel(b, p.value(), n, (f + n) as nat);
        }
    } else if a.contains_key(k) {
        if let Some(q) = a[k].parent_id {
            lemma_relink_bounded(a, b, x, q.value(), (f - 1) as nat);
        }
    }
}

/// Pointing `x` at a parent that does not descend from `x` keeps the forest acyclic.
pub proof fn lemma_relink_acyclic(a: Forest, b: Forest, x: u64)
    requires
        a.dom().finite(),
        a.dom() == b.dom(),
        acyclic(a),
        a.contains_key(x),
        forall|j: u64| #[trigger] a.contains_key(j) && j != x ==> b[j].parent_id == a[j].parent_id,
        match b[x].parent_id {
            Some(p) => a.contains_key(p.value()) && !reaches(a, p.value(), x, a.dom().len()),
            None => true,
        },
    ensures
        acyclic(b),
{
    let n = a.dom().len();
    assert forall|k: u64| b.contains_key(k) implies (#[trigger] chain_len(b, k, b.dom().len())) is Some by {
        assert(chain_len(a, k, n) is Some);
        lemma_relink_bounded(a, b, x, k, n);
        lemma_chain_len_bound(b, k, (n + n + 1) as nat);
        lemma_chain_len_fuel(b, k, (n + n + 1) as nat, n);
    }
}

/// Adding a record that nothing points at leaves every other chain as it was.
pub proof fn lemma_fresh_chain(a: Forest, b: Forest, k0: u64, k: u64, f: nat)
    requires
        parents_present(a),
        !a.contains_key(k0),
        b.dom() == a.dom().insert(k0),
        forall|j: u64| #[trigger] a.contains_key(j) ==> b[j].parent_id == a[j].parent_id,
        a.contains_key(k),
    ensures
        chain_len(b, k, f) == chain_len(a, k, f),
        root_key(b, k, f) == root_key(a, k, f),
        forall|t: u64| #[trigger] reaches(b, k, t, f) == reaches(a, k, t, f),
    decreases f,
{
    if let Some(q) = a[k].parent_id {
        if f > 0 {
            lemma_fresh_chain(a, b, k0, q.value(), (f - 1) as nat);
            assert forall|t: u64| #[trigger] reaches(b, k, t, f) == reaches(a, k, t, f) by {
                assert(reaches(b, q.value(), t, (f - 1) as nat) == reaches(a, q.value(), t, (f - 1) as nat));
            }
        }
    }
}

/// Removing records that nothing points at leaves every other chain as it was.
pub proof fn lemma_removed_chain(a: Forest, b: Forest, k: u64, f: nat)
    requires
        b.dom().subset_of(a.dom()),
        forall|j: u64| #[trigger] b.contains_key(j) ==> b[j].parent_id == a[j].parent_id,
        parents_present(b),
        b.contains_key(k),
    ensures
        chain_len(b, k, f) == chain_len(a, k, f),
    decreases f,
{
    if let Some(q) = b[k].parent_id {
        if f > 0 {
            lemma_removed_chain(a, b, q.value(), (f - 1) as nat);
        }
    }
}

pub proof fn lemma_empty_well_formed()
    ensures
        well_formed(Map::<u64, DelegationRecord>::empty()),
{
    let m = Map::<u64, DelegationRecord>::empty();
    assert(m.dom() =~= Set::empty());
}

/// Changing only panes and tombstones keeps a forest well formed as long as panes stay unique.
pub proof fn lemma_well_formed_same_shape(a: Forest, b: Forest)
    requires
        well_formed(a),
        same_links(a, b),
        forall|k: u64| #[trigger] a.contains_key(k) ==> b[k].sibling_rank == a[k].sibling_rank,
        panes_unique(b),
    ensures
        well_formed(b),
{
    lemma_same_links_acyclic(a, b);
    assert forall|k: u64| #[trigger] b.contains_key(k) implies b[k].id.value() == k && k != 0 by {
        assert(a.contains_key(k));
    }
    assert forall|p: Option<DelegationId>| group(a, p) == group(b, p) by {
        assert(group(a, p) =~= group(b, p));
    }
    assert forall|k: u64| #[trigger] b.contains_key(k) implies b[k].sibling_rank < group(b, b[k].parent_id).len() by {
        assert(a.contains_key(k));
        assert(group(a, a[k].parent_id) == group(b, b[k].parent_id));
    }
    assert forall|x: u64, y: u64|
        b.contains_key(x) && b.contains_key(y) && x != y && b[x].parent_id == b[y].parent_id
        implies #[trigger] b[x].sibling_rank != #[trigger] b[y].sibling_rank by {
        assert(a[x].sibling_rank != a[y].sibling_rank);
    }
}

/// Adding a fresh last child keeps the forest well formed and appends the
/// child to its sibling order.
pub proof fn lemma_insert_leaf(a: Forest, k0: u64, rec: DelegationRecord, s: Seq<DelegationId>)
    requires
        well_formed(a),
        !a.contains_key(k0),
        k0 != 0,
        rec.id.value() == k0,
        match rec.pane_id {
            Some(q) => forall|k: u64| !carries_pane(a, k, q),
            None => true,
        },
        match rec.parent_id {
            Some(p) => a.contains_key(p.value()),
            None => true,
        },
        is_sibling_order(a, rec.parent_id, s),
        rec.sibling_rank == s.len(),
    ensures
        well_formed(a.insert(k0, rec)),
        is_sibling_order(a.insert(k0, rec), rec.parent_id, s.push(rec.id)),
        siblings(a.insert(k0, rec), rec.parent_id) == siblings(a, rec.parent_id).push(rec.id),
{
    let b = a.insert(k0, rec);
    let n = a.dom().len();
    let parent = rec.parent_id;
    assert(b.dom() == a.dom().insert(k0));
    // acyclic
    assert forall|k: u64| b.contains_key(k) implies (#[trigger] chain_len(b, k, b.dom().len())) is Some by {
        assert(b.dom().len() == n + 1);
        if k == k0 {
            if let Some(p) = rec.parent_id {
                assert(chain_len(a, p.value(), n) is Some);
                lemma_fresh_chain(a, b, k0, p.value(), n);
            }
        } else {
            assert(chain_len(a, k, n) is Some);
            lemma_chain_len_le_fuel(a, k, n);
            lemma_chain_len_fuel(a, k, n, n + 1);
            lemma_fresh_chain(a, b, k0, k, n + 1);
        }
    }
    // the new sibling order
    lemma_rank_is_position(a, parent, s);
    let t = s.push(rec.id);
    assert(is_sibling_order(b, parent, t)) by {
        assert forall|i: int| #![trigger t[i]] 0 <= i < t.len() implies b.contains_key(t[i].value()) && b[t[i].value()].parent_id == parent
            && b[t[i].value()].id == t[i] by {
            if i < s.len() {
                assert(t[i] == s[i]);
            }
        }
        assert forall|k: u64| #![trigger b[k].parent_id] b.contains_key(k) && b[k].parent_id == parent implies exists|i: int|
            0 <= i < t.len() && t[i].value() == k by {
            if k == k0 {
                assert(t[s.len() as int].value() == k);
            } else {
                assert(a[k].parent_id == parent);
                let i = choose|i: int| 0 <= i < s.len() && s[i].value() == k;
                assert(t[i] == s[i]);
            }
        }
        assert forall|i: int, j: int| #![trigger t[i], t[j]] 0 <= i < j < t.len() implies precedes(b, t[i].value(), t[j].value()) by {
            assert(t[i] == s[i]);
            if j < s.len() {
                assert(t[j] == s[j]);
                assert(precedes(a, s[i].value(), s[j].value()));
            } else {
                assert(a[s[i].value()].sibling_rank == i);
                assert(s[i].value() != k0);
            }
        }
    }
    lemma_siblings_eq(b, parent, t);
    lemma_siblings_eq(a, parent, s);
    assert forall|i: int| 0 <= i < t.len() implies b[#[trigger] t[i].value()].sibling_rank == i by {
        if i < s.len() {
            assert(t[i] == s[i]);
            assert(a[s[i].value()].sibling_rank == i);
            assert(s[i].value() != k0);
        }
    }
    lemma_positions_normalize(b, parent, t);
    assert forall|k: u64| #[trigger] b.contains_key(k) implies group_normalized(b, b[k].parent_id) by {
        let q = b[k].parent_id;
        if q != parent {
            assert(a.contains_key(k));
            lemma_normalized_groups(a, q);
            assert(group(a, q) =~= group(b, q));
        }
    }
    lemma_groups_normalize(b);
    assert(panes_unique(b)) by {
        assert forall|x: u64, y: u64|
            #![trigger b[x].pane_id, b[y].pane_id]
            b.contains_key(x) && b.contains_key(y) && x != y && b[x].pane_id is Some implies b[x].pane_id
                != b[y].pane_id by {
            if x == k0 {
                assert(!carries_pane(a, y, rec.pane_id->0));
            } else if y == k0 {
                if rec.pane_id is Some {
                    assert(!carries_pane(a, x, rec.pane_id->0));
                }
            } else {
                assert(a[x].pane_id != a[y].pane_id);
            }
        }
    }
}

/// `r` delegated from another parent, at another rank.
pub open spec fn with_parent(r: DelegationRecord, parent: Option<DelegationId>, rank: u64) -> DelegationRecord {
    DelegationRecord {
        id: r.id,
        pane_id: r.pane_id,
        parent_id: parent,
        purpose: r.purpose,
        sibling_rank: rank,
        tombstone: r.tombstone,
    }
}

/// A group whose members, links and ranks agree in two forests has the same
/// normalization and the same sibling orders in both.
pub proof fn lemma_group_frame(a: Forest, b: Forest, g: Option<DelegationId>)
    requires
        a.dom() == b.dom(),
        forall|x: u64|
            #[trigger] a.contains_key(x) && (a[x].parent_id == g || b[x].parent_id == g) ==> a[x].parent_id
                == b[x].parent_id && a[x].sibling_rank == b[x].sibling_rank && a[x].id == b[x].id,
    ensures
        group(a, g) == group(b, g),
        group_normalized(a, g) == group_normalized(b, g),
        forall|s: Seq<DelegationId>| #[trigger] is_sibling_order(a, g, s) == is_sibling_order(b, g, s),
{
    assert(group(a, g) =~= group(b, g));
    assert forall|s: Seq<DelegationId>| #[trigger] is_sibling_order(a, g, s) == is_sibling_order(b, g, s) by {
        if is_sibling_order(a, g, s) {
            assert forall|i: int, j: int| 0 <= i < j < s.len() implies precedes(b, s[i].value(), s[j].value()) by {
                assert(precedes(a, s[i].value(), s[j].value()));
            }
            assert forall|k: u64| #![trigger b[k].parent_id] b.contains_key(k) && b[k].parent_id == g implies exists|i: int|
                0 <= i < s.len() && s[i].value() == k by {
                assert(a[k].parent_id == g);
            }
        }
        if is_sibling_order(b, g, s) {
            assert forall|i: int, j: int| 0 <= i < j < s.len() implies precedes(a, s[i].value(), s[j].value()) by {
                assert(precedes(b, s[i].value(), s[j].value()));
            }
            assert forall|k: u64| #![trigger a[k].parent_id] a.contains_key(k) && a[k].parent_id == g implies exists|i: int|
                0 <= i < s.len() && s[i].value() == k by {
                assert(b[k].parent_id == g);
            }
            assert forall|i: int| #![trigger s[i]] 0 <= i < s.len() implies a.contains_key(s[i].value()) && a[s[i].value()].parent_id == g
                && a[s[i].value()].id == s[i] by {
                assert(b.contains_key(s[i].value()));
            }
        }
    }
}

/// Moving record `k` from its group to the end of group `np`: the old group
/// loses it, the new group gains it last.
pub proof fn lemma_relink_orders(m: Forest, k: u64, np: Option<DelegationId>, s_op: Seq<DelegationId>, s_np: Seq<DelegationId>)
    requires
        well_formed(m),
        m.contains_key(k),
        np != m[k].parent_id,
        is_sibling_order(m, m[k].parent_id, s_op),
        is_sibling_order(m, np, s_np),
        s_np.len() <= u64::MAX,
    ensures
        ({
            let m1 = m.insert(k, with_parent(m[k], np, s_np.len() as u64));
            let j = s_op.index_of(m[k].id);
            &&& 0 <= j < s_op.len() && s_op[j] == m[k].id
            &&& is_sibling_order(m1, m[k].parent_id, s_op.remove(j))
            &&& is_sibling_order(m1, np, s_np.push(m[k].id))
            &&& forall|i: int| 0 <= i < s_np.len() + 1 ==> m1[#[trigger] s_np.push(m[k].id)[i].value()].sibling_rank == i
        }),
{
    let op = m[k].parent_id;
    let id = m[k].id;
    let m1 = m.insert(k, with_parent(m[k], np, s_np.len() as u64));
    assert(m[k].parent_id == op);
    let j0 = choose|i: int| 0 <= i < s_op.len() && s_op[i].value() == k;
    assert(s_op[j0] == id);
    assert(s_op.contains(id));
    let j = s_op.index_of(id);
    assert(0 <= j < s_op.len() && s_op[j] == id);
    let t = s_op.remove(j);
    s_op.remove_ensures(j);
    lemma_rank_is_position(m, np, s_np);
    assert(is_sibling_order(m1, op, t)) by {
        assert forall|i: int| #![trigger t[i]] 0 <= i < t.len() implies m1.contains_key(t[i].value()) && m1[t[i].value()].parent_id == op
            && m1[t[i].value()].id == t[i] by {
            let i0 = if i < j { i } else { i + 1 };
            assert(t[i] == s_op[i0]);
            if i0 != j {
                assert(precedes(m, s_op[i0].value(), s_op[j].value()) || precedes(m, s_op[j].value(), s_op[i0].value()));
            }
            assert(s_op[i0].value() != k);
        }
        assert forall|x: u64| #![trigger m1[x].parent_id] m1.contains_key(x) && m1[x].parent_id == op implies exists|i: int|
            0 <= i < t.len() && t[i].value() == x by {
            assert(x != k);
            assert(m[x].parent_id == op);
            let i0 = choose|i: int| 0 <= i < s_op.len() && s_op[i].value() == x;
            assert(i0 != j);
            if i0 < j {
                assert(t[i0] == s_op[i0]);
            } else {
                assert(t[i0 - 1] == s_op[i0]);
            }
        }
        assert forall|a: int, b: int| #![trigger t[a], t[b]] 0 <= a < b < t.len() implies precedes(m1, t[a].value(), t[b].value()) by {
            let a0 = if a < j { a } else { a + 1 };
            let b0 = if b < j { b } else { b + 1 };
            assert(t[a] == s_op[a0] && t[b] == s_op[b0]);
            assert(precedes(m, s_op[a0].value(), s_op[b0].value()));
            assert(s_op[a0].value() != k) by {
                if a0 != j {
                    assert(precedes(m, s_op[a0].value(), s_op[j].value()) || precedes(m, s_op[j].value(), s_op[a0].value()));
                }
            }
            assert(s_op[b0].value() != k) by {
                if b0 != j {
                    assert(precedes(m, s_op[b0].value(), s_op[j].value()) || precedes(m, s_op[j].value(), s_op[b0].value()));
                }
            }
        }
    }
    let u = s_np.push(id);
    assert(m1[k].sibling_rank == s_np.len());
    assert forall|i: int| 0 <= i < s_np.len() implies #[trigger] s_np[i].value() != k by {
        assert(m[s_np[i].value()].parent_id == np);
    }
    assert(is_sibling_order(m1, np, u)) by {
        assert forall|i: int| #![trigger u[i]] 0 <= i < u.len() implies m1.contains_key(u[i].value()) && m1[u[i].value()].parent_id == np
            && m1[u[i].value()].id == u[i] by {
            if i < s_np.len() {
                assert(u[i] == s_np[i]);
            }
        }
        assert forall|x: u64| #![trigger m1[x].parent_id] m1.contains_key(x) && m1[x].parent_id == np implies exists|i: int|
            0 <= i < u.len() && u[i].value() == x by {
            if x == k {
                assert(u[s_np.len() as int].value() == x);
            } else {
                assert(m[x].parent_id == np);
                let i = choose|i: int| 0 <= i < s_np.len() && s_np[i].value() == x;
                assert(u[i] == s_np[i]);
            }
        }
        assert forall|a: int, b: int| #![trigger u[a], u[b]] 0 <= a < b < u.len() implies precedes(m1, u[a].value(), u[b].value()) by {
            assert(u[a] == s_np[a]);
            assert(m[s_np[a].value()].sibling_rank == a);
            if b < s_np.len() {
                assert(u[b] == s_np[b]);
                assert(precedes(m, s_np[a].value(), s_np[b].value()));
            }
        }
    }
    assert forall|i: int| 0 <= i < s_np.len() + 1 implies m1[#[trigger] u[i].value()].sibling_rank == i by {
        if i < s_np.len() {
            assert(u[i] == s_np[i]);
            assert(m[s_np[i].value()].sibling_rank == i);
        }
    }
}

/// Sibling order, made reflexive: a total order on the keys of a forest.
pub open spec fn precedes_or_same(m: Forest) -> spec_fn(u64, u64) -> bool {
    |a: u64, b: u64| precedes(m, a, b) || a == b
}

proof fn lemma_precedes_total(m: Forest)
    ensures
        total_ordering(precedes_or_same(m)),
{
    let r = precedes_or_same(m);
    assert forall|x: u64, y: u64, z: u64| #[trigger] r(x, y) && #[trigger] r(y, z) implies r(x, z) by {}
    assert forall|x: u64, y: u64| #[trigger] r(x, y) && #[trigger] r(y, x) implies x == y by {}
    assert forall|x: u64, y: u64| #[trigger] r(x, y) || #[trigger] r(y, x) by {}
    assert forall|x: u64| #[trigger] r(x, x) by {}
}

proof fn lemma_sorted_exists(m: Forest, p: Option<DelegationId>, set: Set<u64>) -> (s: Seq<DelegationId>)
    requires
        set.finite(),
        forall|x: u64| #[trigger] set.contains(x) ==> m.contains_key(x) && m[x].parent_id == p && m[x].id.value() == x,
    ensures
        sorted_members(m, s),
        forall|i: int| 0 <= i < s.len() ==> m[#[trigger] s[i].value()].parent_id == p,
        forall|k: u64| names_key(s, k) == set.contains(k),
    decreases set.len(),
{
    if set.len() == 0 {
        assert forall|k: u64| names_key(Seq::<DelegationId>::empty(), k) == set.contains(k) by {
            if set.contains(k) {
                assert(set.remove(k).len() < set.len());
            }
        }
        Seq::empty()
    } else {
        let r = precedes_or_same(m);
        lemma_precedes_total(m);
        set.find_unique_maximal_ensures(r);
        let x = set.find_unique_maximal(r);
        assert(is_maximal(r, x, set));
        let rest = set.remove(x);
        let s0 = lemma_sorted_exists(m, p, rest);
        let s = s0.push(m[x].id);
        assert forall|i: int| #![trigger s[i]] 0 <= i < s.len() implies m.contains_key(s[i].value()) && m[s[i].value()].id == s[i] by {
            if i < s0.len() {
                assert(s[i] == s0[i]);
            }
        }
        assert forall|i: int, j: int| #![trigger s[i], s[j]] 0 <= i < j < s.len() implies precedes(m, s[i].value(), s[j].value()) by {
            assert(s[i] == s0[i]);
            if j < s0.len() {
                assert(s[j] == s0[j]);
            } else {
                let y = s0[i].value();
                assert(names_key(s0, y));
                assert(rest.contains(y));
                assert(r(x, y) || r(y, x));
                if r(x, y) {
                    assert(r(y, x));
                }
            }
        }
        assert forall|i: int| 0 <= i < s.len() implies m[#[trigger] s[i].value()].parent_id == p by {
            if i < s0.len() {
                assert(s[i] == s0[i]);
            }
        }
        assert forall|k: u64| names_key(s, k) == set.contains(k) by {
            if names_key(s, k) {
                let i = choose|i: int| 0 <= i < s.len() && s[i].value() == k;
                if i < s0.len() {
                    assert(s[i] == s0[i]);
                    assert(names_key(s0, k));
                }
            }
            if set.contains(k) {
                if k == x {
                    assert(s[s0.len() as int].value() == k);
                } else {
                    assert(rest.contains(k));
                    let i = choose|i: int| 0 <= i < s0.len() && s0[i].value() == k;
                    assert(s[i] == s0[i]);
                }
            }
        }
        s
    }
}

/// Every group of a finite forest has a sibling order.
pub proof fn lemma_siblings_exist(m: Forest, p: Option<DelegationId>)
    requires
        m.dom().finite(),
        ids_consistent(m),
    ensures
        is_sibling_order(m, p, siblings(m, p)),
{
    let g = group(m, p);
    assert(g.subset_of(m.dom()));
    lemma_set_subset_finite(m.dom(), g);
    let s = lemma_sorted_exists(m, p, g);
    assert forall|k: u64| #![trigger m[k].parent_id] m.contains_key(k) && m[k].parent_id == p implies exists|i: int|
        0 <= i < s.len() && s[i].value() == k by {
        assert(g.contains(k));
        assert(names_key(s, k));
    }
    assert(is_sibling_order(m, p, s));
    lemma_siblings_eq(m, p, s);
}

/// In a list without repeated records, `index_of` finds the only position.
pub proof fn lemma_index_of_sorted(m: Forest, s: Seq<DelegationId>, i: int)
    requires
        sorted_members(m, s),
        0 <= i < s.len(),
    ensures
        s.contains(s[i]),
        s.index_of(s[i]) == i,
{
    assert(s.contains(s[i]));
    let j = s.index_of(s[i]);
    if j != i {
        if j < i {
            assert(precedes(m, s[j].value(), s[i].value()));
        } else {
            assert(precedes(m, s[i].value(), s[j].value()));
        }
    }
}

/// Taking `s[j]` out and putting it back at `idx` lists the same group, each once.
pub proof fn lemma_reinsert(m: Forest, p: Option<DelegationId>, s: Seq<DelegationId>, j: int, idx: int)
    requires
        is_sibling_order(m, p, s),
        0 <= j < s.len(),
        0 <= idx < s.len(),
    ensures
        ({
            let u = s.remove(j).insert(idx, s[j]);
            &&& u.len() == s.len()
            &&& forall|a: int, b: int|
                0 <= a < b < u.len() ==> #[trigger] u[a].value() != #[trigger] u[b].value()
            &&& forall|a: int|
                #![trigger u[a]]
                0 <= a < u.len() ==> m.contains_key(u[a].value()) && m[u[a].value()].parent_id == p
                    && m[u[a].value()].id == u[a]
            &&& forall|x: u64| #![trigger m[x].parent_id] m.contains_key(x) && m[x].parent_id == p ==> names_key(u, x)
        }),
{
    let t = s.remove(j);
    s.remove_ensures(j);
    let u = t.insert(idx, s[j]);
    // map positions of `u` back to positions of `s`
    let back = |a: int| if a == idx { j } else {
        let f = if a < idx { a } else { a - 1 };
        if f < j { f } else { f + 1 }
    };
    assert forall|a: int| 0 <= a < u.len() implies #[trigger] u[a] == s[back(a)] && 0 <= back(a) < s.len() by {
        if a != idx {
            let f = if a < idx { a } else { a - 1 };
            assert(u[a] == t[f]);
        }
    }
    assert forall|a: int, b: int| 0 <= a < b < u.len() implies #[trigger] u[a].value() != #[trigger] u[b].value() by {
        assert(u[a] == s[back(a)] && u[b] == s[back(b)]);
        assert(back(a) != back(b));
        if back(a) < back(b) {
            assert(precedes(m, s[back(a)].value(), s[back(b)].value()));
        } else {
            assert(precedes(m, s[back(b)].value(), s[back(a)].value()));
        }
    }
    assert forall|a: int| #![trigger u[a]] 0 <= a < u.len() implies m.contains_key(u[a].value()) && m[u[a].value()].parent_id == p
        && m[u[a].value()].id == u[a] by {
        assert(u[a] == s[back(a)]);
    }
    assert forall|x: u64| #![trigger m[x].parent_id] m.contains_key(x) && m[x].parent_id == p implies names_key(u, x) by {
        let i = choose|i: int| 0 <= i < s.len() && s[i].value() == x;
        if i == j {
            assert(u[idx] == s[j]);
        } else {
            let f = if i < j { i } else { i - 1 };
            assert(t[f] == s[i]);
            let a = if f < idx { f } else { f + 1 };
            assert(u[a] == t[f]);
        }
    }
}

/// Ranking a group by a new listing of the same records keeps the forest
/// well formed and makes that listing the group's sibling order.
pub proof fn lemma_permuted_order(m: Forest, m1: Forest, p: Option<DelegationId>, u: Seq<DelegationId>)
    requires
        well_formed(m),
        forall|a: int, b: int| 0 <= a < b < u.len() ==> #[trigger] u[a].value() != #[trigger] u[b].value(),
        forall|a: int|
            #![trigger u[a]]
            0 <= a < u.len() ==> m.contains_key(u[a].value()) && m[u[a].value()].parent_id == p
                && m[u[a].value()].id == u[a],
        forall|x: u64| #![trigger m[x].parent_id] m.contains_key(x) && m[x].parent_id == p ==> names_key(u, x),
        m1.dom() == m.dom(),
        forall|k: u64| #[trigger] m.contains_key(k) ==> same_but_rank(m1[k], m[k]),
        forall|i: int| 0 <= i < u.len() ==> m1[#[trigger] u[i].value()].sibling_rank == i,
        forall|k: u64| #[trigger] m.contains_key(k) && !names_key(u, k) ==> m1[k] == m[k],
    ensures
        well_formed(m1),
        siblings(m1, p) == u,
        forall|k: u64| #[trigger] m.contains_key(k) && m[k].parent_id != p ==> m1[k] == m[k],
{
    assert(same_links(m, m1));
    lemma_same_links_acyclic(m, m1);
    assert forall|x: u64| #[trigger] m.contains_key(x) && m[x].parent_id != p implies m1[x] == m[x] by {
        if names_key(u, x) {
            let a = choose|a: int| 0 <= a < u.len() && u[a].value() == x;
        }
    }
    assert(is_sibling_order(m1, p, u)) by {
        assert forall|x: u64| #![trigger m1[x].parent_id] m1.contains_key(x) && m1[x].parent_id == p implies exists|a: int|
            0 <= a < u.len() && u[a].value() == x by {
            assert(m[x].parent_id == p);
            assert(names_key(u, x));
        }
        assert forall|a: int, b: int| #![trigger u[a], u[b]] 0 <= a < b < u.len() implies precedes(m1, u[a].value(), u[b].value()) by {
            assert(m1[u[a].value()].sibling_rank == a);
            assert(m1[u[b].value()].sibling_rank == b);
        }
    }
    lemma_siblings_eq(m1, p, u);
    lemma_positions_normalize(m1, p, u);
    assert forall|x: u64| #[trigger] m1.contains_key(x) implies group_normalized(m1, m1[x].parent_id) by {
        let g = m1[x].parent_id;
        if g != p {
            lemma_normalized_groups(m, g);
            lemma_group_frame(m, m1, g);
        }
    }
    lemma_groups_normalize(m1);
    assert(panes_unique(m1)) by {
        assert forall|a: u64, b: u64|
            #![trigger m1[a].pane_id, m1[b].pane_id]
            m1.contains_key(a) && m1.contains_key(b) && a != b && m1[a].pane_id is Some
            implies m1[a].pane_id != m1[b].pane_id by {
            assert(m[a].pane_id != m[b].pane_id);
        }
    }
    assert(ids_consistent(m1));
    assert(parents_present(m1)) by {
        assert forall|x: u64| #[trigger] m1.contains_key(x) implies match m1[x].parent_id {
            Some(q) => m1.contains_key(q.value()),
            None => true,
        } by {
            assert(m.contains_key(x));
        }
    }
}

/// The `i`-th record met walking up from `k` (`k` itself is the 0th).
pub open spec fn ancestor(m: Forest, k: u64, i: nat) -> Option<u64>
    decreases i,
{
    if i == 0 {
        Some(k)
    } else {
        match ancestor(m, k, (i - 1) as nat) {
            Some(a) => if m.contains_key(a) {
                parent_key(m[a])
            } else {
                None
            },
            None => None,
        }
    }
}

/// `x` lies on a cycle of parent links.
pub open spec fn on_cycle(m: Forest, x: u64) -> bool {
    exists|i: nat| i > 0 && #[trigger] ancestor(m, x, i) == Some(x)
}

/// The chain from `k` ends at a root.
pub open spec fn terminates(m: Forest, k: u64) -> bool {
    exists|f: nat| #[trigger] chain_len(m, k, f) is Some
}

/// A chain that ends at a root within some fuel ends within the record count.
pub proof fn lemma_terminates_bounded(m: Forest, k: u64)
    requires
        m.dom().finite(),
        terminates(m, k),
    ensures
        chain_len(m, k, m.dom().len()) is Some,
{
    let f = choose|f: nat| #[trigger] chain_len(m, k, f) is Some;
    lemma_chain_len_bound(m, k, f);
    lemma_chain_len_fuel(m, k, f, m.dom().len());
}

/// A record whose parent's chain terminates has a terminating chain.
pub proof fn lemma_terminates_step(m: Forest, k: u64)
    requires
        m.contains_key(k),
        m[k].parent_id is None || terminates(m, m[k].parent_id->0.value()),
    ensures
        terminates(m, k),
{
    if let Some(p) = m[k].parent_id {
        let f = choose|f: nat| #[trigger] chain_len(m, p.value(), f) is Some;
        assert(chain_len(m, k, f + 1) is Some);
    } else {
        assert(chain_len(m, k, 0) is Some);
    }
}

pub proof fn lemma_ancestor_compose(m: Forest, k: u64, i: nat, j: nat, y: u64)
    requires
        ancestor(m, k, i) == Some(y),
    ensures
        ancestor(m, k, i + j) == ancestor(m, y, j),
    decreases j,
{
    if j > 0 {
        lemma_ancestor_compose(m, k, i, (j - 1) as nat, y);
        assert(ancestor(m, k, i + j) == match ancestor(m, k, (i + j - 1) as nat) {
            Some(a) => if m.contains_key(a) { parent_key(m[a]) } else { None },
            None => None,
        });
    }
}

proof fn lemma_chain_ancestor_none(m: Forest, k: u64, f: nat, j: nat)
    requires
        chain_len(m, k, f) is Some,
        j > chain_len(m, k, f)->0,
    ensures
        ancestor(m, k, j) is None,
    decreases f,
{
    // walk one step and recurse on the parent
    let d = chain_len(m, k, f)->0;
    assert(ancestor(m, k, 0) == Some(k));
    assert(ancestor(m, k, 1) == parent_key(m[k]));
    if let Some(p) = m[k].parent_id {
        lemma_chain_ancestor_none(m, p.value(), (f - 1) as nat, (j - 1) as nat);
        lemma_ancestor_compose(m, k, 1, (j - 1) as nat, p.value());
    } else {
        lemma_ancestor_none_after(m, k, 1, j);
    }
}

pub proof fn lemma_ancestor_none_after(m: Forest, k: u64, i: nat, j: nat)
    requires
        ancestor(m, k, i) is None,
        j >= i,
    ensures
        ancestor(m, k, j) is None,
    decreases j,
{
    if j > i {
        lemma_ancestor_none_after(m, k, i, (j - 1) as nat);
    }
}

proof fn lemma_cycle_repeats(m: Forest, x: u64, i: nat, t: nat)
    requires
        i > 0,
        ancestor(m, x, i) == Some(x),
    ensures
        ancestor(m, x, i * t) == Some(x),
    decreases t,
{
    if t > 0 {
        let t1 = (t - 1) as nat;
        lemma_cycle_repeats(m, x, i, t1);
        let a: nat = i * t1;
        assert(i * t == a + i) by (nonlinear_arith)
            requires
                t > 0,
                t1 == t - 1,
                a == i * t1,
        ;
        lemma_ancestor_compose(m, x, a, i, x);
    } else {
        assert(i * t == 0) by (nonlinear_arith)
            requires
                t == 0,
        ;
    }
}

/// A record on a cycle never reaches a root.
pub proof fn lemma_cycle_not_terminating(m: Forest, x: u64)
    requires
        on_cycle(m, x),
    ensures
        !terminates(m, x),
{
    if terminates(m, x) {
        let f = choose|f: nat| #[trigger] chain_len(m, x, f) is Some;
        let d = chain_len(m, x, f)->0;
        let i = choose|i: nat| i > 0 && #[trigger] ancestor(m, x, i) == Some(x);
        lemma_cycle_repeats(m, x, i, d + 1);
        assert(i * (d + 1) > d) by (nonlinear_arith)
            requires
                i > 0,
        ;
        lemma_chain_ancestor_none(m, x, f, i * (d + 1));
    }
}

} // verus!
