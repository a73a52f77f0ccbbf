//! What the forest traversals list: preorder lists every record once, the
//! descendants of a record are exactly the records below it, each once, and
//! a projection lists every included record once.

use vstd::prelude::*;
use crate::ids::{DelegationId, lemma_delegation_id_value_injective};
use crate::delegation::ProjectionEntry;
use crate::projection::{local_tree, local_trees, parent_included, projected_list, projection_of};
use crate::forest::{
    Forest, ancestor, chain_len, descendants_of, is_sibling_order, parent_key, preorder_of, siblings,
    subtree_list, well_formed, lemma_ancestor_none_after, lemma_child_depth, lemma_depth,
    lemma_siblings_exist,
};

verus! {

broadcast use lemma_delegation_id_value_injective;

/// How many parent links lead from record `k` up to its root.
pub open spec fn depth(m: Forest, k: u64) -> nat {
    chain_len(m, k, m.dom().len())->0
}

/// Record `x` lies strictly below `c`.
pub open spec fn strictly_below(m: Forest, x: u64, c: u64) -> bool {
    exists|i: nat| i >= 1 && #[trigger] ancestor(m, x, i) == Some(c)
}

/// Walking up `i <= depth` links from a record reaches the record `i` levels higher.
pub proof fn lemma_ancestor_depth(m: Forest, x: u64, i: nat)
    requires
        well_formed(m),
        m.contains_key(x),
        i <= depth(m, x),
    ensures
        ancestor(m, x, i) is Some,
        m.contains_key(ancestor(m, x, i)->0),
        depth(m, ancestor(m, x, i)->0) == depth(m, x) - i,
    decreases i,
{
    lemma_depth(m, x);
    if i > 0 {
        lemma_ancestor_depth(m, x, (i - 1) as nat);
        let a = ancestor(m, x, (i - 1) as nat)->0;
        lemma_depth(m, a);
        assert(depth(m, a) >= 1);
        assert(m[a].parent_id is Some) by {
            if m[a].parent_id is None {
                assert(chain_len(m, a, m.dom().len()) == Some(0nat));
            }
        }
        lemma_child_depth(m, a);
        assert(ancestor(m, x, i) == parent_key(m[a]));
    }
}

/// Walking up more links than a record's depth leaves the forest.
pub proof fn lemma_ancestor_past_root(m: Forest, x: u64, i: nat)
    requires
        well_formed(m),
        m.contains_key(x),
        i > depth(m, x),
    ensures
        ancestor(m, x, i) is None,
{
    let d = depth(m, x);
    lemma_ancestor_depth(m, x, d);
    let r = ancestor(m, x, d)->0;
    lemma_depth(m, r);
    assert(m[r].parent_id is None) by {
        if m[r].parent_id is Some {
            lemma_child_depth(m, r);
        }
    }
    assert(ancestor(m, x, d + 1) is None);
    lemma_ancestor_none_after(m, x, d + 1, i);
}

/// Two records met walking up from the same record at the same depth are the same.
pub proof fn lemma_same_depth_ancestors(m: Forest, x: u64, i: nat, j: nat)
    requires
        well_formed(m),
        m.contains_key(x),
        ancestor(m, x, i) is Some,
        ancestor(m, x, j) is Some,
        depth(m, ancestor(m, x, i)->0) == depth(m, ancestor(m, x, j)->0),
    ensures
        i == j,
{
    if i > depth(m, x) {
        lemma_ancestor_past_root(m, x, i);
    }
    if j > depth(m, x) {
        lemma_ancestor_past_root(m, x, j);
    }
    lemma_ancestor_depth(m, x, i);
    lemma_ancestor_depth(m, x, j);
}

/// Siblings lie at the same depth.
pub proof fn lemma_sibling_depth(m: Forest, p: Option<DelegationId>, a: u64, b: u64)
    requires
        well_formed(m),
        m.contains_key(a),
        m.contains_key(b),
        m[a].parent_id == p,
        m[b].parent_id == p,
    ensures
        depth(m, a) == depth(m, b),
{
    lemma_depth(m, a);
    lemma_depth(m, b);
    match p {
        Some(_) => {
            lemma_child_depth(m, a);
            lemma_child_depth(m, b);
        },
        None => {
            assert(chain_len(m, a, m.dom().len()) == Some(0nat));
            assert(chain_len(m, b, m.dom().len()) == Some(0nat));
        },
    }
}

/// `cs` lists distinct children of `p`.
pub open spec fn sibling_list(m: Forest, p: Option<DelegationId>, cs: Seq<DelegationId>) -> bool {
    &&& forall|i: int|
        #![trigger cs[i]]
        0 <= i < cs.len() ==> m.contains_key(cs[i].value()) && m[cs[i].value()].parent_id == p
            && m[cs[i].value()].id == cs[i]
    &&& forall|i: int, j: int| #![trigger cs[i], cs[j]] 0 <= i < j < cs.len() ==> cs[i] != cs[j]
}

/// A sibling order lists distinct children.
pub proof fn lemma_order_is_list(m: Forest, p: Option<DelegationId>, cs: Seq<DelegationId>)
    requires
        is_sibling_order(m, p, cs),
    ensures
        sibling_list(m, p, cs),
{
    assert forall|i: int, j: int| #![trigger cs[i], cs[j]] 0 <= i < j < cs.len() implies cs[i] != cs[j] by {
        assert(crate::forest::precedes(m, cs[i].value(), cs[j].value()));
    }
}

/// Walking up from a child of `c` by one link more than from the child meets `c`.
proof fn lemma_up_from_child(m: Forest, x: u64, i: nat, kid: u64, c: DelegationId)
    requires
        ancestor(m, x, i) == Some(kid),
        m.contains_key(kid),
        m[kid].parent_id == Some(c),
    ensures
        ancestor(m, x, i + 1) == Some(c.value()),
{
    assert(ancestor(m, x, i + 1) == match ancestor(m, x, i) {
        Some(a) => if m.contains_key(a) { parent_key(m[a]) } else { None },
        None => None,
    });
}

/// Walking up to `c` by at least one link passes a child of `c` one link earlier.
proof fn lemma_down_to_child(m: Forest, x: u64, i: nat, c: DelegationId)
    requires
        well_formed(m),
        i >= 1,
        ancestor(m, x, i) == Some(c.value()),
    ensures
        ancestor(m, x, (i - 1) as nat) is Some,
        m.contains_key(ancestor(m, x, (i - 1) as nat)->0),
        m[ancestor(m, x, (i - 1) as nat)->0].parent_id == Some(c),
{
    crate::repair::lemma_ancestor_prefix(m, x, i, (i - 1) as nat);
    let y = ancestor(m, x, (i - 1) as nat)->0;
    assert(parent_key(m[y]) == Some(c.value()));
}

/// The listing of `cs` and the records below them holds each record at
/// most once, and holds exactly the records at most `f - 1` levels below a
/// member of `cs`.
pub proof fn lemma_subtree_list(m: Forest, p: Option<DelegationId>, cs: Seq<DelegationId>, f: nat)
    requires
        well_formed(m),
        sibling_list(m, p, cs),
    ensures
        subtree_list(m, cs, f).no_duplicates(),
        forall|x: DelegationId| #[trigger] subtree_list(m, cs, f).contains(x) <==> (m.contains_key(x.value())
            && exists|c: int, i: nat| #![trigger ancestor(m, x.value(), i), cs[c]]
                0 <= c < cs.len() && i < f && ancestor(m, x.value(), i) == Some(cs[c].value())),
    decreases f, cs.len(),
{
    let list = subtree_list(m, cs, f);
    if cs.len() == 0 || f == 0 {
        assert(list == Seq::<DelegationId>::empty());
    } else {
        let c0 = cs[0];
        let k0 = c0.value();
        assert(m.contains_key(k0) && m[k0].parent_id == p && m[k0].id == c0);
        lemma_depth(m, k0);
        lemma_siblings_exist(m, Some(c0));
        let kids = siblings(m, Some(c0));
        lemma_order_is_list(m, Some(c0), kids);
        let rest = cs.drop_first();
        assert(sibling_list(m, p, rest)) by {
            assert forall|i: int| #![trigger rest[i]] 0 <= i < rest.len() implies m.contains_key(rest[i].value())
                && m[rest[i].value()].parent_id == p && m[rest[i].value()].id == rest[i] by {
                assert(rest[i] == cs[i + 1]);
            }
            assert forall|i: int, j: int| #![trigger rest[i], rest[j]] 0 <= i < j < rest.len() implies rest[i] != rest[j] by {
                assert(rest[i] == cs[i + 1] && rest[j] == cs[j + 1]);
            }
        }
        lemma_subtree_list(m, Some(c0), kids, (f - 1) as nat);
        lemma_subtree_list(m, p, rest, f);
        let a = subtree_list(m, kids, (f - 1) as nat);
        let b = subtree_list(m, rest, f);
        assert(list == seq![c0] + a + b);
        // a member of `a` lies below `c0` by at least one link
        assert forall|x: DelegationId| #[trigger] a.contains(x) implies m.contains_key(x.value()) && exists|i: nat|
            1 <= i < f && #[trigger] ancestor(m, x.value(), i) == Some(k0) by {
            let (c, i) = choose|c: int, i: nat| #![trigger ancestor(m, x.value(), i), kids[c]] 0 <= c < kids.len() && i < (f - 1) as nat && ancestor(m, x.value(), i) == Some(kids[c].value());
            lemma_up_from_child(m, x.value(), i, kids[c].value(), c0);
        }
        // a member of `b` lies below a later sibling
        assert forall|x: DelegationId| #[trigger] b.contains(x) implies m.contains_key(x.value()) && exists|c: int, i: nat| #![trigger ancestor(m, x.value(), i), cs[c]]
            1 <= c < cs.len() && i < f && ancestor(m, x.value(), i) == Some(cs[c].value()) by {
            let (c, i) = choose|c: int, i: nat| #![trigger ancestor(m, x.value(), i), rest[c]] 0 <= c < rest.len() && i < f && ancestor(m, x.value(), i) == Some(rest[c].value());
            assert(rest[c] == cs[c + 1]);
        }
        // membership
        assert forall|x: DelegationId| #[trigger] list.contains(x) <==> (m.contains_key(x.value()) && exists|c: int, i: nat| #![trigger ancestor(m, x.value(), i), cs[c]]
            0 <= c < cs.len() && i < f && ancestor(m, x.value(), i) == Some(cs[c].value())) by {
            if list.contains(x) {
                let t = choose|t: int| 0 <= t < list.len() && list[t] == x;
                if t == 0 {
                    assert(x == c0);
                    assert(ancestor(m, k0, 0) == Some(cs[0].value()));
                } else if t < 1 + a.len() {
                    assert(a[t - 1] == x);
                    assert(a.contains(x));
                    let i = choose|i: nat| 1 <= i < f && #[trigger] ancestor(m, x.value(), i) == Some(k0);
                    assert(ancestor(m, x.value(), i) == Some(cs[0].value()));
                } else {
                    assert(b[t - 1 - a.len()] == x);
                    assert(b.contains(x));
                }
            }
            if m.contains_key(x.value()) && exists|c: int, i: nat| #![trigger ancestor(m, x.value(), i), cs[c]]
                0 <= c < cs.len() && i < f && ancestor(m, x.value(), i) == Some(cs[c].value()) {
                let (c, i) = choose|c: int, i: nat| #![trigger ancestor(m, x.value(), i), cs[c]]
                    0 <= c < cs.len() && i < f && ancestor(m, x.value(), i) == Some(cs[c].value());
                if c == 0 {
                    if i == 0 {
                        assert(x.value() == k0);
                        assert(list[0] == x);
                    } else {
                        lemma_down_to_child(m, x.value(), i, c0);
                        let y = ancestor(m, x.value(), (i - 1) as nat)->0;
                        let t = choose|t: int| 0 <= t < kids.len() && kids[t].value() == y;
                        assert(ancestor(m, x.value(), (i - 1) as nat) == Some(kids[t].value()));
                        assert(a.contains(x));
                        let u = choose|u: int| 0 <= u < a.len() && a[u] == x;
                        assert(list[1 + u] == x);
                    }
                } else {
                    assert(cs[c] == rest[c - 1]);
                    assert(ancestor(m, x.value(), i) == Some(rest[c - 1].value()));
                    assert(b.contains(x));
                    let u = choose|u: int| 0 <= u < b.len() && b[u] == x;
                    assert(list[1 + a.len() + u] == x);
                }
            }
        }
        // distinctness
        assert(!a.contains(c0)) by {
            if a.contains(c0) {
                let i = choose|i: nat| 1 <= i < f && #[trigger] ancestor(m, k0, i) == Some(k0);
                lemma_same_depth_ancestors(m, k0, i, 0);
            }
        }
        assert(!b.contains(c0)) by {
            if b.contains(c0) {
                let (c, i) = choose|c: int, i: nat| #![trigger ancestor(m, k0, i), cs[c]]
                    1 <= c < cs.len() && i < f && ancestor(m, k0, i) == Some(cs[c].value());
                lemma_sibling_depth(m, p, k0, cs[c].value());
                lemma_same_depth_ancestors(m, k0, i, 0);
                assert(cs[0] != cs[c]);
            }
        }
        assert forall|x: DelegationId| a.contains(x) implies !b.contains(x) by {
            if b.contains(x) {
                let i = choose|i: nat| 1 <= i < f && #[trigger] ancestor(m, x.value(), i) == Some(k0);
                let (c, j) = choose|c: int, j: nat| #![trigger ancestor(m, x.value(), j), cs[c]]
                    1 <= c < cs.len() && j < f && ancestor(m, x.value(), j) == Some(cs[c].value());
                lemma_sibling_depth(m, p, k0, cs[c].value());
                lemma_same_depth_ancestors(m, x.value(), i, j);
                assert(cs[0] != cs[c]);
            }
        }
        assert(list.no_duplicates()) by {
            assert forall|s: int, t: int| 0 <= s < list.len() && 0 <= t < list.len() && s != t implies list[s] != list[t] by {
                if s == 0 || t == 0 {
                    let o = if s == 0 { t } else { s };
                    if o < 1 + a.len() {
                        assert(list[o] == a[o - 1]);
                        assert(a.contains(list[o]));
                    } else {
                        assert(list[o] == b[o - 1 - a.len()]);
                        assert(b.contains(list[o]));
                    }
                } else if s < 1 + a.len() && t < 1 + a.len() {
                    assert(list[s] == a[s - 1] && list[t] == a[t - 1]);
                } else if s >= 1 + a.len() && t >= 1 + a.len() {
                    assert(list[s] == b[s - 1 - a.len()] && list[t] == b[t - 1 - a.len()]);
                } else {
                    let (ia, ib) = if s < t { (s, t) } else { (t, s) };
                    assert(list[ia] == a[ia - 1]);
                    assert(list[ib] == b[ib - 1 - a.len()]);
                    assert(a.contains(list[ia]));
                    assert(b.contains(list[ib]));
                }
            }
        }
    }
}


/// A record whose depth is `d` reaches, `d` links up, a root of the forest.
proof fn lemma_root_above(m: Forest, x: u64)
    requires
        well_formed(m),
        m.contains_key(x),
    ensures
        depth(m, x) < m.dom().len(),
        ancestor(m, x, depth(m, x)) is Some,
        m.contains_key(ancestor(m, x, depth(m, x))->0),
        m[ancestor(m, x, depth(m, x))->0].parent_id is None,
{
    lemma_depth(m, x);
    lemma_ancestor_depth(m, x, depth(m, x));
    let r = ancestor(m, x, depth(m, x))->0;
    lemma_depth(m, r);
    if m[r].parent_id is Some {
        lemma_child_depth(m, r);
    }
}

/// Preorder lists every record of the forest exactly once.
pub proof fn lemma_preorder_lists_each_record_once(m: Forest)
    requires
        well_formed(m),
    ensures
        preorder_of(m).no_duplicates(),
        forall|x: DelegationId| #[trigger] preorder_of(m).contains(x) <==> m.contains_key(x.value()),
{
    let roots = siblings(m, None);
    lemma_siblings_exist(m, None);
    lemma_order_is_list(m, None, roots);
    let n = m.dom().len();
    lemma_subtree_list(m, None, roots, n);
    assert forall|x: DelegationId| m.contains_key(x.value()) implies #[trigger] preorder_of(m).contains(x) by {
        let k = x.value();
        lemma_root_above(m, k);
        let d = depth(m, k);
        let r = ancestor(m, k, d)->0;
        assert(m.contains_key(r) && m[r].parent_id == None::<DelegationId>);
        let c = choose|c: int| 0 <= c < roots.len() && roots[c].value() == r;
        assert(ancestor(m, k, d) == Some(roots[c].value()));
    }
}

/// The descendants of a record are exactly the records strictly below it,
/// each listed once.
pub proof fn lemma_descendants_are_strictly_below(m: Forest, id: DelegationId)
    requires
        well_formed(m),
        m.contains_key(id.value()),
    ensures
        descendants_of(m, id).no_duplicates(),
        forall|x: DelegationId| #[trigger] descendants_of(m, id).contains(x) <==> (m.contains_key(x.value())
            && strictly_below(m, x.value(), id.value())),
{
    let kids = siblings(m, Some(id));
    lemma_siblings_exist(m, Some(id));
    lemma_order_is_list(m, Some(id), kids);
    let n = m.dom().len();
    lemma_subtree_list(m, Some(id), kids, n);
    assert forall|x: DelegationId| #[trigger] descendants_of(m, id).contains(x) implies strictly_below(m, x.value(), id.value()) by {
        let (c, i) = choose|c: int, i: nat| #![trigger ancestor(m, x.value(), i), kids[c]]
            0 <= c < kids.len() && i < n && ancestor(m, x.value(), i) == Some(kids[c].value());
        lemma_up_from_child(m, x.value(), i, kids[c].value(), id);
    }
    assert forall|x: DelegationId| m.contains_key(x.value()) && strictly_below(m, x.value(), id.value())
        implies #[trigger] descendants_of(m, id).contains(x) by {
        let k = x.value();
        let j = choose|j: nat| j >= 1 && #[trigger] ancestor(m, k, j) == Some(id.value());
        lemma_depth(m, k);
        if j > depth(m, k) {
            lemma_ancestor_past_root(m, k, j);
        }
        lemma_down_to_child(m, k, j, id);
        let y = ancestor(m, k, (j - 1) as nat)->0;
        let c = choose|c: int| 0 <= c < kids.len() && kids[c].value() == y;
        assert(ancestor(m, k, (j - 1) as nat) == Some(kids[c].value()));
    }
}

/// The identities of projection entries.
pub open spec fn entry_ids(s: Seq<ProjectionEntry>) -> Seq<DelegationId> {
    s.map_values(|e: ProjectionEntry| e.id)
}

/// Every record met walking up `i` links from `x`, `x` included, is in `inc`.
pub open spec fn chain_included(m: Forest, inc: Set<u64>, x: u64, i: nat) -> bool {
    forall|j: nat| j <= i ==> (#[trigger] ancestor(m, x, j)) is Some && inc.contains(ancestor(m, x, j)->0)
}

proof fn lemma_entry_ids_concat(a: Seq<ProjectionEntry>, b: Seq<ProjectionEntry>)
    ensures
        entry_ids(a + b) == entry_ids(a) + entry_ids(b),
{
    assert(entry_ids(a + b) =~= entry_ids(a) + entry_ids(b));
}

/// The projected listing of `cs` holds each identity at most once, and holds
/// exactly the records at most `f - 1` levels below a member of `cs` whose
/// whole way up to that member runs through included records.
pub proof fn lemma_projected_list(
    m: Forest,
    inc: Set<u64>,
    p: Option<DelegationId>,
    cs: Seq<DelegationId>,
    depth: nat,
    f: nat,
)
    requires
        well_formed(m),
        sibling_list(m, p, cs),
    ensures
        entry_ids(projected_list(m, inc, cs, depth, f)).no_duplicates(),
        forall|x: DelegationId| #[trigger] entry_ids(projected_list(m, inc, cs, depth, f)).contains(x) <==> (
        m.contains_key(x.value()) && exists|c: int, i: nat| #![trigger ancestor(m, x.value(), i), cs[c]]
            0 <= c < cs.len() && i < f && ancestor(m, x.value(), i) == Some(cs[c].value())
                && chain_included(m, inc, x.value(), i)),
    decreases f, cs.len(),
{
    let list = entry_ids(projected_list(m, inc, cs, depth, f));
    if cs.len() == 0 || f == 0 {
        assert(list =~= Seq::<DelegationId>::empty());
    } else {
        let c0 = cs[0];
        let k0 = c0.value();
        assert(m.contains_key(k0) && m[k0].parent_id == p && m[k0].id == c0);
        lemma_depth(m, k0);
        lemma_siblings_exist(m, Some(c0));
        let kids = siblings(m, Some(c0));
        lemma_order_is_list(m, Some(c0), kids);
        let rest = cs.drop_first();
        assert(sibling_list(m, p, rest)) by {
            assert forall|i: int| #![trigger rest[i]] 0 <= i < rest.len() implies m.contains_key(rest[i].value())
                && m[rest[i].value()].parent_id == p && m[rest[i].value()].id == rest[i] by {
                assert(rest[i] == cs[i + 1]);
            }
            assert forall|i: int, j: int| #![trigger rest[i], rest[j]] 0 <= i < j < rest.len() implies rest[i] != rest[j] by {
                assert(rest[i] == cs[i + 1] && rest[j] == cs[j + 1]);
            }
        }
        lemma_projected_list(m, inc, Some(c0), kids, depth + 1, (f - 1) as nat);
        lemma_projected_list(m, inc, p, rest, depth, f);
        let pa = projected_list(m, inc, kids, depth + 1, (f - 1) as nat);
        let pb = projected_list(m, inc, rest, depth, f);
        let a = entry_ids(pa);
        let b = entry_ids(pb);
        let head = if inc.contains(k0) {
            seq![ProjectionEntry { id: c0, depth: depth as usize, external_parent_id: None }] + pa
        } else {
            Seq::<ProjectionEntry>::empty()
        };
        assert(projected_list(m, inc, cs, depth, f) == head + pb);
        lemma_entry_ids_concat(head, pb);
        let h = entry_ids(head);
        if inc.contains(k0) {
            lemma_entry_ids_concat(seq![ProjectionEntry { id: c0, depth: depth as usize, external_parent_id: None }], pa);
            assert(h =~= seq![c0] + a);
        } else {
            assert(h =~= Seq::<DelegationId>::empty());
        }
        assert(list == h + b);
        // a member of `a` lies below `c0` along included records
        assert forall|x: DelegationId| #[trigger] a.contains(x) implies m.contains_key(x.value()) && exists|i: nat|
            1 <= i < f && #[trigger] ancestor(m, x.value(), i) == Some(k0) && chain_included(m, inc, x.value(), (i - 1) as nat) by {
            let (c, i) = choose|c: int, i: nat| #![trigger ancestor(m, x.value(), i), kids[c]]
                0 <= c < kids.len() && i < (f - 1) as nat && ancestor(m, x.value(), i) == Some(kids[c].value())
                    && chain_included(m, inc, x.value(), i);
            lemma_up_from_child(m, x.value(), i, kids[c].value(), c0);
            assert(((i + 1) - 1) as nat == i);
        }
        // a member of `b` lies below a later sibling
        assert forall|x: DelegationId| #[trigger] b.contains(x) implies m.contains_key(x.value()) && exists|c: int, i: nat|
            #![trigger ancestor(m, x.value(), i), cs[c]]
            1 <= c < cs.len() && i < f && ancestor(m, x.value(), i) == Some(cs[c].value())
                && chain_included(m, inc, x.value(), i) by {
            let (c, i) = choose|c: int, i: nat| #![trigger ancestor(m, x.value(), i), rest[c]]
                0 <= c < rest.len() && i < f && ancestor(m, x.value(), i) == Some(rest[c].value())
                    && chain_included(m, inc, x.value(), i);
            assert(rest[c] == cs[c + 1]);
        }
        // membership
        assert forall|x: DelegationId| #[trigger] list.contains(x) <==> (m.contains_key(x.value()) && exists|c: int, i: nat|
            #![trigger ancestor(m, x.value(), i), cs[c]]
            0 <= c < cs.len() && i < f && ancestor(m, x.value(), i) == Some(cs[c].value())
                && chain_included(m, inc, x.value(), i)) by {
            if list.contains(x) {
                let t = choose|t: int| 0 <= t < list.len() && list[t] == x;
                if t < h.len() {
                    if t == 0 {
                        assert(x == c0);
                        assert(ancestor(m, k0, 0) == Some(cs[0].value()));
                        assert(chain_included(m, inc, k0, 0)) by {
                            assert forall|j: nat| j <= 0 implies (#[trigger] ancestor(m, k0, j)) is Some && inc.contains(ancestor(m, k0, j)->0) by {
                                assert(j == 0);
                            }
                        }
                    } else {
                        assert(a[t - 1] == x);
                        assert(a.contains(x));
                        let i = choose|i: nat| 1 <= i < f && #[trigger] ancestor(m, x.value(), i) == Some(k0)
                            && chain_included(m, inc, x.value(), (i - 1) as nat);
                        assert(ancestor(m, x.value(), i) == Some(cs[0].value()));
                        assert(chain_included(m, inc, x.value(), i)) by {
                            assert forall|j: nat| j <= i implies (#[trigger] ancestor(m, x.value(), j)) is Some
                                && inc.contains(ancestor(m, x.value(), j)->0) by {
                                if j < i {
                                    assert(j <= (i - 1) as nat);
                                }
                            }
                        }
                    }
                } else {
                    assert(b[t - h.len()] == x);
                    assert(b.contains(x));
                }
            }
            if m.contains_key(x.value()) && exists|c: int, i: nat| #![trigger ancestor(m, x.value(), i), cs[c]]
                0 <= c < cs.len() && i < f && ancestor(m, x.value(), i) == Some(cs[c].value())
                    && chain_included(m, inc, x.value(), i) {
                let (c, i) = choose|c: int, i: nat| #![trigger ancestor(m, x.value(), i), cs[c]]
                    0 <= c < cs.len() && i < f && ancestor(m, x.value(), i) == Some(cs[c].value())
                        && chain_included(m, inc, x.value(), i);
                if c == 0 {
                    assert(ancestor(m, x.value(), i) is Some && inc.contains(ancestor(m, x.value(), i)->0));
                    assert(inc.contains(k0));
                    if i == 0 {
                        assert(x.value() == k0);
                        assert(h[0] == c0);
                        assert(list[0] == x);
                    } else {
                        lemma_down_to_child(m, x.value(), i, c0);
                        let y = ancestor(m, x.value(), (i - 1) as nat)->0;
                        let t = choose|t: int| 0 <= t < kids.len() && kids[t].value() == y;
                        assert(ancestor(m, x.value(), (i - 1) as nat) == Some(kids[t].value()));
                        assert(chain_included(m, inc, x.value(), (i - 1) as nat)) by {
                            assert forall|j: nat| j <= (i - 1) as nat implies (#[trigger] ancestor(m, x.value(), j)) is Some
                                && inc.contains(ancestor(m, x.value(), j)->0) by {
                                assert(j <= i);
                            }
                        }
                        assert(a.contains(x));
                        let u = choose|u: int| 0 <= u < a.len() && a[u] == x;
                        assert(h[1 + u] == x);
                        assert(list[1 + u] == x);
                    }
                } else {
                    assert(cs[c] == rest[c - 1]);
                    assert(ancestor(m, x.value(), i) == Some(rest[c - 1].value()));
                    assert(b.contains(x));
                    let u = choose|u: int| 0 <= u < b.len() && b[u] == x;
                    assert(list[h.len() + u] == x);
                }
            }
        }
        // distinctness
        assert(!a.contains(c0)) by {
            if a.contains(c0) {
                let i = choose|i: nat| 1 <= i < f && #[trigger] ancestor(m, k0, i) == Some(k0)
                    && chain_included(m, inc, k0, (i - 1) as nat);
                lemma_same_depth_ancestors(m, k0, i, 0);
            }
        }
        assert(!b.contains(c0)) by {
            if b.contains(c0) {
                let (c, i) = choose|c: int, i: nat| #![trigger ancestor(m, k0, i), cs[c]]
                    1 <= c < cs.len() && i < f && ancestor(m, k0, i) == Some(cs[c].value())
                        && chain_included(m, inc, k0, i);
                lemma_sibling_depth(m, p, k0, cs[c].value());
                lemma_same_depth_ancestors(m, k0, i, 0);
                assert(cs[0] != cs[c]);
            }
        }
        assert forall|x: DelegationId| a.contains(x) implies !b.contains(x) by {
            if b.contains(x) {
                let i = choose|i: nat| 1 <= i < f && #[trigger] ancestor(m, x.value(), i) == Some(k0)
                    && chain_included(m, inc, x.value(), (i - 1) as nat);
                let (c, j) = choose|c: int, j: nat| #![trigger ancestor(m, x.value(), j), cs[c]]
                    1 <= c < cs.len() && j < f && ancestor(m, x.value(), j) == Some(cs[c].value())
                        && chain_included(m, inc, x.value(), j);
                lemma_sibling_depth(m, p, k0, cs[c].value());
                lemma_same_depth_ancestors(m, x.value(), i, j);
                assert(cs[0] != cs[c]);
            }
        }
        assert(h.no_duplicates()) by {
            if inc.contains(k0) {
                assert forall|s1: int, t1: int| 0 <= s1 < h.len() && 0 <= t1 < h.len() && s1 != t1 implies h[s1] != h[t1] by {
                    if s1 == 0 || t1 == 0 {
                        let o = if s1 == 0 { t1 } else { s1 };
                        assert(h[o] == a[o - 1]);
                        assert(a.contains(h[o]));
                    } else {
                        assert(h[s1] == a[s1 - 1] && h[t1] == a[t1 - 1]);
                    }
                }
            }
        }
        assert forall|x: DelegationId| h.contains(x) implies !b.contains(x) by {
            let t = choose|t: int| 0 <= t < h.len() && h[t] == x;
            if t == 0 {
                assert(x == c0);
            } else {
                assert(h[t] == a[t - 1]);
                assert(a.contains(x));
            }
        }
        assert(list.no_duplicates()) by {
            assert forall|s1: int, t1: int| 0 <= s1 < list.len() && 0 <= t1 < list.len() && s1 != t1 implies list[s1] != list[t1] by {
                if s1 < h.len() && t1 < h.len() {
                    assert(list[s1] == h[s1] && list[t1] == h[t1]);
                } else if s1 >= h.len() && t1 >= h.len() {
                    assert(list[s1] == b[s1 - h.len()] && list[t1] == b[t1 - h.len()]);
                } else {
                    let (ia, ib) = if s1 < t1 { (s1, t1) } else { (t1, s1) };
                    assert(list[ia] == h[ia]);
                    assert(list[ib] == b[ib - h.len()]);
                    assert(h.contains(list[ia]));
                    assert(b.contains(list[ib]));
                }
            }
        }
    }
}

/// Record `k` is included and its parent is not: it roots a local tree.
pub open spec fn local_root(m: Forest, inc: Set<u64>, k: u64) -> bool {
    m.contains_key(k) && inc.contains(k) && !parent_included(m, inc, k)
}

/// A local tree holds each identity once: its root, then exactly the records
/// whose way up to the root runs through included records.
proof fn lemma_local_tree(m: Forest, inc: Set<u64>, r: DelegationId)
    requires
        well_formed(m),
    ensures
        entry_ids(local_tree(m, inc, r)).no_duplicates(),
        forall|x: DelegationId| #[trigger] entry_ids(local_tree(m, inc, r)).contains(x) <==> (local_root(m, inc, r.value())
            && m.contains_key(x.value()) && exists|i: nat| #[trigger] ancestor(m, x.value(), i) == Some(r.value())
                && chain_included(m, inc, x.value(), i)),
{
    let k = r.value();
    let list = entry_ids(local_tree(m, inc, r));
    if !local_root(m, inc, k) {
        assert(list =~= Seq::<DelegationId>::empty());
    } else {
        let n = m.dom().len();
        lemma_siblings_exist(m, Some(r));
        let kids = siblings(m, Some(r));
        lemma_order_is_list(m, Some(r), kids);
        lemma_projected_list(m, inc, Some(r), kids, 1, n);
        let pa = projected_list(m, inc, kids, 1, n);
        let a = entry_ids(pa);
        let e0 = ProjectionEntry { id: r, depth: 0, external_parent_id: m[k].parent_id };
        assert(local_tree(m, inc, r) == seq![e0] + pa);
        lemma_entry_ids_concat(seq![e0], pa);
        assert(list =~= seq![r] + a);
        assert forall|x: DelegationId| #[trigger] list.contains(x) <==> (m.contains_key(x.value()) && exists|i: nat|
            #[trigger] ancestor(m, x.value(), i) == Some(k) && chain_included(m, inc, x.value(), i)) by {
            if list.contains(x) {
                let t = choose|t: int| 0 <= t < list.len() && list[t] == x;
                if t == 0 {
                    assert(x == r);
                    assert(ancestor(m, k, 0) == Some(k));
                    assert(chain_included(m, inc, k, 0)) by {
                        assert forall|j: nat| j <= 0 implies (#[trigger] ancestor(m, k, j)) is Some
                            && inc.contains(ancestor(m, k, j)->0) by {
                            assert(j == 0);
                        }
                    }
                } else {
                    assert(a[t - 1] == x);
                    assert(a.contains(x));
                    let (c, i) = choose|c: int, i: nat| #![trigger ancestor(m, x.value(), i), kids[c]]
                        0 <= c < kids.len() && i < n && ancestor(m, x.value(), i) == Some(kids[c].value())
                            && chain_included(m, inc, x.value(), i);
                    lemma_up_from_child(m, x.value(), i, kids[c].value(), r);
                    assert(chain_included(m, inc, x.value(), i + 1)) by {
                        assert forall|j: nat| j <= i + 1 implies (#[trigger] ancestor(m, x.value(), j)) is Some
                            && inc.contains(ancestor(m, x.value(), j)->0) by {
                            if j <= i {
                                assert(ancestor(m, x.value(), j) is Some);
                            }
                        }
                    }
                }
            }
            if m.contains_key(x.value()) && exists|i: nat| #[trigger] ancestor(m, x.value(), i) == Some(k)
                && chain_included(m, inc, x.value(), i) {
                let i = choose|i: nat| #[trigger] ancestor(m, x.value(), i) == Some(k) && chain_included(m, inc, x.value(), i);
                if i == 0 {
                    assert(x.value() == k);
                    assert(list[0] == x);
                } else {
                    lemma_depth(m, x.value());
                    if i > depth(m, x.value()) {
                        lemma_ancestor_past_root(m, x.value(), i);
                    }
                    lemma_down_to_child(m, x.value(), i, r);
                    let y = ancestor(m, x.value(), (i - 1) as nat)->0;
                    let c = choose|c: int| 0 <= c < kids.len() && kids[c].value() == y;
                    assert(ancestor(m, x.value(), (i - 1) as nat) == Some(kids[c].value()));
                    assert(chain_included(m, inc, x.value(), (i - 1) as nat)) by {
                        assert forall|j: nat| j <= (i - 1) as nat implies (#[trigger] ancestor(m, x.value(), j)) is Some
                            && inc.contains(ancestor(m, x.value(), j)->0) by {
                            assert(j <= i);
                        }
                    }
                    assert(a.contains(x));
                    let u = choose|u: int| 0 <= u < a.len() && a[u] == x;
                    assert(list[1 + u] == x);
                }
            }
        }
        assert(!a.contains(r)) by {
            if a.contains(r) {
                let (c, i) = choose|c: int, i: nat| #![trigger ancestor(m, k, i), kids[c]]
                    0 <= c < kids.len() && i < n && ancestor(m, k, i) == Some(kids[c].value())
                        && chain_included(m, inc, k, i);
                lemma_up_from_child(m, k, i, kids[c].value(), r);
                lemma_same_depth_ancestors(m, k, i + 1, 0);
            }
        }
        assert(list.no_duplicates()) by {
            assert forall|s1: int, t1: int| 0 <= s1 < list.len() && 0 <= t1 < list.len() && s1 != t1 implies list[s1] != list[t1] by {
                if s1 == 0 || t1 == 0 {
                    let o = if s1 == 0 { t1 } else { s1 };
                    assert(list[o] == a[o - 1]);
                    assert(a.contains(list[o]));
                } else {
                    assert(list[s1] == a[s1 - 1] && list[t1] == a[t1 - 1]);
                }
            }
        }
    }
}

/// No record lies in the local trees of two different roots.
proof fn lemma_local_trees_disjoint(m: Forest, inc: Set<u64>, x: u64, i1: nat, i2: nat)
    requires
        well_formed(m),
        ancestor(m, x, i1) is Some,
        ancestor(m, x, i2) is Some,
        local_root(m, inc, ancestor(m, x, i1)->0),
        local_root(m, inc, ancestor(m, x, i2)->0),
        chain_included(m, inc, x, i1),
        chain_included(m, inc, x, i2),
    ensures
        i1 == i2,
{
    if i1 != i2 {
        let (lo, hi) = if i1 < i2 { (i1, i2) } else { (i2, i1) };
        let r = ancestor(m, x, lo)->0;
        assert(ancestor(m, x, lo + 1) is Some && inc.contains(ancestor(m, x, lo + 1)->0)) by {
            assert(lo + 1 <= hi);
        }
        assert(ancestor(m, x, lo + 1) == parent_key(m[r]));
    }
}

/// The entries of the local trees of `ids`.
proof fn lemma_local_trees(m: Forest, inc: Set<u64>, ids: Seq<DelegationId>)
    requires
        well_formed(m),
        ids.no_duplicates(),
    ensures
        entry_ids(local_trees(m, inc, ids)).no_duplicates(),
        forall|x: DelegationId| #[trigger] entry_ids(local_trees(m, inc, ids)).contains(x) <==> exists|t: int|
            0 <= t < ids.len() && #[trigger] entry_ids(local_tree(m, inc, ids[t])).contains(x),
    decreases ids.len(),
{
    let list = entry_ids(local_trees(m, inc, ids));
    if ids.len() == 0 {
        assert(list =~= Seq::<DelegationId>::empty());
    } else {
        let init = ids.drop_last();
        let r = ids.last();
        lemma_local_trees(m, inc, init);
        lemma_local_tree(m, inc, r);
        let a = entry_ids(local_trees(m, inc, init));
        let b = entry_ids(local_tree(m, inc, r));
        lemma_entry_ids_concat(local_trees(m, inc, init), local_tree(m, inc, r));
        assert(list == a + b);
        assert forall|x: DelegationId| #[trigger] list.contains(x) <==> exists|t: int|
            0 <= t < ids.len() && #[trigger] entry_ids(local_tree(m, inc, ids[t])).contains(x) by {
            if list.contains(x) {
                let u = choose|u: int| 0 <= u < list.len() && list[u] == x;
                if u < a.len() {
                    assert(a[u] == x);
                    assert(a.contains(x));
                    let t = choose|t: int| 0 <= t < init.len() && #[trigger] entry_ids(local_tree(m, inc, init[t])).contains(x);
                    assert(init[t] == ids[t]);
                    assert(entry_ids(local_tree(m, inc, ids[t])).contains(x));
                } else {
                    assert(b[u - a.len()] == x);
                    assert(b.contains(x));
                    assert(ids[ids.len() - 1] == r);
                    assert(entry_ids(local_tree(m, inc, ids[ids.len() - 1])).contains(x));
                }
            }
            if exists|t: int| 0 <= t < ids.len() && #[trigger] entry_ids(local_tree(m, inc, ids[t])).contains(x) {
                let t = choose|t: int| 0 <= t < ids.len() && #[trigger] entry_ids(local_tree(m, inc, ids[t])).contains(x);
                if t < ids.len() - 1 {
                    assert(init[t] == ids[t]);
                    assert(a.contains(x));
                    let u = choose|u: int| 0 <= u < a.len() && a[u] == x;
                    assert(list[u] == x);
                } else {
                    assert(ids[t] == r);
                    let u = choose|u: int| 0 <= u < b.len() && b[u] == x;
                    assert(list[a.len() + u] == x);
                }
            }
        }
        assert forall|x: DelegationId| a.contains(x) implies !b.contains(x) by {
            if b.contains(x) {
                let t = choose|t: int| 0 <= t < init.len() && #[trigger] entry_ids(local_tree(m, inc, init[t])).contains(x);
                let q = init[t];
                lemma_local_tree(m, inc, q);
                let i1 = choose|i: nat| #[trigger] ancestor(m, x.value(), i) == Some(q.value()) && chain_included(m, inc, x.value(), i);
                let i2 = choose|i: nat| #[trigger] ancestor(m, x.value(), i) == Some(r.value()) && chain_included(m, inc, x.value(), i);
                lemma_local_trees_disjoint(m, inc, x.value(), i1, i2);
                assert(init[t] == ids[t] && r == ids[ids.len() - 1]);
                assert(q.value() == r.value());
            }
        }
        assert(list.no_duplicates()) by {
            assert forall|s1: int, t1: int| 0 <= s1 < list.len() && 0 <= t1 < list.len() && s1 != t1 implies list[s1] != list[t1] by {
                if s1 < a.len() && t1 < a.len() {
                    assert(list[s1] == a[s1] && list[t1] == a[t1]);
                } else if s1 >= a.len() && t1 >= a.len() {
                    assert(list[s1] == b[s1 - a.len()] && list[t1] == b[t1 - a.len()]);
                } else {
                    let (ia, ib) = if s1 < t1 { (s1, t1) } else { (t1, s1) };
                    assert(list[ia] == a[ia]);
                    assert(list[ib] == b[ib - a.len()]);
                    assert(a.contains(list[ia]));
                    assert(b.contains(list[ib]));
                }
            }
        }
    }
}

/// Walking up from an included record through included records reaches the
/// root of its local tree.
proof fn lemma_find_local_root(m: Forest, inc: Set<u64>, x: u64, i: nat) -> (top: nat)
    requires
        well_formed(m),
        m.contains_key(x),
        ancestor(m, x, i) is Some,
        chain_included(m, inc, x, i),
    ensures
        ancestor(m, x, top) is Some,
        local_root(m, inc, ancestor(m, x, top)->0),
        chain_included(m, inc, x, top),
    decreases depth(m, x) - i,
{
    if i > depth(m, x) {
        lemma_ancestor_past_root(m, x, i);
    }
    lemma_ancestor_depth(m, x, i);
    let a = ancestor(m, x, i)->0;
    assert(inc.contains(a)) by {
        assert(ancestor(m, x, i) is Some && inc.contains(ancestor(m, x, i)->0));
    }
    if !parent_included(m, inc, a) {
        i
    } else {
        let pid = m[a].parent_id->0;
        assert(ancestor(m, x, i + 1) == Some(pid.value()));
        lemma_child_depth(m, a);
        assert(chain_included(m, inc, x, i + 1)) by {
            assert forall|j: nat| j <= i + 1 implies (#[trigger] ancestor(m, x, j)) is Some
                && inc.contains(ancestor(m, x, j)->0) by {
                if j <= i {
                    assert(ancestor(m, x, j) is Some);
                }
            }
        }
        lemma_find_local_root(m, inc, x, i + 1)
    }
}

/// The projection onto `inc` lists every included record of the forest
/// exactly once, and nothing else.
pub proof fn lemma_projection_lists_included_once(m: Forest, inc: Set<u64>)
    requires
        well_formed(m),
    ensures
        entry_ids(projection_of(m, inc)).no_duplicates(),
        forall|x: DelegationId| #[trigger] entry_ids(projection_of(m, inc)).contains(x) <==> (m.contains_key(x.value())
            && inc.contains(x.value())),
{
    let order = preorder_of(m);
    lemma_preorder_lists_each_record_once(m);
    lemma_local_trees(m, inc, order);
    let list = entry_ids(projection_of(m, inc));
    assert forall|x: DelegationId| #[trigger] list.contains(x) <==> (m.contains_key(x.value()) && inc.contains(x.value())) by {
        if list.contains(x) {
            let t = choose|t: int| 0 <= t < order.len() && #[trigger] entry_ids(local_tree(m, inc, order[t])).contains(x);
            lemma_local_tree(m, inc, order[t]);
            let i = choose|i: nat| #[trigger] ancestor(m, x.value(), i) == Some(order[t].value())
                && chain_included(m, inc, x.value(), i);
            assert(ancestor(m, x.value(), 0) is Some && inc.contains(ancestor(m, x.value(), 0)->0));
        }
        if m.contains_key(x.value()) && inc.contains(x.value()) {
            let k = x.value();
            assert(chain_included(m, inc, k, 0)) by {
                assert forall|j: nat| j <= 0 implies (#[trigger] ancestor(m, k, j)) is Some
                    && inc.contains(ancestor(m, k, j)->0) by {
                    assert(j == 0);
                }
            }
            let top = lemma_find_local_root(m, inc, k, 0);
            let rk = ancestor(m, k, top)->0;
            let rid = m[rk].id;
            assert(rid.value() == rk);
            assert(order.contains(rid));
            let t = choose|t: int| 0 <= t < order.len() && order[t] == rid;
            lemma_local_tree(m, inc, rid);
            assert(ancestor(m, k, top) == Some(rid.value()));
            assert(entry_ids(local_tree(m, inc, order[t])).contains(x));
        }
    }
}

} // verus!
