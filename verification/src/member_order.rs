//! The order in which a collection displays its members: the active section,
//! then the archived one; within each, the members carrying delegations in
//! the preorder of their provenance forest, then the others in member order.

use std::collections::HashSet;
use vstd::prelude::*;
use vstd::std_specs::hash::group_hash_axioms;
use crate::delegation::{Delegations, ProjectionEntry};
use crate::forest::{Forest, well_formed};
use crate::ids::{PaneId, lemma_delegation_id_value_injective, lemma_pane_id_value_injective};
use crate::layout::{PaneCollection, contains_pane};
use crate::projection::{projection_of, records_on_panes};
use crate::traversal::{entry_ids, lemma_projection_lists_included_once};

verus! {

broadcast use {lemma_pane_id_value_injective, lemma_delegation_id_value_injective, group_hash_axioms};

/// The members of `c` in the active (`archived` false) or the archived
/// section, in member order.
pub open spec fn section(c: PaneCollection, archived: bool) -> Seq<PaneId> {
    c.member_list().filter(|p: PaneId| c.archived_set().contains(p) == archived)
}

/// The panes carried by the records of `entries`, in entry order.
pub open spec fn entry_panes(m: Forest, entries: Seq<ProjectionEntry>) -> Seq<PaneId>
    decreases entries.len(),
{
    if entries.len() == 0 {
        seq![]
    } else {
        let rest = entry_panes(m, entries.drop_last());
        let k = entries.last().id.value();
        if m.contains_key(k) && m[k].pane_id is Some {
            rest.push(m[k].pane_id->0)
        } else {
            rest
        }
    }
}

/// The numbers of the panes of `s`.
pub open spec fn pane_numbers(s: Seq<PaneId>) -> Set<u32> {
    s.map_values(|p: PaneId| p.value()).to_set()
}

/// One section in display order: the panes whose records the forest
/// preorder of the section reaches, then the section's other members.
pub open spec fn section_order(m: Forest, s: Seq<PaneId>) -> Seq<PaneId> {
    let placed = entry_panes(m, projection_of(m, records_on_panes(m, pane_numbers(s))));
    placed + s.filter(|p: PaneId| !placed.contains(p))
}

/// The display order of the members of `c`.
pub open spec fn display_order(m: Forest, c: PaneCollection) -> Seq<PaneId> {
    section_order(m, section(c, false)) + section_order(m, section(c, true))
}

fn section_members(collection: &PaneCollection, archived: bool) -> (r: Vec<PaneId>)
    ensures
        r@ == section(*collection, archived),
{
    let members = collection.members();
    let ghost pred = |p: PaneId| collection.archived_set().contains(p) == archived;
    let mut out: Vec<PaneId> = Vec::new();
    let mut i: usize = 0;
    while i < members.len()
        invariant
            members@ == collection.member_list(),
            pred == (|p: PaneId| collection.archived_set().contains(p) == archived),
            0 <= i <= members@.len(),
            out@ == members@.take(i as int).filter(pred),
        decreases members@.len() - i,
    {
        let p = members[i];
        proof {
            assert(members@.take(i + 1).drop_last() =~= members@.take(i as int));
            assert(members@.take(i + 1).last() == p);
            reveal(Seq::filter);
        }
        if collection.is_archived(p) == archived {
            out.push(p);
        }
        i = i + 1;
    }
    assert(members@.take(members@.len() as int) =~= members@);
    out
}

fn number_set(s: &Vec<PaneId>) -> (r: HashSet<u32>)
    ensures
        r@ == pane_numbers(s@),
{
    let mut set: HashSet<u32> = HashSet::new();
    let mut i: usize = 0;
    while i < s.len()
        invariant
            0 <= i <= s@.len(),
            set@ == pane_numbers(s@.take(i as int)),
        decreases s@.len() - i,
    {
        let ghost before = set@;
        set.insert(s[i].raw());
        proof {
            let t = s@.take(i + 1);
            assert(t.map_values(|p: PaneId| p.value()) =~= s@.take(i as int).map_values(|p: PaneId| p.value()).push(
                s@[i as int].value(),
            ));
            s@.take(i as int).map_values(|p: PaneId| p.value()).lemma_push_to_set_commute(s@[i as int].value());
        }
        i = i + 1;
    }
    assert(s@.take(s@.len() as int) =~= s@);
    set
}

fn order_section(delegations: &Delegations, section: Vec<PaneId>, ordered: &mut Vec<PaneId>)
    ensures
        final(ordered)@ == old(ordered)@ + section_order(delegations@, section@),
{
    let ghost m = delegations@;
    let numbers = number_set(&section);
    let entries = delegations.preorder_for_panes(&numbers);
    let ghost start = ordered@;
    let mut placed: Vec<PaneId> = Vec::new();
    let mut j: usize = 0;
    while j < entries.len()
        invariant
            m == delegations@,
            0 <= j <= entries@.len(),
            placed@ == entry_panes(m, entries@.take(j as int)),
            ordered@ == start + placed@,
        decreases entries@.len() - j,
    {
        proof {
            assert(entries@.take(j + 1).drop_last() =~= entries@.take(j as int));
        }
        match delegations.get(entries[j].id) {
            Some(record) => match record.pane_id {
                Some(pane) => {
                    placed.push(pane);
                    ordered.push(pane);
                },
                None => {},
            },
            None => {},
        }
        j = j + 1;
    }
    assert(entries@.take(entries@.len() as int) =~= entries@);
    let ghost pred = |p: PaneId| !placed@.contains(p);
    let ghost mid = ordered@;
    let mut i: usize = 0;
    while i < section.len()
        invariant
            0 <= i <= section@.len(),
            pred == (|p: PaneId| !placed@.contains(p)),
            ordered@ == mid + section@.take(i as int).filter(pred),
        decreases section@.len() - i,
    {
        let p = section[i];
        proof {
            assert(section@.take(i + 1).drop_last() =~= section@.take(i as int));
            assert(section@.take(i + 1).last() == p);
            reveal(Seq::filter);
        }
        if !contains_pane(&placed, p) {
            ordered.push(p);
        }
        i = i + 1;
    }
    assert(section@.take(section@.len() as int) =~= section@);
}

/// The members of `collection` in display order.
pub fn canonical_member_order(collection: &PaneCollection, delegations: &Delegations) -> (r: Vec<PaneId>)
    ensures
        r@ == display_order(delegations@, *collection),
{
    let mut ordered: Vec<PaneId> = Vec::new();
    let active = section_members(collection, false);
    order_section(delegations, active, &mut ordered);
    let archived = section_members(collection, true);
    order_section(delegations, archived, &mut ordered);
    assert(ordered@ =~= display_order(delegations@, *collection));
    ordered
}

/// A filtered sequence keeps exactly the elements that pass, each as often as before.
proof fn lemma_filter_facts(s: Seq<PaneId>, pred: spec_fn(PaneId) -> bool)
    ensures
        forall|x: PaneId| #[trigger] s.filter(pred).contains(x) <==> s.contains(x) && pred(x),
        s.no_duplicates() ==> s.filter(pred).no_duplicates(),
    decreases s.len(),
{
    reveal(Seq::filter);
    if s.len() > 0 {
        let init = s.drop_last();
        lemma_filter_facts(init, pred);
        let f = init.filter(pred);
        assert forall|x: PaneId| #[trigger] s.filter(pred).contains(x) <==> s.contains(x) && pred(x) by {
            if s.contains(x) && pred(x) {
                let t = choose|t: int| 0 <= t < s.len() && s[t] == x;
                if t < s.len() - 1 {
                    assert(init[t] == x);
                    assert(init.contains(x));
                    assert(f.contains(x));
                    let u = choose|u: int| 0 <= u < f.len() && f[u] == x;
                    if pred(s.last()) {
                        assert(s.filter(pred)[u] == x);
                    }
                } else {
                    assert(s.filter(pred) == f.push(x));
                    assert(s.filter(pred)[f.len() as int] == x);
                }
            }
            if s.filter(pred).contains(x) {
                let u = choose|u: int| 0 <= u < s.filter(pred).len() && s.filter(pred)[u] == x;
                if pred(s.last()) && u == f.len() {
                    assert(x == s.last());
                    assert(s[s.len() - 1] == x);
                } else {
                    assert(f[u] == x);
                    assert(f.contains(x));
                    let t = choose|t: int| 0 <= t < init.len() && init[t] == x;
                    assert(s[t] == x);
                }
            }
        }
        if s.no_duplicates() {
            assert(init.no_duplicates()) by {
                assert forall|i: int, j: int| 0 <= i < init.len() && 0 <= j < init.len() && i != j implies init[i] != init[j] by {
                    assert(init[i] == s[i] && init[j] == s[j]);
                }
            }
            if pred(s.last()) {
                assert(!f.contains(s.last())) by {
                    if f.contains(s.last()) {
                        let t = choose|t: int| 0 <= t < init.len() && init[t] == s.last();
                        assert(s[t] == s[s.len() - 1]);
                    }
                }
                assert forall|i: int, j: int| 0 <= i < f.len() + 1 && 0 <= j < f.len() + 1 && i != j implies
                    f.push(s.last())[i] != f.push(s.last())[j] by {
                    if i == f.len() {
                        assert(f.contains(f[j]));
                    } else if j == f.len() {
                        assert(f.contains(f[i]));
                    }
                }
            }
        }
    }
}

/// The panes of distinct entries of the forest's records are distinct, and
/// they are the panes those records carry.
proof fn lemma_entry_panes(m: Forest, e: Seq<ProjectionEntry>)
    requires
        well_formed(m),
        entry_ids(e).no_duplicates(),
        forall|t: int| 0 <= t < e.len() ==> m.contains_key(#[trigger] e[t].id.value()),
    ensures
        entry_panes(m, e).no_duplicates(),
        forall|p: PaneId| #[trigger] entry_panes(m, e).contains(p) <==> exists|t: int|
            0 <= t < e.len() && m[#[trigger] e[t].id.value()].pane_id == Some(p),
    decreases e.len(),
{
    if e.len() > 0 {
        let init = e.drop_last();
        assert(entry_ids(init).no_duplicates()) by {
            assert forall|i: int, j: int| 0 <= i < init.len() && 0 <= j < init.len() && i != j implies
                entry_ids(init)[i] != entry_ids(init)[j] by {
                assert(entry_ids(init)[i] == entry_ids(e)[i] && entry_ids(init)[j] == entry_ids(e)[j]);
            }
        }
        assert forall|t: int| 0 <= t < init.len() implies m.contains_key(#[trigger] init[t].id.value()) by {
            assert(init[t] == e[t]);
        }
        lemma_entry_panes(m, init);
        let rest = entry_panes(m, init);
        let last = e.last();
        let k = last.id.value();
        assert(e[e.len() - 1] == last);
        assert forall|p: PaneId| #[trigger] entry_panes(m, e).contains(p) <==> exists|t: int|
            0 <= t < e.len() && m[#[trigger] e[t].id.value()].pane_id == Some(p) by {
            if entry_panes(m, e).contains(p) {
                if m[k].pane_id == Some(p) {
                    assert(m[e[e.len() - 1].id.value()].pane_id == Some(p));
                } else {
                    if m[k].pane_id is Some {
                        let u = choose|u: int| 0 <= u < rest.push(m[k].pane_id->0).len() && rest.push(m[k].pane_id->0)[u] == p;
                        assert(u < rest.len());
                        assert(rest[u] == p);
                    }
                    assert(rest.contains(p));
                    let t = choose|t: int| 0 <= t < init.len() && m[#[trigger] init[t].id.value()].pane_id == Some(p);
                    assert(init[t] == e[t]);
                }
            }
            if exists|t: int| 0 <= t < e.len() && m[#[trigger] e[t].id.value()].pane_id == Some(p) {
                let t = choose|t: int| 0 <= t < e.len() && m[#[trigger] e[t].id.value()].pane_id == Some(p);
                if t == e.len() - 1 {
                    assert(entry_panes(m, e) == rest.push(p));
                    assert(entry_panes(m, e)[rest.len() as int] == p);
                } else {
                    assert(init[t] == e[t]);
                    assert(m[init[t].id.value()].pane_id == Some(p));
                    assert(rest.contains(p));
                    let u = choose|u: int| 0 <= u < rest.len() && rest[u] == p;
                    if m[k].pane_id is Some {
                        assert(entry_panes(m, e)[u] == p);
                    }
                }
            }
        }
        if m[k].pane_id is Some {
            let q = m[k].pane_id->0;
            assert(!rest.contains(q)) by {
                if rest.contains(q) {
                    let t = choose|t: int| 0 <= t < init.len() && m[#[trigger] init[t].id.value()].pane_id == Some(q);
                    let k2 = init[t].id.value();
                    assert(init[t] == e[t]);
                    assert(k2 == k) by {
                        if k2 != k {
                            assert(m[k2].pane_id != m[k].pane_id);
                        }
                    }
                    assert(init[t].id == last.id);
                    assert(entry_ids(e)[t] == e[t].id && entry_ids(e)[e.len() - 1] == last.id);
                    assert(entry_ids(e)[t] == entry_ids(e)[e.len() - 1]);
                }
            }
            assert forall|i: int, j: int| 0 <= i < rest.len() + 1 && 0 <= j < rest.len() + 1 && i != j implies
                rest.push(q)[i] != rest.push(q)[j] by {
                if i == rest.len() {
                    assert(rest.contains(rest[j]));
                } else if j == rest.len() {
                    assert(rest.contains(rest[i]));
                }
            }
        }
    }
}

/// A section in display order lists each of its members exactly once.
proof fn lemma_section_order(m: Forest, s: Seq<PaneId>)
    requires
        well_formed(m),
        s.no_duplicates(),
    ensures
        section_order(m, s).no_duplicates(),
        forall|p: PaneId| #[trigger] section_order(m, s).contains(p) <==> s.contains(p),
{
    let inc = records_on_panes(m, pane_numbers(s));
    let e = projection_of(m, inc);
    lemma_projection_lists_included_once(m, inc);
    assert forall|t: int| 0 <= t < e.len() implies m.contains_key(#[trigger] e[t].id.value()) by {
        assert(entry_ids(e)[t] == e[t].id);
        assert(entry_ids(e).contains(e[t].id));
    }
    lemma_entry_panes(m, e);
    let placed = entry_panes(m, e);
    let pred = |p: PaneId| !placed.contains(p);
    lemma_filter_facts(s, pred);
    let others = s.filter(pred);
    assert forall|p: PaneId| #[trigger] placed.contains(p) implies s.contains(p) by {
        let t = choose|t: int| 0 <= t < e.len() && m[#[trigger] e[t].id.value()].pane_id == Some(p);
        let k = e[t].id.value();
        assert(entry_ids(e)[t] == e[t].id);
        assert(entry_ids(e).contains(e[t].id));
        assert(inc.contains(k));
        assert(pane_numbers(s).contains(p.value()));
        let numbers = s.map_values(|q: PaneId| q.value());
        let u = choose|u: int| 0 <= u < numbers.len() && numbers[u] == p.value();
        assert(numbers[u] == s[u].value());
        assert(s[u] == p);
    }
    assert(section_order(m, s) == placed + others);
    let all = placed + others;
    assert forall|p: PaneId| #[trigger] all.contains(p) <==> s.contains(p) by {
        if all.contains(p) {
            let u = choose|u: int| 0 <= u < all.len() && all[u] == p;
            if u < placed.len() {
                assert(placed[u] == p);
                assert(placed.contains(p));
            } else {
                assert(others[u - placed.len()] == p);
                assert(others.contains(p));
            }
        }
        if s.contains(p) {
            if placed.contains(p) {
                let u = choose|u: int| 0 <= u < placed.len() && placed[u] == p;
                assert(all[u] == p);
            } else {
                assert(pred(p));
                assert(others.contains(p));
                let u = choose|u: int| 0 <= u < others.len() && others[u] == p;
                assert(all[placed.len() + u] == p);
            }
        }
    }
    assert forall|i: int, j: int| 0 <= i < all.len() && 0 <= j < all.len() && i != j implies all[i] != all[j] by {
        if i < placed.len() && j < placed.len() {
            assert(all[i] == placed[i] && all[j] == placed[j]);
        } else if i >= placed.len() && j >= placed.len() {
            assert(all[i] == others[i - placed.len()] && all[j] == others[j - placed.len()]);
        } else {
            let (a, b) = if i < j { (i, j) } else { (j, i) };
            assert(all[a] == placed[a]);
            assert(placed.contains(all[a]));
            assert(all[b] == others[b - placed.len()]);
            assert(others.contains(all[b]));
        }
    }
}

/// The display order of a collection lists each member exactly once.
pub proof fn lemma_display_order_lists_each_member_once(m: Forest, c: PaneCollection)
    requires
        well_formed(m),
        c.wf(),
    ensures
        display_order(m, c).no_duplicates(),
        forall|p: PaneId| #[trigger] display_order(m, c).contains(p) <==> c.member_list().contains(p),
{
    c.lemma_wf();
    let members = c.member_list();
    let active_pred = |p: PaneId| c.archived_set().contains(p) == false;
    let archived_pred = |p: PaneId| c.archived_set().contains(p) == true;
    lemma_filter_facts(members, active_pred);
    lemma_filter_facts(members, archived_pred);
    let a = section(c, false);
    let b = section(c, true);
    assert(a == members.filter(active_pred));
    assert(b == members.filter(archived_pred));
    lemma_section_order(m, a);
    lemma_section_order(m, b);
    let sa = section_order(m, a);
    let sb = section_order(m, b);
    let all = sa + sb;
    assert(display_order(m, c) == all);
    assert forall|p: PaneId| #[trigger] all.contains(p) <==> members.contains(p) by {
        if all.contains(p) {
            let u = choose|u: int| 0 <= u < all.len() && all[u] == p;
            if u < sa.len() {
                assert(sa[u] == p);
                assert(sa.contains(p));
                assert(a.contains(p));
            } else {
                assert(sb[u - sa.len()] == p);
                assert(sb.contains(p));
                assert(b.contains(p));
            }
        }
        if members.contains(p) {
            if c.archived_set().contains(p) {
                assert(archived_pred(p));
                assert(b.contains(p));
                assert(sb.contains(p));
                let u = choose|u: int| 0 <= u < sb.len() && sb[u] == p;
                assert(all[sa.len() + u] == p);
            } else {
                assert(active_pred(p));
                assert(a.contains(p));
                assert(sa.contains(p));
                let u = choose|u: int| 0 <= u < sa.len() && sa[u] == p;
                assert(all[u] == p);
            }
        }
    }
    assert forall|i: int, j: int| 0 <= i < all.len() && 0 <= j < all.len() && i != j implies all[i] != all[j] by {
        if i < sa.len() && j < sa.len() {
            assert(all[i] == sa[i] && all[j] == sa[j]);
        } else if i >= sa.len() && j >= sa.len() {
            assert(all[i] == sb[i - sa.len()] && all[j] == sb[j - sa.len()]);
        } else {
            let (x, y) = if i < j { (i, j) } else { (j, i) };
            assert(all[x] == sa[x]);
            assert(sa.contains(all[x]));
            assert(a.contains(all[x]));
            assert(all[y] == sb[y - sa.len()]);
            assert(sb.contains(all[y]));
            assert(b.contains(all[y]));
        }
    }
}

} // verus!
