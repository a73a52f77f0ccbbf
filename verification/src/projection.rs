//! Local projections of the delegation forest: the part of the forest that a
//! view shows, where a shown record whose parent is hidden becomes a local
//! root that remembers its hidden parent.

use std::collections::{HashMap, HashSet};
use vstd::prelude::*;
use vstd::std_specs::hash::group_hash_axioms;
use crate::ids::{DelegationId, lemma_delegation_id_value_injective};
use crate::delegation::{Delegations, DelegationRecord, ProjectionEntry};
use crate::forest::{
    Forest, chain_len, is_sibling_order, preorder_of, siblings, well_formed, lemma_depth,
    lemma_child_depth, lemma_siblings_eq,
};

verus! {

broadcast use {group_hash_axioms, lemma_delegation_id_value_injective};

/// The entries of the included identities among `cs`, each followed by the
/// entries of its included children (and theirs), depth first in sibling
/// order; `depth` is the depth given to the members of `cs`, and `fuel`
/// bounds the recursion.
pub open spec fn projected_list(
    m: Forest,
    inc: Set<u64>,
    cs: Seq<DelegationId>,
    depth: nat,
    fuel: nat,
) -> Seq<ProjectionEntry>
    decreases fuel, cs.len(),
{
    if cs.len() == 0 || fuel == 0 {
        Seq::empty()
    } else {
        let c = cs[0];
        (if inc.contains(c.value()) {
            seq![ProjectionEntry { id: c, depth: depth as usize, external_parent_id: None }]
                + projected_list(m, inc, siblings(m, Some(c)), depth + 1, (fuel - 1) as nat)
        } else {
            Seq::empty()
        }) + projected_list(m, inc, cs.drop_first(), depth, fuel)
    }
}

/// Whether the parent of record `k` is included.
pub open spec fn parent_included(m: Forest, inc: Set<u64>, k: u64) -> bool {
    match m[k].parent_id {
        Some(p) => inc.contains(p.value()),
        None => false,
    }
}

/// The local tree rooted at `id`: empty unless `id` is an included record
/// whose parent is not included; otherwise `id` at depth zero, carrying its
/// (hidden) parent, followed by its included descendants.
pub open spec fn local_tree(m: Forest, inc: Set<u64>, id: DelegationId) -> Seq<ProjectionEntry> {
    if m.contains_key(id.value()) && inc.contains(id.value()) && !parent_included(m, inc, id.value()) {
        seq![ProjectionEntry { id, depth: 0, external_parent_id: m[id.value()].parent_id }]
            + projected_list(m, inc, siblings(m, Some(id)), 1, m.dom().len())
    } else {
        Seq::empty()
    }
}

/// The local trees of `ids`, in the order of `ids`.
pub open spec fn local_trees(m: Forest, inc: Set<u64>, ids: Seq<DelegationId>) -> Seq<ProjectionEntry>
    decreases ids.len(),
{
    if ids.len() == 0 {
        Seq::empty()
    } else {
        local_trees(m, inc, ids.drop_last()) + local_tree(m, inc, ids.last())
    }
}

/// The projection of the forest onto the included identities: the local
/// trees, their roots taken in forest preorder.
pub open spec fn projection_of(m: Forest, inc: Set<u64>) -> Seq<ProjectionEntry> {
    local_trees(m, inc, preorder_of(m))
}

/// Keys of the records whose pane is one of `panes`.
pub open spec fn records_on_panes(m: Forest, panes: Set<u32>) -> Set<u64> {
    m.dom().filter(|k: u64| m[k].pane_id is Some && panes.contains(m[k].pane_id->0.value()))
}

/// Append the projected entries below `parent`, whose children sit at `depth`.
fn collect_projection(
    records: &HashMap<u64, DelegationRecord>,
    included: &HashSet<u64>,
    parent: DelegationId,
    depth: usize,
    Ghost(fuel): Ghost<nat>,
    result: &mut Vec<ProjectionEntry>,
)
    requires
        well_formed(records@),
        records@.dom().len() <= usize::MAX,
        records@.contains_key(parent.value()),
        fuel + chain_len(records@, parent.value(), records@.dom().len())->0 + 1 >= records@.dom().len(),
        depth <= chain_len(records@, parent.value(), records@.dom().len())->0 + 1,
    ensures
        final(result)@ == old(result)@ + projected_list(
            records@,
            included@,
            siblings(records@, Some(parent)),
            depth as nat,
            fuel,
        ),
    decreases fuel,
{
    let ghost m = records@;
    let ghost n = m.dom().len();
    let ghost inc = included@;
    proof {
        lemma_depth(m, parent.value());
    }
    let children = crate::delegation::sibling_ids(records, Some(parent));
    proof {
        lemma_siblings_eq(m, Some(parent), children@);
    }
    let ghost start = result@;
    assert(children@.skip(0) =~= children@);
    let mut i: usize = 0;
    while i < children.len()
        invariant
            m == records@,
            n == m.dom().len(),
            n <= usize::MAX,
            inc == included@,
            well_formed(m),
            m.contains_key(parent.value()),
            chain_len(m, parent.value(), n) is Some,
            fuel + chain_len(m, parent.value(), n)->0 + 1 >= n,
            depth <= chain_len(m, parent.value(), n)->0 + 1,
            children@ == siblings(m, Some(parent)),
            is_sibling_order(m, Some(parent), children@),
            0 <= i <= children.len(),
            result@ + projected_list(m, inc, children@.skip(i as int), depth as nat, fuel) == start
                + projected_list(m, inc, children@, depth as nat, fuel),
        decreases children.len() - i,
    {
        let c = children[i];
        proof {
            assert(m.contains_key(c.value()) && m[c.value()].parent_id == Some(parent));
            lemma_child_depth(m, c.value());
            lemma_depth(m, c.value());
            let cs = children@.skip(i as int);
            assert(cs[0] == c);
            assert(cs.drop_first() =~= children@.skip(i + 1));
            assert(fuel > 0);
        }
        if included.contains(&c.raw()) {
            result.push(ProjectionEntry { id: c, depth, external_parent_id: None });
            collect_projection(records, included, c, depth + 1, Ghost((fuel - 1) as nat), result);
        }
        proof {
            let cs = children@.skip(i as int);
            assert(projected_list(m, inc, cs, depth as nat, fuel) == (if inc.contains(c.value()) {
                seq![ProjectionEntry { id: c, depth: depth as usize, external_parent_id: None }]
                    + projected_list(m, inc, siblings(m, Some(c)), (depth + 1) as nat, (fuel - 1) as nat)
            } else {
                Seq::empty()
            }) + projected_list(m, inc, children@.skip(i + 1), depth as nat, fuel));
            assert(result@ + projected_list(m, inc, children@.skip(i + 1), depth as nat, fuel)
                =~= start + projected_list(m, inc, children@, depth as nat, fuel));
        }
        i = i + 1;
    }
    proof {
        assert(children@.skip(children@.len() as int) =~= Seq::<DelegationId>::empty());
        assert(result@ =~= start + projected_list(m, inc, children@, depth as nat, fuel));
    }
}

impl Delegations {
    /// The projection of the forest onto `included` (identities given by
    /// their numbers; numbers of no record are ignored): every included
    /// record whose parent is not included becomes a local root at depth
    /// zero, taken in forest preorder and carrying its hidden parent, and is
    /// followed by its included descendants reached through included
    /// records, depth first in sibling order.
    pub fn preorder_projection(&self, included: &HashSet<u64>) -> (r: Vec<ProjectionEntry>)
        ensures
            r@ == projection_of(self@, included@),
    {
        let records = self.records();
        let ghost m = records@;
        let ghost n = m.dom().len();
        let ghost inc = included@;
        let _count = records.len();
        let order = self.preorder();
        let mut result: Vec<ProjectionEntry> = Vec::new();
        let mut i: usize = 0;
        assert(order@.take(0) =~= Seq::<DelegationId>::empty());
        while i < order.len()
            invariant
                m == records@,
                m == self@,
                n == m.dom().len(),
                n <= usize::MAX,
                inc == included@,
                well_formed(m),
                order@ == preorder_of(m),
                0 <= i <= order.len(),
                result@ == local_trees(m, inc, order@.take(i as int)),
            decreases order.len() - i,
        {
            let id = order[i];
            let ghost before = result@;
            match records.get(&id.raw()) {
                Some(rec) => {
                    if included.contains(&id.raw()) {
                        let parent_shown = match rec.parent_id {
                            Some(p) => included.contains(&p.raw()),
                            None => false,
                        };
                        if !parent_shown {
                            proof {
                                lemma_depth(m, id.value());
                            }
                            result.push(
                                ProjectionEntry { id, depth: 0, external_parent_id: rec.parent_id },
                            );
                            collect_projection(records, included, id, 1, Ghost(n), &mut result);
                        }
                    }
                },
                None => {},
            }
            proof {
                assert(order@.take(i + 1).drop_last() =~= order@.take(i as int));
                assert(order@.take(i + 1).last() == id);
                assert(result@ =~= before + local_tree(m, inc, id));
            }
            i = i + 1;
        }
        assert(order@.take(order@.len() as int) =~= order@);
        result
    }

    /// The projection onto the records carried by `panes` (panes given by
    /// their numbers).
    pub fn preorder_for_panes(&self, panes: &HashSet<u32>) -> (r: Vec<ProjectionEntry>)
        ensures
            r@ == projection_of(self@, records_on_panes(self@, panes@)),
    {
        let records = self.records();
        let ghost m = records@;
        let keys = crate::delegation::key_list(records);
        let mut included: HashSet<u64> = HashSet::new();
        let mut i: usize = 0;
        while i < keys.len()
            invariant
                m == records@,
                keys@.to_set() == m.dom(),
                0 <= i <= keys.len(),
                included@ == records_on_panes(m, panes@).intersect(keys@.take(i as int).to_set()),
            decreases keys.len() - i,
        {
            let k = keys[i];
            let ghost before = included@;
            assert(keys@.to_set().contains(k));
            let rec = crate::delegation::record_at(records, k);
            match rec.pane_id {
                Some(p) => {
                    if panes.contains(&p.raw()) {
                        included.insert(k);
                    }
                },
                None => {},
            }
            proof {
                assert(keys@.take(i + 1).to_set() =~= keys@.take(i as int).to_set().insert(k)) by {
                    assert(keys@.take(i + 1) =~= keys@.take(i as int).push(k));
                    keys@.take(i as int).lemma_push_to_set_commute(k);
                }
                assert(included@ =~= records_on_panes(m, panes@).intersect(
                    keys@.take(i + 1).to_set(),
                ));
            }
            i = i + 1;
        }
        proof {
            assert(keys@.take(keys@.len() as int) =~= keys@);
            assert(included@ =~= records_on_panes(m, panes@));
        }
        self.preorder_projection(&included)
    }
}

} // verus!
