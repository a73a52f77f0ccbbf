//! Session-wide delegation provenance: a forest of delegation records,
//! independent of pane placement and agent detection.

use std::collections::{HashMap, HashSet};
use vstd::prelude::*;
use vstd::std_specs::hash::{group_hash_axioms, spec_keys_iter};
use vstd::std_specs::iter::IteratorSpec;
use crate::ids::{
    DelegationId, DelegationIdAllocator, PaneId, lemma_delegation_id_value_injective,
    lemma_pane_id_value_injective,
};
use crate::repair::{
    cut, cycles_cut, deduplicated, first_revisit, input_ids, is_kept, kept, linked, lowest_revisiting,
    pane_taken_below, reattached, repaired, revisits, revisits_at, screened, lemma_cut_linked,
    lemma_lowest_revisiting, lemma_repaired_dom,
};
use crate::tombstones::{
    ascending, collected, has_child, increasing, shaped, tombstone_leaves, lemma_ascending,
    lemma_leaves_shrink, lemma_remove_leaves_shaped,
};
use vstd::set_lib::lemma_set_subset_finite;
use crate::forest::{
    Forest, acyclic, chain_len, descendants_of, group, ids_consistent, is_sibling_order, names_key,
    panes_unique, parents_present, precedes, preorder_of, ranks_normalized, reaches, root_key,
    siblings, sorted_members, subtree_list, well_formed, same_links, group_normalized,
    lemma_siblings_eq, lemma_positions_normalize, carries_pane, lemma_empty_well_formed,
    lemma_well_formed_same_shape, lemma_insert_leaf, lemma_depth, lemma_child_depth,
    lemma_chain_len_le_fuel, with_parent, lemma_siblings_exist, lemma_relink_orders,
    lemma_relink_acyclic, lemma_group_frame, lemma_same_links_acyclic, lemma_normalized_groups,
    lemma_groups_normalize, lemma_index_of_sorted, lemma_reinsert, lemma_permuted_order,
    ancestor, on_cycle, terminates, parent_key, lemma_ancestor_compose, lemma_terminates_bounded,
    lemma_ancestor_none_after,
    lemma_terminates_step, lemma_cycle_not_terminating,
};

verus! {

broadcast use {group_hash_axioms, lemma_delegation_id_value_injective, lemma_pane_id_value_injective};

/// One delegation: which pane (if any) carries it, which delegation it was
/// delegated from, and its position among its siblings.
#[derive(Debug, PartialEq, Eq)]
pub struct DelegationRecord {
    pub id: DelegationId,
    pub pane_id: Option<PaneId>,
    pub parent_id: Option<DelegationId>,
    pub purpose: Option<String>,
    pub sibling_rank: u64,
    pub tombstone: bool,
}

/// Where to move a delegation among its siblings.
#[derive(Debug, Clone, Copy, PartialEq, Eq, Structural)]
pub enum SiblingPosition {
    First,
    Last,
    Before(DelegationId),
    After(DelegationId),
}

/// One entry of a local projection of the forest.
#[derive(Debug, Clone, Copy, PartialEq, Eq, Structural)]
pub struct ProjectionEntry {
    pub id: DelegationId,
    pub depth: usize,
    /// The retained provenance parent when this entry is a local root because
    /// its parent is outside the projection.
    pub external_parent_id: Option<DelegationId>,
}

#[derive(Debug, Clone, Copy, PartialEq, Eq, Structural)]
pub enum DelegationError {
    NotFound(DelegationId),
    ParentNotFound(DelegationId),
    PaneAlreadyAssociated(PaneId),
    PaneNotAssociated(PaneId),
    PaneMismatch { expected: PaneId, actual: PaneId },
    SelfParent,
    Cycle,
    CorruptCycle,
    NotSibling(DelegationId),
    IdAllocationExhausted,
}

#[derive(Debug, Clone, Copy, PartialEq, Eq, Structural)]
pub enum DelegationValidationError {
    ZeroId,
    KeyIdMismatch { key: DelegationId, record: DelegationId },
    DuplicateId(DelegationId),
    DuplicatePane(PaneId),
    DanglingParent { id: DelegationId, parent: DelegationId },
    Cycle(DelegationId),
}

/// `r` carried by another pane, or by none.
pub open spec fn with_pane(r: DelegationRecord, pane: Option<PaneId>, tombstone: bool) -> DelegationRecord {
    DelegationRecord {
        id: r.id,
        pane_id: pane,
        parent_id: r.parent_id,
        purpose: r.purpose,
        sibling_rank: r.sibling_rank,
        tombstone,
    }
}

/// `r` with another sibling rank.
pub open spec fn with_rank(r: DelegationRecord, rank: u64) -> DelegationRecord {
    DelegationRecord {
        id: r.id,
        pane_id: r.pane_id,
        parent_id: r.parent_id,
        purpose: r.purpose,
        sibling_rank: rank,
        tombstone: r.tombstone,
    }
}

/// `a` and `b` agree on everything but the sibling rank.
pub open spec fn same_but_rank(a: DelegationRecord, b: DelegationRecord) -> bool {
    &&& a.id == b.id
    &&& a.pane_id == b.pane_id
    &&& a.parent_id == b.parent_id
    &&& a.purpose == b.purpose
    &&& a.tombstone == b.tombstone
}

pub(crate) fn same_id_option(a: Option<DelegationId>, b: Option<DelegationId>) -> (r: bool)
    ensures
        r == (a == b),
{
    match (a, b) {
        (Some(x), Some(y)) => x == y,
        (None, None) => true,
        _ => false,
    }
}

fn same_pane_option(a: Option<PaneId>, b: Option<PaneId>) -> (r: bool)
    ensures
        r == (a == b),
{
    match (a, b) {
        (Some(x), Some(y)) => x == y,
        (None, None) => true,
        _ => false,
    }
}

/// The keys of `records`, each once.
pub(crate) fn key_list(records: &HashMap<u64, DelegationRecord>) -> (r: Vec<u64>)
    ensures
        r@.to_set() == records@.dom(),
        r@.no_duplicates(),
{
    let mut out: Vec<u64> = Vec::new();
    let ghost all = spec_keys_iter(records).remaining();
    for k in iter: records.keys()
        invariant
            iter.seq() == all,
            out@ == all.take(iter.index()).map_values(|x: &u64| *x),
    {
        out.push(*k);
    }
    assert(all.take(all.len() as int) =~= all);
    assert(out@ =~= all.unref());
    out
}

/// Look up a record that is known to be present.
pub(crate) fn record_at(records: &HashMap<u64, DelegationRecord>, k: u64) -> (r: &DelegationRecord)
    requires
        records@.contains_key(k),
    ensures
        *r == records@[k],
{
    records.get(&k).unwrap()
}

/// Whether `a` comes before `b` among siblings.
fn precedes_exec(records: &HashMap<u64, DelegationRecord>, a: DelegationId, b: DelegationId) -> (r: bool)
    requires
        records@.contains_key(a.value()),
        records@.contains_key(b.value()),
    ensures
        r == precedes(records@, a.value(), b.value()),
{
    let ra = record_at(records, a.raw()).sibling_rank;
    let rb = record_at(records, b.raw()).sibling_rank;
    ra < rb || (ra == rb && a.raw() < b.raw())
}

spec fn listed_before(keys: Seq<u64>, i: int, v: u64) -> bool {
    exists|x: int| 0 <= x < i && keys[x] == v
}

/// The children of `parent` in sibling order (rank, then identity).
pub(crate) fn sibling_ids(records: &HashMap<u64, DelegationRecord>, parent: Option<DelegationId>) -> (r: Vec<DelegationId>)
    requires
        ids_consistent(records@),
    ensures
        is_sibling_order(records@, parent, r@),
{
    let ghost m = records@;
    let keys = key_list(records);
    let mut out: Vec<DelegationId> = Vec::new();
    let mut i: usize = 0;
    while i < keys.len()
        invariant
            m == records@,
            ids_consistent(m),
            keys@.to_set() == m.dom(),
            keys@.no_duplicates(),
            0 <= i <= keys.len(),
            sorted_members(m, out@),
            forall|a: int|
                #![trigger out@[a]]
                0 <= a < out@.len() ==> m[out@[a].value()].parent_id == parent && listed_before(keys@, i as int, out@[a].value()),
            forall|k: u64|
                #![trigger m[k].parent_id]
                m.contains_key(k) && m[k].parent_id == parent && listed_before(keys@, i as int, k)
                    ==> names_key(out@, k),
        decreases keys.len() - i,
    {
        let k = keys[i];
        assert(keys@.to_set().contains(k));
        let rec = record_at(records, k);
        if same_id_option(rec.parent_id, parent) {
            let id = rec.id;
            // find the first member that comes after `id`
            let mut j: usize = 0;
            while j < out.len() && !precedes_exec(records, id, out[j])
                invariant
                    m == records@,
                    ids_consistent(m),
                    m.contains_key(id.value()),
                    id.value() == k,
                    sorted_members(m, out@),
                    0 <= j <= out.len(),
                    forall|a: int| 0 <= a < j ==> !precedes(m, k, #[trigger] out@[a].value()),
                decreases out.len() - j,
            {
                j = j + 1;
            }
            let ghost before = out@;
            proof {
                assert(!names_key(before, k)) by {
                    if names_key(before, k) {
                        let a = choose|a: int| 0 <= a < before.len() && before[a].value() == k;
                        assert(listed_before(keys@, i as int, before[a].value()));
                        let x = choose|x: int| 0 <= x < i && keys@[x] == k;
                        assert(keys@[x] == keys@[i as int]);
                    }
                }
                assert forall|a: int| 0 <= a < j implies precedes(m, #[trigger] before[a].value(), k) by {
                    assert(!precedes(m, k, before[a].value()));
                    assert(before[a].value() != k);
                }
            }
            if j < out.len() {
                out.insert(j, id);
            } else {
                out.push(id);
            }
            proof {
                assert forall|a: int, b: int| 0 <= a < b < out@.len() implies precedes(
                    m,
                    #[trigger] out@[a].value(),
                    #[trigger] out@[b].value(),
                ) by {
                    if b < j {
                        assert(out@[a] == before[a] && out@[b] == before[b]);
                    } else if b == j {
                        assert(out@[a] == before[a]);
                    } else if a == j {
                        assert(out@[b] == before[b - 1]);
                        assert(precedes(m, k, before[j as int].value()));
                        if b - 1 > j {
                            assert(precedes(m, before[j as int].value(), before[b - 1].value()));
                        }
                    } else if a < j {
                        assert(out@[a] == before[a] && out@[b] == before[b - 1]);
                    } else {
                        assert(out@[a] == before[a - 1] && out@[b] == before[b - 1]);
                    }
                }
                assert forall|a: int| 0 <= a < out@.len() implies m.contains_key(
                    #[trigger] out@[a].value(),
                ) && m[out@[a].value()].id == out@[a] && m[out@[a].value()].parent_id == parent
                    && listed_before(keys@, i + 1, out@[a].value()) by {
                    if a < j {
                        assert(out@[a] == before[a]);
                    } else if a > j {
                        assert(out@[a] == before[a - 1]);
                    }
                    if a != j {
                        let v = out@[a].value();
                        assert(listed_before(keys@, i as int, v));
                        let x = choose|x: int| 0 <= x < i && keys@[x] == v;
                        assert(keys@[x] == v);
                    } else {
                        assert(keys@[i as int] == k);
                    }
                }
                assert forall|kk: u64|
                    m.contains_key(kk) && m[kk].parent_id == parent && listed_before(keys@, i + 1, kk) implies names_key(out@, kk) by {
                    if kk == k {
                        assert(out@[j as int].value() == k);
                    } else {
                        let x = choose|x: int| 0 <= x < i + 1 && keys@[x] == kk;
                        assert(keys@[x] == kk);
                        assert(names_key(before, kk));
                        let a = choose|a: int| 0 <= a < before.len() && before[a].value() == kk;
                        if a < j {
                            assert(out@[a] == before[a]);
                        } else {
                            assert(out@[a + 1] == before[a]);
                        }
                    }
                }
            }
        } else {
            proof {
                assert forall|a: int| #![trigger out@[a]] 0 <= a < out@.len() implies listed_before(keys@, i + 1, out@[a].value()) by {
                    let v = out@[a].value();
                    assert(listed_before(keys@, i as int, v));
                    let x = choose|x: int| 0 <= x < i && keys@[x] == v;
                    assert(keys@[x] == v);
                }
                assert forall|kk: u64|
                    m.contains_key(kk) && m[kk].parent_id == parent && listed_before(keys@, i + 1, kk) implies names_key(out@, kk) by {
                    let x = choose|x: int| 0 <= x < i + 1 && keys@[x] == kk;
                    if x < i {
                        assert(keys@[x] == kk);
                    }
                }
            }
        }
        i = i + 1;
    }
    proof {
        assert forall|k: u64| #![trigger m[k].parent_id]
            m.contains_key(k) && m[k].parent_id == parent implies exists|a: int|
                0 <= a < out@.len() && out@[a].value() == k by {
            assert(keys@.to_set().contains(k));
            let x = choose|x: int| 0 <= x < keys@.len() && keys@[x] == k;
            assert(listed_before(keys@, keys@.len() as int, k));
            assert(names_key(out@, k));
        }
    }
    out
}

/// Give the record `k` another sibling rank.
fn set_rank(records: &mut HashMap<u64, DelegationRecord>, k: u64, rank: u64)
    requires
        old(records)@.contains_key(k),
    ensures
        final(records)@ == old(records)@.insert(k, with_rank(old(records)@[k], rank)),
{
    let mut rec = records.remove(&k).unwrap();
    rec.sibling_rank = rank;
    records.insert(k, rec);
    assert(final(records)@ =~= old(records)@.insert(k, with_rank(old(records)@[k], rank)));
}

/// Rank the listed records by their position in `order`.
fn set_sibling_order(records: &mut HashMap<u64, DelegationRecord>, order: &Vec<DelegationId>)
    requires
        forall|i: int| 0 <= i < order@.len() ==> old(records)@.contains_key(#[trigger] order@[i].value()),
        forall|i: int, j: int|
            0 <= i < j < order@.len() ==> #[trigger] order@[i].value() != #[trigger] order@[j].value(),
    ensures
        final(records)@.dom() == old(records)@.dom(),
        forall|k: u64| #[trigger] old(records)@.contains_key(k) ==> same_but_rank(final(records)@[k], old(records)@[k]),
        forall|i: int| 0 <= i < order@.len() ==> final(records)@[#[trigger] order@[i].value()].sibling_rank == i,
        forall|k: u64|
            #[trigger] old(records)@.contains_key(k) && !names_key(order@, k) ==> final(records)@[k]
                == old(records)@[k],
{
    let ghost m = records@;
    let mut i: usize = 0;
    while i < order.len()
        invariant
            0 <= i <= order@.len(),
            forall|a: int| 0 <= a < order@.len() ==> m.contains_key(#[trigger] order@[a].value()),
            forall|a: int, b: int|
                0 <= a < b < order@.len() ==> #[trigger] order@[a].value() != #[trigger] order@[b].value(),
            records@.dom() == m.dom(),
            forall|k: u64| #[trigger] m.contains_key(k) ==> same_but_rank(records@[k], m[k]),
            forall|a: int| 0 <= a < i ==> records@[#[trigger] order@[a].value()].sibling_rank == a,
            forall|k: u64|
                #[trigger] m.contains_key(k) && !names_key(order@.subrange(0, i as int), k)
                    ==> records@[k] == m[k],
        decreases order@.len() - i,
    {
        let ghost before = records@;
        let k = order[i].raw();
        set_rank(records, k, i as u64);
        proof {
            assert forall|a: int| 0 <= a < i + 1 implies records@[#[trigger] order@[a].value()].sibling_rank == a by {
                if a < i {
                    assert(order@[a].value() != order@[i as int].value());
                }
            }
            assert forall|kk: u64|
                #[trigger] m.contains_key(kk) && !names_key(order@.subrange(0, i + 1), kk)
                implies records@[kk] == m[kk] by {
                assert(order@.subrange(0, i + 1)[i as int].value() == k);
                if names_key(order@.subrange(0, i as int), kk) {
                    let a = choose|a: int| 0 <= a < i && order@.subrange(0, i as int)[a].value() == kk;
                    assert(order@.subrange(0, i + 1)[a].value() == kk);
                }
            }
        }
        i = i + 1;
    }
    proof {
        assert(order@.subrange(0, order@.len() as int) =~= order@);
    }
}

/// Renumber the children of `parent` as `0..n` in sibling order.
fn normalize_siblings(records: &mut HashMap<u64, DelegationRecord>, parent: Option<DelegationId>)
    requires
        old(records)@.dom().finite(),
        ids_consistent(old(records)@),
    ensures
        same_links(old(records)@, final(records)@),
        final(records)@.dom().finite(),
        forall|k: u64| #[trigger] old(records)@.contains_key(k) ==> same_but_rank(final(records)@[k], old(records)@[k]),
        forall|k: u64|
            #[trigger] old(records)@.contains_key(k) && old(records)@[k].parent_id != parent
                ==> final(records)@[k] == old(records)@[k],
        siblings(final(records)@, parent) == siblings(old(records)@, parent),
        forall|i: int|
            0 <= i < siblings(old(records)@, parent).len() ==> final(records)@[#[trigger] siblings(
                old(records)@,
                parent,
            )[i].value()].sibling_rank == i,
        group_normalized(final(records)@, parent),
        ids_consistent(final(records)@),
{
    let ghost m = records@;
    let order = sibling_ids(records, parent);
    proof {
        lemma_siblings_eq(m, parent, order@);
        assert forall|i: int, j: int| 0 <= i < j < order@.len() implies #[trigger] order@[i].value()
            != #[trigger] order@[j].value() by {
            assert(precedes(m, order@[i].value(), order@[j].value()));
        }
    }
    set_sibling_order(records, &order);
    proof {
        let n = records@;
        assert(same_links(m, n));
        assert forall|k: u64| #[trigger] m.contains_key(k) && m[k].parent_id != parent implies n[k] == m[k] by {
            if names_key(order@, k) {
                let i = choose|i: int| 0 <= i < order@.len() && order@[i].value() == k;
                assert(m[order@[i].value()].parent_id == parent);
            }
        }
        assert(is_sibling_order(n, parent, order@)) by {
            assert forall|i: int, j: int| 0 <= i < j < order@.len() implies precedes(
                n,
                order@[i].value(),
                order@[j].value(),
            ) by {
                assert(n[order@[i].value()].sibling_rank == i);
                assert(n[order@[j].value()].sibling_rank == j);
            }
            assert forall|k: u64| #![trigger n[k].parent_id] n.contains_key(k) && n[k].parent_id == parent implies exists|i: int|
                0 <= i < order@.len() && order@[i].value() == k by {
                assert(m[k].parent_id == parent);
            }
        }
        lemma_siblings_eq(n, parent, order@);
        assert(n.dom() =~= m.dom());
        lemma_positions_normalize(n, parent, order@);
    }
}

/// Every record key lies below the allocator's next number (unless the
/// allocator is exhausted), so fresh identities never collide.
pub open spec fn allocator_ahead(m: Forest, next: u64) -> bool {
    forall|k: u64| #[trigger] m.contains_key(k) ==> k < next || next == u64::MAX
}

/// The key of the record carrying `pane`, if any.
fn find_pane(records: &HashMap<u64, DelegationRecord>, pane: PaneId) -> (r: Option<u64>)
    ensures
        match r {
            Some(k) => carries_pane(records@, k, pane),
            None => forall|k: u64| !carries_pane(records@, k, pane),
        },
{
    let keys = key_list(records);
    let mut i: usize = 0;
    while i < keys.len()
        invariant
            keys@.to_set() == records@.dom(),
            0 <= i <= keys.len(),
            forall|a: int| 0 <= a < i ==> !carries_pane(records@, #[trigger] keys@[a], pane),
        decreases keys.len() - i,
    {
        let k = keys[i];
        assert(keys@.to_set().contains(k));
        let rec = record_at(records, k);
        if same_pane_option(rec.pane_id, Some(pane)) {
            return Some(k);
        }
        i = i + 1;
    }
    proof {
        assert forall|k: u64| !carries_pane(records@, k, pane) by {
            if records@.contains_key(k) {
                assert(keys@.to_set().contains(k));
                let a = choose|a: int| 0 <= a < keys@.len() && keys@[a] == k;
            }
        }
    }
    None
}

/// Replace the pane of record `k`.
fn set_pane(records: &mut HashMap<u64, DelegationRecord>, k: u64, pane: Option<PaneId>, tombstone: bool)
    requires
        old(records)@.contains_key(k),
    ensures
        final(records)@ == old(records)@.insert(k, with_pane(old(records)@[k], pane, tombstone)),
{
    let mut rec = records.remove(&k).unwrap();
    rec.pane_id = pane;
    rec.tombstone = tombstone;
    records.insert(k, rec);
    assert(final(records)@ =~= old(records)@.insert(k, with_pane(old(records)@[k], pane, tombstone)));
}

/// A copy of `r`.
fn copy_record(r: &DelegationRecord) -> (c: DelegationRecord)
    ensures
        c == *r,
{
    let purpose = match &r.purpose {
        Some(text) => Some(text.clone()),
        None => None,
    };
    DelegationRecord {
        id: r.id,
        pane_id: r.pane_id,
        parent_id: r.parent_id,
        purpose,
        sibling_rank: r.sibling_rank,
        tombstone: r.tombstone,
    }
}

/// The session's delegation records, always a well formed forest.
pub struct Delegations {
    records: HashMap<u64, DelegationRecord>,
    ids: DelegationIdAllocator,
}

impl View for Delegations {
    type V = Map<u64, DelegationRecord>;

    closed spec fn view(&self) -> Map<u64, DelegationRecord> {
        self.records@
    }
}

impl Delegations {
    #[verifier::type_invariant]
    closed spec fn inv(self) -> bool {
        &&& well_formed(self.records@)
        &&& allocator_ahead(self.records@, self.ids.next())
    }

    /// The number the next created delegation receives.
    pub closed spec fn next_id(self) -> u64 {
        self.ids.next()
    }

    /// Move the records out, leaving an empty forest behind.
    fn take_records(&mut self) -> (r: HashMap<u64, DelegationRecord>)
        ensures
            r@ == old(self)@,
            well_formed(r@),
            allocator_ahead(r@, old(self).next_id()),
            final(self).next_id() == old(self).next_id(),
    {
        proof {
            use_type_invariant(&*self);
            lemma_empty_well_formed();
        }
        let mut records = HashMap::new();
        std::mem::swap(&mut records, &mut self.records);
        records
    }

    pub fn new() -> (r: Self)
        ensures
            r@ == Map::<u64, DelegationRecord>::empty(),
            r.next_id() == 1,
    {
        proof {
            lemma_empty_well_formed();
        }
        Delegations { records: HashMap::new(), ids: DelegationIdAllocator::new() }
    }

    /// The records, keyed by the number of their identity.
    pub fn records(&self) -> (r: &HashMap<u64, DelegationRecord>)
        ensures
            r@ == self@,
            well_formed(self@),
    {
        proof {
            use_type_invariant(self);
        }
        &self.records
    }

    /// An independent copy of the records and of the identity allocator.
    pub fn duplicate(&self) -> (r: Self)
        ensures
            r@ == self@,
            r.next_id() == self.next_id(),
    {
        proof {
            use_type_invariant(self);
        }
        let keys = key_list(&self.records);
        let mut records: HashMap<u64, DelegationRecord> = HashMap::new();
        let mut i: usize = 0;
        while i < keys.len()
            invariant
                keys@.to_set() == self.records@.dom(),
                0 <= i <= keys@.len(),
                records@ == self.records@.restrict(keys@.take(i as int).to_set()),
            decreases keys@.len() - i,
        {
            let k = keys[i];
            proof {
                assert(keys@.to_set().contains(k));
            }
            let copy = copy_record(record_at(&self.records, k));
            records.insert(k, copy);
            proof {
                assert(keys@.take(i + 1).to_set() =~= keys@.take(i as int).to_set().insert(k)) by {
                    assert(keys@.take(i + 1) =~= keys@.take(i as int).push(k));
                    keys@.take(i as int).lemma_push_to_set_commute(k);
                }
                assert(records@ =~= self.records@.restrict(keys@.take(i + 1).to_set()));
            }
            i = i + 1;
        }
        proof {
            assert(keys@.take(keys@.len() as int) =~= keys@);
            assert(records@ =~= self.records@);
        }
        Delegations { records, ids: self.ids.duplicate() }
    }

    pub fn get(&self, id: DelegationId) -> (r: Option<&DelegationRecord>)
        ensures
            match r {
                Some(rec) => self@.contains_key(id.value()) && *rec == self@[id.value()],
                None => !self@.contains_key(id.value()),
            },
    {
        self.records.get(&id.raw())
    }

    /// The record carried by `pane_id`; panes are unique, so there is at most one.
    pub fn delegation_for_pane(&self, pane_id: PaneId) -> (r: Option<&DelegationRecord>)
        ensures
            match r {
                Some(rec) => carries_pane(self@, rec.id.value(), pane_id) && *rec == self@[rec.id.value()],
                None => forall|k: u64| !carries_pane(self@, k, pane_id),
            },
    {
        proof {
            use_type_invariant(self);
        }
        match find_pane(&self.records, pane_id) {
            Some(k) => Some(record_at(&self.records, k)),
            None => None,
        }
    }

    /// Detach a closed pane but keep its provenance record as a tombstone.
    pub fn tombstone_pane(&mut self, pane_id: PaneId) -> (r: Option<DelegationId>)
        ensures
            match r {
                Some(id) => carries_pane(old(self)@, id.value(), pane_id) && final(self)@ == old(
                    self,
                )@.insert(id.value(), with_pane(old(self)@[id.value()], None, true)),
                None => (forall|k: u64| !carries_pane(old(self)@, k, pane_id)) && final(self)@ == old(
                    self,
                )@,
            },
            well_formed(final(self)@),
            final(self).next_id() == old(self).next_id(),
    {
        proof {
            use_type_invariant(&*self);
        }
        let k = match find_pane(&self.records, pane_id) {
            Some(k) => k,
            None => return None,
        };
        let id = record_at(&self.records, k).id;
        let mut records = self.take_records();
        let ghost before = records@;
        set_pane(&mut records, k, None, true);
        proof {
            let after = records@;
            assert(after.dom() =~= before.dom());
            assert(same_links(before, after));
            assert(panes_unique(after)) by {
                assert forall|a: u64, b: u64|
                    #![trigger after[a].pane_id, after[b].pane_id]
                    after.contains_key(a) && after.contains_key(b) && a != b && after[a].pane_id is Some
                    implies after[a].pane_id != after[b].pane_id by {
                    assert(before[a].pane_id != before[b].pane_id);
                }
            }
            lemma_well_formed_same_shape(before, after);
        }
        self.records = records;
        Some(id)
    }

    /// Associate or replace a record's pane after checking that no other
    /// record carries that pane. Reviving a tombstone clears its tombstone.
    pub fn associate_pane(&mut self, id: DelegationId, pane_id: PaneId) -> (r: Result<(), DelegationError>)
        ensures
            !old(self)@.contains_key(id.value()) ==> r == Err::<(), DelegationError>(
                DelegationError::NotFound(id),
            ) && final(self)@ == old(self)@,
            old(self)@.contains_key(id.value()) && (exists|k: u64| k != id.value() && carries_pane(old(self)@, k, pane_id))
                ==> r == Err::<(), DelegationError>(DelegationError::PaneAlreadyAssociated(pane_id))
                && final(self)@ == old(self)@,
            old(self)@.contains_key(id.value()) && !(exists|k: u64| k != id.value() && carries_pane(old(self)@, k, pane_id))
                ==> r is Ok && final(self)@ == old(self)@.insert(
                id.value(),
                with_pane(old(self)@[id.value()], Some(pane_id), false),
            ),
            well_formed(final(self)@),
            final(self).next_id() == old(self).next_id(),
    {
        proof {
            use_type_invariant(&*self);
        }
        let k = id.raw();
        if self.records.get(&k).is_none() {
            return Err(DelegationError::NotFound(id));
        }
        match find_pane(&self.records, pane_id) {
            Some(other) => {
                if other != k {
                    return Err(DelegationError::PaneAlreadyAssociated(pane_id));
                }
            },
            None => {},
        }
        let mut records = self.take_records();
        let ghost before = records@;
        set_pane(&mut records, k, Some(pane_id), false);
        proof {
            let after = records@;
            assert(after.dom() =~= before.dom());
            assert(same_links(before, after));
            assert(!(exists|j: u64| j != k && carries_pane(before, j, pane_id)));
            assert(panes_unique(after)) by {
                assert forall|a: u64, b: u64|
                    #![trigger after[a].pane_id, after[b].pane_id]
                    after.contains_key(a) && after.contains_key(b) && a != b && after[a].pane_id is Some
                    implies after[a].pane_id != after[b].pane_id by {
                    if a == k {
                        assert(!carries_pane(before, b, pane_id));
                    } else if b == k {
                        assert(!carries_pane(before, a, pane_id));
                    } else {
                        assert(before[a].pane_id != before[b].pane_id);
                    }
                }
            }
            lemma_well_formed_same_shape(before, after);
        }
        self.records = records;
        Ok(())
    }

    /// Move the delegation of `old_pane_id` onto `new_pane_id` without ever
    /// letting two records share a pane.
    pub fn remap_pane(&mut self, old_pane_id: PaneId, new_pane_id: PaneId) -> (r: Result<DelegationId, DelegationError>)
        ensures
            (forall|k: u64| !carries_pane(old(self)@, k, old_pane_id)) ==> r == Err::<DelegationId, DelegationError>(
                DelegationError::PaneNotAssociated(old_pane_id),
            ) && final(self)@ == old(self)@,
            (exists|k: u64| carries_pane(old(self)@, k, old_pane_id)) && old_pane_id == new_pane_id ==> r is Ok
                && carries_pane(old(self)@, r->Ok_0.value(), old_pane_id) && final(self)@ == old(self)@,
            (exists|k: u64| carries_pane(old(self)@, k, old_pane_id)) && old_pane_id != new_pane_id && (exists|k: u64|
                carries_pane(old(self)@, k, new_pane_id)) ==> r == Err::<DelegationId, DelegationError>(
                DelegationError::PaneAlreadyAssociated(new_pane_id),
            ) && final(self)@ == old(self)@,
            (exists|k: u64| carries_pane(old(self)@, k, old_pane_id)) && old_pane_id != new_pane_id && !(exists|k: u64|
                carries_pane(old(self)@, k, new_pane_id)) ==> r is Ok && carries_pane(
                old(self)@,
                r->Ok_0.value(),
                old_pane_id,
            ) && final(self)@ == old(self)@.insert(
                r->Ok_0.value(),
                with_pane(old(self)@[r->Ok_0.value()], Some(new_pane_id), old(self)@[r->Ok_0.value()].tombstone),
            ),
            well_formed(final(self)@),
            final(self).next_id() == old(self).next_id(),
    {
        proof {
            use_type_invariant(&*self);
        }
        let k = match find_pane(&self.records, old_pane_id) {
            Some(k) => k,
            None => return Err(DelegationError::PaneNotAssociated(old_pane_id)),
        };
        let rec = record_at(&self.records, k);
        let id = rec.id;
        let tombstone = rec.tombstone;
        if old_pane_id == new_pane_id {
            return Ok(id);
        }
        if find_pane(&self.records, new_pane_id).is_some() {
            return Err(DelegationError::PaneAlreadyAssociated(new_pane_id));
        }
        let mut records = self.take_records();
        let ghost before = records@;
        set_pane(&mut records, k, Some(new_pane_id), tombstone);
        proof {
            let after = records@;
            assert(after.dom() =~= before.dom());
            assert(same_links(before, after));
            assert(panes_unique(after)) by {
                assert forall|a: u64, b: u64|
                    #![trigger after[a].pane_id, after[b].pane_id]
                    after.contains_key(a) && after.contains_key(b) && a != b && after[a].pane_id is Some
                    implies after[a].pane_id != after[b].pane_id by {
                    if a == k {
                        assert(!carries_pane(before, b, new_pane_id));
                    } else if b == k {
                        assert(!carries_pane(before, a, new_pane_id));
                    } else {
                        assert(before[a].pane_id != before[b].pane_id);
                    }
                }
            }
            lemma_well_formed_same_shape(before, after);
        }
        self.records = records;
        Ok(id)
    }
}

impl Delegations {
    /// Create a record under `parent_id` (or as a root), appended after its
    /// existing siblings.
    pub fn create(&mut self, pane_id: Option<PaneId>, parent_id: Option<DelegationId>, purpose: Option<String>) -> (r: Result<DelegationId, DelegationError>)
        ensures
            match parent_id {
                Some(p) => !old(self)@.contains_key(p.value()) ==> r == Err::<DelegationId, DelegationError>(
                    DelegationError::ParentNotFound(p),
                ),
                None => true,
            },
            (parent_id is None || old(self)@.contains_key(parent_id->0.value())) && pane_id is Some && (exists|k: u64|
                carries_pane(old(self)@, k, pane_id->0)) ==> r == Err::<DelegationId, DelegationError>(
                DelegationError::PaneAlreadyAssociated(pane_id->0),
            ),
            (parent_id is None || old(self)@.contains_key(parent_id->0.value())) && (pane_id is None || !(exists|k: u64|
                carries_pane(old(self)@, k, pane_id->0))) ==> if old(self).next_id() == u64::MAX {
                r == Err::<DelegationId, DelegationError>(DelegationError::IdAllocationExhausted)
            } else {
                r is Ok
            },
            r is Err ==> final(self)@ == old(self)@ && final(self).next_id() == old(self).next_id(),
            r is Ok ==> {
                let id = r->Ok_0;
                &&& id.value() == old(self).next_id()
                &&& !old(self)@.contains_key(id.value())
                &&& final(self).next_id() == old(self).next_id() + 1
                &&& final(self)@ == old(self)@.insert(
                    id.value(),
                    DelegationRecord {
                        id,
                        pane_id,
                        parent_id,
                        purpose,
                        sibling_rank: siblings(old(self)@, parent_id).len() as u64,
                        tombstone: false,
                    },
                )
                &&& siblings(final(self)@, parent_id) == siblings(old(self)@, parent_id).push(id)
            },
            well_formed(final(self)@),
    {
        proof {
            use_type_invariant(&*self);
        }
        match parent_id {
            Some(p) => {
                if self.records.get(&p.raw()).is_none() {
                    return Err(DelegationError::ParentNotFound(p));
                }
            },
            None => {},
        }
        match pane_id {
            Some(q) => {
                if find_pane(&self.records, q).is_some() {
                    return Err(DelegationError::PaneAlreadyAssociated(q));
                }
            },
            None => {},
        }
        let ghost old_next = self.ids.next();
        let id = match DelegationId::allocate(&mut self.ids) {
            Ok(id) => id,
            Err(_) => return Err(DelegationError::IdAllocationExhausted),
        };
        let siblings_now = sibling_ids(&self.records, parent_id);
        let rank = siblings_now.len() as u64;
        let record = DelegationRecord {
            id,
            pane_id,
            parent_id,
            purpose,
            sibling_rank: rank,
            tombstone: false,
        };
        let mut records = self.take_records();
        let ghost before = records@;
        proof {
            assert(!before.contains_key(id.value())) by {
                if before.contains_key(id.value()) {
                    assert(id.value() < old_next || old_next == u64::MAX);
                }
            }
            lemma_siblings_eq(before, parent_id, siblings_now@);
            lemma_insert_leaf(before, id.value(), record, siblings_now@);
        }
        records.insert(id.raw(), record);
        self.records = records;
        Ok(id)
    }
}

/// Append every descendant of `parent` (depth first, in sibling order).
fn collect_descendants(records: &HashMap<u64, DelegationRecord>, parent: DelegationId, Ghost(fuel): Ghost<nat>, result: &mut Vec<DelegationId>)
    requires
        well_formed(records@),
        records@.contains_key(parent.value()),
        fuel + chain_len(records@, parent.value(), records@.dom().len())->0 + 1 >= records@.dom().len(),
    ensures
        final(result)@ == old(result)@ + subtree_list(records@, siblings(records@, Some(parent)), fuel),
    decreases fuel,
{
    let ghost m = records@;
    let ghost n = m.dom().len();
    proof {
        lemma_depth(m, parent.value());
    }
    let children = sibling_ids(records, Some(parent));
    proof {
        lemma_siblings_eq(m, Some(parent), children@);
    }
    let ghost start = result@;
    assert(children@.skip(0) =~= children@);
    let mut i: usize = 0;
    while i < children.len()
        invariant
            m == records@,
            n == m.dom().len(),
            well_formed(m),
            m.contains_key(parent.value()),
            chain_len(m, parent.value(), n) is Some,
            fuel + chain_len(m, parent.value(), n)->0 + 1 >= n,
            children@ == siblings(m, Some(parent)),
            is_sibling_order(m, Some(parent), children@),
            0 <= i <= children.len(),
            result@ + subtree_list(m, children@.skip(i as int), fuel) == start + subtree_list(m, children@, fuel),
        decreases children.len() - i,
    {
        let c = children[i];
        proof {
            assert(m.contains_key(c.value()) && m[c.value()].parent_id == Some(parent));
            lemma_child_depth(m, c.value());
            lemma_depth(m, c.value());
            let cs = children@.skip(i as int);
            assert(cs[0] == c);
            assert(cs.drop_first() =~= children@.skip(i + 1));
            assert(fuel > 0);
        }
        result.push(c);
        collect_descendants(records, c, Ghost((fuel - 1) as nat), result);
        proof {
            let cs = children@.skip(i as int);
            assert(subtree_list(m, cs, fuel) == seq![c] + subtree_list(m, siblings(m, Some(c)), (fuel - 1) as nat) + subtree_list(m, children@.skip(i + 1), fuel));
            assert(result@ + subtree_list(m, children@.skip(i + 1), fuel) =~= start + subtree_list(m, children@, fuel));
        }
        i = i + 1;
    }
    proof {
        assert(children@.skip(children@.len() as int) =~= Seq::<DelegationId>::empty());
        assert(result@ =~= start + subtree_list(m, children@, fuel));
    }
}

impl Delegations {
    /// The root reached by following parents from `id`.
    pub fn root(&self, id: DelegationId) -> (r: Result<DelegationId, DelegationError>)
        ensures
            !self@.contains_key(id.value()) ==> r == Err::<DelegationId, DelegationError>(DelegationError::NotFound(id)),
            self@.contains_key(id.value()) ==> r is Ok && r->Ok_0.value() == root_key(self@, id.value(), self@.dom().len())
                && self@.contains_key(r->Ok_0.value()) && self@[r->Ok_0.value()].parent_id is None,
    {
        proof {
            use_type_invariant(self);
        }
        let ghost m = self@;
        let ghost n = m.dom().len();
        if self.records.get(&id.raw()).is_none() {
            return Err(DelegationError::NotFound(id));
        }
        proof {
            lemma_depth(m, id.value());
            lemma_chain_len_le_fuel(m, id.value(), n);
        }
        let mut current = id;
        let ghost mut fuel: nat = n;
        loop
            invariant
                m == self@,
                n == m.dom().len(),
                well_formed(m),
                m.contains_key(current.value()),
                chain_len(m, current.value(), fuel) is Some,
                chain_len(m, current.value(), fuel)->0 <= fuel,
                root_key(m, id.value(), n) == root_key(m, current.value(), fuel),
            decreases chain_len(m, current.value(), fuel)->0,
        {
            let rec = record_at(&self.records, current.raw());
            match rec.parent_id {
                Some(p) => {
                    proof {
                        assert(m.contains_key(p.value()));
                        fuel = (fuel - 1) as nat;
                    }
                    current = p;
                },
                None => {
                    assert(rec.id.value() == current.value());
                    assert(root_key(m, current.value(), fuel) == current.value());
                    return Ok(rec.id);
                },
            }
        }
    }

    /// Whether walking up from `candidate` meets `ancestor`.
    fn is_descendant_of(&self, candidate: DelegationId, ancestor: DelegationId) -> (r: bool)
        requires
            self@.contains_key(candidate.value()),
        ensures
            r == reaches(self@, candidate.value(), ancestor.value(), self@.dom().len()),
    {
        proof {
            use_type_invariant(self);
        }
        let ghost m = self@;
        let ghost n = m.dom().len();
        proof {
            lemma_depth(m, candidate.value());
            lemma_chain_len_le_fuel(m, candidate.value(), n);
        }
        let mut current = candidate;
        let ghost mut fuel: nat = n;
        loop
            invariant
                m == self@,
                n == m.dom().len(),
                well_formed(m),
                m.contains_key(current.value()),
                chain_len(m, current.value(), fuel) is Some,
                chain_len(m, current.value(), fuel)->0 <= fuel,
                reaches(m, candidate.value(), ancestor.value(), n) == reaches(m, current.value(), ancestor.value(), fuel),
            decreases chain_len(m, current.value(), fuel)->0,
        {
            if current == ancestor {
                return true;
            }
            let rec = record_at(&self.records, current.raw());
            match rec.parent_id {
                Some(p) => {
                    proof {
                        assert(m.contains_key(p.value()));
                        fuel = (fuel - 1) as nat;
                    }
                    current = p;
                },
                None => {
                    return false;
                },
            }
        }
    }

    /// Descendants of `id`, depth first in sibling order.
    pub fn descendants(&self, id: DelegationId) -> (r: Result<Vec<DelegationId>, DelegationError>)
        ensures
            !self@.contains_key(id.value()) ==> r == Err::<Vec<DelegationId>, DelegationError>(DelegationError::NotFound(id)),
            self@.contains_key(id.value()) ==> r is Ok && r->Ok_0@ == descendants_of(self@, id),
    {
        proof {
            use_type_invariant(self);
        }
        if self.records.get(&id.raw()).is_none() {
            return Err(DelegationError::NotFound(id));
        }
        let mut result: Vec<DelegationId> = Vec::new();
        collect_descendants(&self.records, id, Ghost(self@.dom().len()), &mut result);
        assert(result@ =~= descendants_of(self@, id));
        Ok(result)
    }

    /// Every record in forest preorder: each root in sibling order, followed
    /// by its descendants.
    pub fn preorder(&self) -> (r: Vec<DelegationId>)
        ensures
            r@ == preorder_of(self@),
    {
        proof {
            use_type_invariant(self);
        }
        let ghost m = self@;
        let ghost n = m.dom().len();
        let roots = sibling_ids(&self.records, None);
        proof {
            lemma_siblings_eq(m, None, roots@);
        }
        let mut result: Vec<DelegationId> = Vec::new();
        assert(roots@.skip(0) =~= roots@);
        assert(result@ + subtree_list(m, roots@.skip(0), n) =~= subtree_list(m, roots@, n));
        let mut i: usize = 0;
        while i < roots.len()
            invariant
                m == self@,
                n == m.dom().len(),
                well_formed(m),
                roots@ == siblings(m, None),
                is_sibling_order(m, None, roots@),
                0 <= i <= roots.len(),
                result@ + subtree_list(m, roots@.skip(i as int), n) == subtree_list(m, roots@, n),
            decreases roots.len() - i,
        {
            let r = roots[i];
            proof {
                assert(m.contains_key(r.value()) && m[r.value()].parent_id is None);
                assert(chain_len(m, r.value(), n) == Some(0nat));
                let cs = roots@.skip(i as int);
                assert(cs[0] == r);
                assert(cs.drop_first() =~= roots@.skip(i + 1));
                assert(n > 0) by {
                    assert(m.dom().contains(r.value()));
                }
            }
            result.push(r);
            collect_descendants(&self.records, r, Ghost((n - 1) as nat), &mut result);
            proof {
                let cs = roots@.skip(i as int);
                assert(subtree_list(m, cs, n) == seq![r] + subtree_list(m, siblings(m, Some(r)), (n - 1) as nat) + subtree_list(m, roots@.skip(i + 1), n));
                assert(result@ + subtree_list(m, roots@.skip(i + 1), n) =~= subtree_list(m, roots@, n));
            }
            i = i + 1;
        }
        proof {
            assert(roots@.skip(roots@.len() as int) =~= Seq::<DelegationId>::empty());
            assert(result@ =~= subtree_list(m, roots@, n));
        }
        result
    }
}

/// The first position of `x` in `v`, or `v.len()` when it is absent.
fn position_of(v: &Vec<DelegationId>, x: DelegationId) -> (r: usize)
    ensures
        r <= v@.len(),
        forall|a: int| 0 <= a < r ==> v@[a] != x,
        r < v@.len() ==> v@[r as int] == x,
        r == v@.len() ==> !v@.contains(x),
{
    let mut a: usize = 0;
    while a < v.len() && v[a] != x
        invariant
            0 <= a <= v@.len(),
            forall|b: int| 0 <= b < a ==> v@[b] != x,
        decreases v@.len() - a,
    {
        a = a + 1;
    }
    a
}

/// Point record `k` at another parent and give it another rank.
fn set_parent(records: &mut HashMap<u64, DelegationRecord>, k: u64, parent: Option<DelegationId>, rank: u64)
    requires
        old(records)@.contains_key(k),
    ensures
        final(records)@ == old(records)@.insert(k, with_parent(old(records)@[k], parent, rank)),
{
    let mut rec = records.remove(&k).unwrap();
    rec.parent_id = parent;
    rec.sibling_rank = rank;
    records.insert(k, rec);
    assert(final(records)@ =~= old(records)@.insert(k, with_parent(old(records)@[k], parent, rank)));
}

/// `parent` is a parent `id` can move under without creating a cycle.
pub open spec fn valid_new_parent(m: Forest, id: DelegationId, parent: Option<DelegationId>) -> bool {
    match parent {
        Some(p) => p != id && m.contains_key(p.value()) && !reaches(m, p.value(), id.value(), m.dom().len()),
        None => true,
    }
}

/// Where `position` puts a delegation among its other siblings `others`.
pub open spec fn reorder_index(others: Seq<DelegationId>, position: SiblingPosition) -> int {
    match position {
        SiblingPosition::First => 0,
        SiblingPosition::Last => others.len() as int,
        SiblingPosition::Before(a) => others.index_of(a),
        SiblingPosition::After(a) => others.index_of(a) + 1,
    }
}

/// The anchor `position` names, if any.
pub open spec fn anchor_of(position: SiblingPosition) -> Option<DelegationId> {
    match position {
        SiblingPosition::Before(a) => Some(a),
        SiblingPosition::After(a) => Some(a),
        _ => None,
    }
}

/// The siblings of `id` other than `id`, in order.
pub open spec fn other_siblings(m: Forest, id: DelegationId) -> Seq<DelegationId> {
    let s = siblings(m, m[id.value()].parent_id);
    s.remove(s.index_of(id))
}

/// Whether moving `id` to `position` among its siblings succeeds on `m`:
/// `id` is a record and the anchor, if any, is one of its other siblings.
pub open spec fn reorder_succeeds(m: Forest, id: DelegationId, position: SiblingPosition) -> bool {
    &&& m.contains_key(id.value())
    &&& anchor_of(position) is None || other_siblings(m, id).contains(anchor_of(position)->0)
}

/// `m2` is `m` with `id` moved to `position` among its siblings and that
/// sibling group renumbered; nothing else changes.
pub open spec fn reorder_result(m: Forest, id: DelegationId, position: SiblingPosition, m2: Forest) -> bool {
    let parent = m[id.value()].parent_id;
    let others = other_siblings(m, id);
    &&& m2.dom() == m.dom()
    &&& forall|k: u64| #[trigger] m.contains_key(k) ==> same_but_rank(m2[k], m[k])
    &&& forall|k: u64| #[trigger] m.contains_key(k) && m[k].parent_id != parent ==> m2[k] == m[k]
    &&& siblings(m2, parent) == others.insert(reorder_index(others, position), id)
    &&& well_formed(m2)
}

impl Delegations {
    /// Move `id` under `parent_id` (or make it a root), last among its new
    /// siblings; both sibling groups are renumbered.
    pub fn reparent(&mut self, id: DelegationId, parent_id: Option<DelegationId>) -> (r: Result<(), DelegationError>)
        ensures
            !old(self)@.contains_key(id.value()) ==> r == Err::<(), DelegationError>(DelegationError::NotFound(id)),
            old(self)@.contains_key(id.value()) && parent_id == Some(id) ==> r == Err::<(), DelegationError>(
                DelegationError::SelfParent,
            ),
            old(self)@.contains_key(id.value()) && parent_id is Some && parent_id != Some(id) && !old(self)@.contains_key(
                parent_id->0.value(),
            ) ==> r == Err::<(), DelegationError>(DelegationError::ParentNotFound(parent_id->0)),
            old(self)@.contains_key(id.value()) && parent_id is Some && parent_id != Some(id) && old(self)@.contains_key(
                parent_id->0.value(),
            ) && reaches(old(self)@, parent_id->0.value(), id.value(), old(self)@.dom().len())
                ==> r == Err::<(), DelegationError>(DelegationError::Cycle),
            old(self)@.contains_key(id.value()) && valid_new_parent(old(self)@, id, parent_id) ==> r is Ok,
            r is Err || old(self)@[id.value()].parent_id == parent_id ==> final(self)@ == old(self)@,
            r is Ok && old(self)@[id.value()].parent_id != parent_id ==> {
                let old_parent = old(self)@[id.value()].parent_id;
                let s_old = siblings(old(self)@, old_parent);
                &&& final(self)@.dom() == old(self)@.dom()
                &&& same_but_rank(final(self)@[id.value()], with_parent(old(self)@[id.value()], parent_id, 0))
                &&& forall|k: u64| #[trigger] old(self)@.contains_key(k) && k != id.value() ==> same_but_rank(final(self)@[k], old(self)@[k])
                &&& siblings(final(self)@, old_parent) == s_old.remove(s_old.index_of(id))
                &&& siblings(final(self)@, parent_id) == siblings(old(self)@, parent_id).push(id)
                &&& forall|k: u64|
                    #[trigger] old(self)@.contains_key(k) && k != id.value() && old(self)@[k].parent_id != old_parent
                        && old(self)@[k].parent_id != parent_id ==> final(self)@[k] == old(self)@[k]
            },
            well_formed(final(self)@),
            final(self).next_id() == old(self).next_id(),
    {
        proof {
            use_type_invariant(&*self);
        }
        let ghost m = self@;
        let ghost n = m.dom().len();
        let k = id.raw();
        let old_parent = match self.records.get(&k) {
            Some(rec) => rec.parent_id,
            None => return Err(DelegationError::NotFound(id)),
        };
        if same_id_option(parent_id, Some(id)) {
            return Err(DelegationError::SelfParent);
        }
        match parent_id {
            Some(p) => {
                if self.records.get(&p.raw()).is_none() {
                    return Err(DelegationError::ParentNotFound(p));
                }
                if self.is_descendant_of(p, id) {
                    return Err(DelegationError::Cycle);
                }
            },
            None => {},
        }
        if same_id_option(old_parent, parent_id) {
            return Ok(());
        }
        let new_siblings = sibling_ids(&self.records, parent_id);
        let new_rank = new_siblings.len() as u64;
        let mut records = self.take_records();
        proof {
            lemma_siblings_eq(m, parent_id, new_siblings@);
            lemma_siblings_exist(m, old_parent);
            lemma_relink_orders(m, k, parent_id, siblings(m, old_parent), new_siblings@);
        }
        set_parent(&mut records, k, parent_id, new_rank);
        let ghost m1 = records@;
        proof {
            assert(m1.dom() =~= m.dom());
            lemma_relink_acyclic(m, m1, k);
            let s_old = siblings(m, old_parent);
            lemma_siblings_eq(m1, old_parent, s_old.remove(s_old.index_of(id)));
            lemma_siblings_eq(m1, parent_id, new_siblings@.push(id));
            assert(ids_consistent(m1));
        }
        normalize_siblings(&mut records, old_parent);
        let ghost m2 = records@;
        proof {
            lemma_group_frame(m1, m2, parent_id);
            lemma_siblings_eq(m2, parent_id, new_siblings@.push(id));
        }
        normalize_siblings(&mut records, parent_id);
        let ghost m3 = records@;
        proof {
            lemma_group_frame(m2, m3, old_parent);
            lemma_siblings_exist(m2, old_parent);
            lemma_siblings_eq(m3, old_parent, siblings(m2, old_parent));
            assert(same_links(m1, m3));
            lemma_same_links_acyclic(m1, m3);
            assert forall|x: u64| #[trigger] m3.contains_key(x) implies group_normalized(m3, m3[x].parent_id) by {
                let g = m3[x].parent_id;
                if g != old_parent && g != parent_id {
                    lemma_normalized_groups(m, g);
                    lemma_group_frame(m, m1, g);
                    lemma_group_frame(m1, m2, g);
                    lemma_group_frame(m2, m3, g);
                }
            }
            lemma_groups_normalize(m3);
            assert(panes_unique(m3)) by {
                assert forall|a: u64, b: u64|
                    #![trigger m3[a].pane_id, m3[b].pane_id]
                    m3.contains_key(a) && m3.contains_key(b) && a != b && m3[a].pane_id is Some
                    implies m3[a].pane_id != m3[b].pane_id by {
                    assert(m[a].pane_id != m[b].pane_id);
                }
            }
            assert(ids_consistent(m3));
            assert(parents_present(m3)) by {
                assert forall|x: u64| #[trigger] m3.contains_key(x) implies match m3[x].parent_id {
                    Some(p) => m3.contains_key(p.value()),
                    None => true,
                } by {
                    assert(m.contains_key(x));
                }
            }
            assert(allocator_ahead(m3, self.ids.next()));
        }
        self.records = records;
        Ok(())
    }

    /// Move `id` to `position` among its siblings and renumber the group.
    pub fn reorder(&mut self, id: DelegationId, position: SiblingPosition) -> (r: Result<(), DelegationError>)
        ensures
            !old(self)@.contains_key(id.value()) ==> r == Err::<(), DelegationError>(DelegationError::NotFound(id)),
            old(self)@.contains_key(id.value()) && anchor_of(position) is Some && !other_siblings(old(self)@, id).contains(
                anchor_of(position)->0,
            ) ==> r == Err::<(), DelegationError>(DelegationError::NotSibling(anchor_of(position)->0)),
            r is Ok <==> reorder_succeeds(old(self)@, id, position),
            r is Err ==> final(self)@ == old(self)@,
            r is Ok ==> reorder_result(old(self)@, id, position, final(self)@),
            well_formed(final(self)@),
            final(self).next_id() == old(self).next_id(),
    {
        proof {
            use_type_invariant(&*self);
        }
        let ghost m = self@;
        let k = id.raw();
        let parent = match self.records.get(&k) {
            Some(rec) => rec.parent_id,
            None => return Err(DelegationError::NotFound(id)),
        };
        let mut siblings_now = sibling_ids(&self.records, parent);
        let ghost s = siblings_now@;
        proof {
            lemma_siblings_eq(m, parent, s);
            let i0 = choose|i: int| 0 <= i < s.len() && s[i].value() == k;
            assert(s[i0] == id);
        }
        let j = position_of(&siblings_now, id);
        proof {
            let i0 = choose|i: int| 0 <= i < s.len() && s[i].value() == k;
            lemma_index_of_sorted(m, s, i0);
            lemma_index_of_sorted(m, s, j as int);
        }
        siblings_now.remove(j);
        let ghost others = siblings_now@;
        assert(others =~= other_siblings(m, id));
        let index = match position {
            SiblingPosition::First => 0,
            SiblingPosition::Last => siblings_now.len(),
            SiblingPosition::Before(anchor) | SiblingPosition::After(anchor) => {
                let a = position_of(&siblings_now, anchor);
                if a == siblings_now.len() {
                    return Err(DelegationError::NotSibling(anchor));
                }
                proof {
                    s.remove_ensures(j as int);
                    let aa = others.index_of(anchor);
                    if aa != a {
                        let i1 = if aa < j { aa } else { aa + 1 };
                        let i2 = if a < j { a as int } else { a + 1 };
                        assert(others[aa] == s[i1] && others[a as int] == s[i2]);
                        assert(precedes(m, s[i1].value(), s[i2].value()) || precedes(m, s[i2].value(), s[i1].value()));
                    }
                }
                match position {
                    SiblingPosition::After(_) => a + 1,
                    _ => a,
                }
            },
        };
        siblings_now.insert(index, id);
        proof {
            lemma_reinsert(m, parent, s, j as int, index as int);
        }
        let mut records = self.take_records();
        set_sibling_order(&mut records, &siblings_now);
        proof {
            lemma_permuted_order(m, records@, parent, siblings_now@);
        }
        self.records = records;
        Ok(())
    }
}

fn vec_contains(v: &Vec<u64>, x: u64) -> (r: bool)
    ensures
        r == v@.contains(x),
{
    let mut i: usize = 0;
    while i < v.len()
        invariant
            0 <= i <= v@.len(),
            forall|a: int| 0 <= a < i ==> v@[a] != x,
        decreases v@.len() - i,
    {
        if v[i] == x {
            return true;
        }
        i = i + 1;
    }
    false
}

/// The keys of `records` in increasing order.
fn sorted_keys(records: &HashMap<u64, DelegationRecord>) -> (r: Vec<u64>)
    ensures
        r@.to_set() == records@.dom(),
        forall|a: int, b: int| 0 <= a < b < r@.len() ==> #[trigger] r@[a] < #[trigger] r@[b],
{
    let keys = key_list(records);
    let mut out: Vec<u64> = Vec::new();
    let mut i: usize = 0;
    while i < keys.len()
        invariant
            0 <= i <= keys@.len(),
            forall|a: int, b: int| 0 <= a < b < out@.len() ==> #[trigger] out@[a] < #[trigger] out@[b],
            forall|x: u64| out@.contains(x) <==> listed_before(keys@, i as int, x),
            keys@.no_duplicates(),
        decreases keys@.len() - i,
    {
        let k = keys[i];
        let mut j: usize = 0;
        while j < out.len() && out[j] < k
            invariant
                0 <= j <= out@.len(),
                forall|a: int| 0 <= a < j ==> out@[a] < k,
            decreases out@.len() - j,
        {
            j = j + 1;
        }
        let ghost before = out@;
        proof {
            assert(!before.contains(k)) by {
                if before.contains(k) {
                    let x = choose|x: int| 0 <= x < i && keys@[x] == k;
                    assert(keys@[x] == keys@[i as int]);
                }
            }
        }
        out.insert(j, k);
        proof {
            assert forall|a: int, b: int| 0 <= a < b < out@.len() implies #[trigger] out@[a] < #[trigger] out@[b] by {
                if b < j {
                    assert(out@[a] == before[a] && out@[b] == before[b]);
                } else if b == j {
                    assert(out@[a] == before[a]);
                } else if a == j {
                    assert(out@[b] == before[b - 1]);
                    assert(before[j as int] >= k);
                    assert(before[j as int] != k);
                    if b - 1 > j {
                        assert(before[j as int] < before[b - 1]);
                    }
                } else if a < j {
                    assert(out@[a] == before[a] && out@[b] == before[b - 1]);
                } else {
                    assert(out@[a] == before[a - 1] && out@[b] == before[b - 1]);
                }
            }
            assert forall|x: u64| out@.contains(x) <==> listed_before(keys@, i + 1, x) by {
                if out@.contains(x) {
                    let a = choose|a: int| 0 <= a < out@.len() && out@[a] == x;
                    if a < j {
                        assert(before[a] == x);
                        assert(before.contains(x));
                    } else if a > j {
                        assert(before[a - 1] == x);
                        assert(before.contains(x));
                    } else {
                        assert(keys@[i as int] == x);
                    }
                }
                if listed_before(keys@, i + 1, x) {
                    let y = choose|y: int| 0 <= y < i + 1 && keys@[y] == x;
                    if y < i {
                        assert(listed_before(keys@, i as int, x));
                        assert(before.contains(x));
                        let a = choose|a: int| 0 <= a < before.len() && before[a] == x;
                        if a < j {
                            assert(out@[a] == x);
                        } else {
                            assert(out@[a + 1] == x);
                        }
                    } else {
                        assert(out@[j as int] == x);
                    }
                }
            }
        }
        i = i + 1;
    }
    proof {
        assert forall|x: u64| out@.to_set().contains(x) <==> records@.dom().contains(x) by {
            if records@.dom().contains(x) {
                assert(keys@.to_set().contains(x));
                let y = choose|y: int| 0 <= y < keys@.len() && keys@[y] == x;
                assert(listed_before(keys@, keys@.len() as int, x));
            }
            if out@.contains(x) {
                let y = choose|y: int| 0 <= y < keys@.len() && keys@[y] == x;
                assert(keys@.to_set().contains(x));
            }
        }
        assert(out@.to_set() =~= records@.dom());
    }
    out
}

/// Check that following parents from every record ends at a root, visiting
/// starting points in increasing order.
fn validate_acyclic(records: &HashMap<u64, DelegationRecord>) -> (r: Result<(), DelegationValidationError>)
    requires
        records@.dom().finite(),
        ids_consistent(records@),
        parents_present(records@),
    ensures
        r is Ok <==> acyclic(records@),
        r is Err ==> r->Err_0 is Cycle && records@.contains_key(r->Err_0->Cycle_0.value()) && on_cycle(
            records@,
            r->Err_0->Cycle_0.value(),
        ) && r->Err_0->Cycle_0.value() == first_revisit(records@, lowest_revisiting(records@)),
{
    let ghost m = records@;
    let ghost n = m.dom().len();
    let ids = sorted_keys(records);
    let mut complete: Vec<u64> = Vec::new();
    let mut i: usize = 0;
    while i < ids.len()
        invariant
            m == records@,
            n == m.dom().len(),
            m.dom().finite(),
            ids_consistent(m),
            parents_present(m),
            ids@.to_set() == m.dom(),
            forall|a: int, b: int| 0 <= a < b < ids@.len() ==> #[trigger] ids@[a] < #[trigger] ids@[b],
            0 <= i <= ids@.len(),
            forall|a: int| 0 <= a < complete@.len() ==> m.contains_key(#[trigger] complete@[a]) && terminates(m, complete@[a]),
            forall|a: int| 0 <= a < i ==> complete@.contains(#[trigger] ids@[a]),
        decreases ids@.len() - i,
    {
        let start = ids[i];
        assert(ids@.to_set().contains(start));
        if !vec_contains(&complete, start) {
            let mut path: Vec<u64> = Vec::new();
            let mut current: Option<u64> = Some(start);
            proof {
                assert(walk_ok(m, start, path@, current));
                assert forall|t: u64| #[trigger] m.contains_key(t) && t < start implies terminates(m, t) by {
                    assert(ids@.to_set().contains(t));
                    let b = choose|b: int| 0 <= b < ids@.len() && ids@[b] == t;
                    if b >= i {
                        if b > i {
                            assert(ids@[i as int] < ids@[b]);
                        }
                    }
                    assert(complete@.contains(ids@[b]));
                    let y = choose|y: int| 0 <= y < complete@.len() && complete@[y] == t;
                }
            }
            loop
                invariant_except_break
                    m == records@,
                    n == m.dom().len(),
                    m.dom().finite(),
                    parents_present(m),
                    m.contains_key(start),
                    ids_consistent(m),
                    !complete@.contains(start),
                    forall|t: u64| #[trigger] m.contains_key(t) && t < start ==> terminates(m, t),
                    walk_ok(m, start, path@, current),
                    forall|a: int| 0 <= a < complete@.len() ==> m.contains_key(#[trigger] complete@[a]) && terminates(m, complete@[a]),
                ensures
                    m == records@,
                    walk_done(m, start, path@),
                    forall|a: int| 0 <= a < complete@.len() ==> m.contains_key(#[trigger] complete@[a]) && terminates(m, complete@[a]),
                decreases n - path@.len(),
            {
                let id = match current {
                    Some(id) => id,
                    None => {
                        proof {
                            lemma_walk_ends(m, start, path@, current);
                        }
                        break;
                    },
                };
                if vec_contains(&complete, id) {
                    proof {
                        let a = choose|a: int| 0 <= a < complete@.len() && complete@[a] == id;
                        lemma_walk_ends(m, start, path@, current);
                    }
                    break;
                }
                if vec_contains(&path, id) {
                    proof {
                        lemma_walk_cycle(m, start, path@, id);
                        lemma_cycle_not_terminating(m, id);
                        if acyclic(m) {
                            assert(chain_len(m, id, n) is Some);
                            assert(terminates(m, id));
                        }
                        lemma_walk_revisit(m, start, path@, id);
                        lemma_lowest_is_first_revisiting(m, start);
                    }
                    return Err(DelegationValidationError::Cycle(record_at(records, id).id));
                }
                let ghost old_path = path@;
                path.push(id);
                let rec = record_at(records, id);
                current = match rec.parent_id {
                    Some(p) => Some(p.raw()),
                    None => None,
                };
                proof {
                    lemma_walk_step(m, start, old_path, id);
                }
            }
            // every record on the path now reaches a root
            let ghost len = path@.len();
            proof {
                lemma_path_terminates(m, path@, 0);
            }
            let mut a: usize = 0;
            while a < path.len()
                invariant
                    0 <= a <= path@.len(),
                    forall|x: int| 0 <= x < path@.len() ==> m.contains_key(#[trigger] path@[x]) && terminates(m, path@[x]),
                    forall|x: int| 0 <= x < complete@.len() ==> m.contains_key(#[trigger] complete@[x]) && terminates(m, complete@[x]),
                    path@[0] == start,
                    path@.len() > 0,
                    a > 0 ==> complete@.contains(start),
                    forall|x: int| 0 <= x < i ==> complete@.contains(#[trigger] ids@[x]),
                decreases path@.len() - a,
            {
                let ghost prev = complete@;
                complete.push(path[a]);
                proof {
                    assert(complete@[prev.len() as int] == path@[a as int]);
                    assert forall|x: int| 0 <= x < i implies complete@.contains(#[trigger] ids@[x]) by {
                        let y = choose|y: int| 0 <= y < prev.len() && prev[y] == ids@[x];
                        assert(complete@[y] == prev[y]);
                    }
                    if a > 0 {
                        let y = choose|y: int| 0 <= y < prev.len() && prev[y] == start;
                        assert(complete@[y] == prev[y]);
                    }
                }
                a = a + 1;
            }
        }
        proof {
            assert forall|x: int| 0 <= x < i + 1 implies complete@.contains(#[trigger] ids@[x]) by {}
        }
        i = i + 1;
    }
    proof {
        assert forall|k: u64| m.contains_key(k) implies (#[trigger] chain_len(m, k, m.dom().len())) is Some by {
            assert(ids@.to_set().contains(k));
            let x = choose|x: int| 0 <= x < ids@.len() && ids@[x] == k;
            assert(complete@.contains(ids@[x]));
            let y = choose|y: int| 0 <= y < complete@.len() && complete@[y] == k;
            lemma_terminates_bounded(m, k);
        }
    }
    Ok(())
}

/// The parent of a record whose chain ends at a root also has such a chain.
proof fn lemma_terminates_up(m: Forest, t: u64, i: nat)
    requires
        terminates(m, t),
        ancestor(m, t, i) is Some,
    ensures
        terminates(m, ancestor(m, t, i)->0),
    decreases i,
{
    if i > 0 {
        lemma_terminates_up(m, t, (i - 1) as nat);
        let a = ancestor(m, t, (i - 1) as nat)->0;
        let p = ancestor(m, t, i)->0;
        assert(m.contains_key(a) && parent_key(m[a]) == Some(p));
        let f = choose|f: nat| #[trigger] chain_len(m, a, f) is Some;
        assert(f > 0);
        assert(chain_len(m, p, (f - 1) as nat) is Some);
    }
}

/// A record whose chain ends at a root never meets a record twice.
proof fn lemma_terminating_no_revisit(m: Forest, t: u64)
    requires
        terminates(m, t),
    ensures
        !revisits(m, t),
{
    if revisits(m, t) {
        let j = choose|j: nat| #[trigger] revisits_at(m, t, j);
        let i = choose|i: nat| i < j && #[trigger] ancestor(m, t, i) == ancestor(m, t, j);
        let x = ancestor(m, t, i)->0;
        lemma_ancestor_compose(m, t, i, (j - i) as nat, x);
        assert(ancestor(m, x, (j - i) as nat) == Some(x));
        assert(on_cycle(m, x));
        lemma_cycle_not_terminating(m, x);
        lemma_terminates_up(m, t, i);
    }
}

/// When every record below `start` reaches a root and the walk from
/// `start` meets a record twice, `start` is the smallest such record.
proof fn lemma_lowest_is_first_revisiting(m: Forest, start: u64)
    requires
        m.contains_key(start),
        revisits(m, start),
        forall|t: u64| #[trigger] m.contains_key(t) && t < start ==> terminates(m, t),
    ensures
        lowest_revisiting(m) == start,
{
    assert forall|t: u64| m.contains_key(t) && revisits(m, t) implies start <= t by {
        if t < start {
            lemma_terminating_no_revisit(m, t);
        }
    }
    let s = lowest_revisiting(m);
    assert(m.contains_key(s) && revisits(m, s) && forall|t: u64| m.contains_key(t) && revisits(m, t) ==> s <= t);
}

/// `path` is the walk up from `start` so far and `current` the next record.
spec fn walk_ok(m: Forest, start: u64, path: Seq<u64>, current: Option<u64>) -> bool {
    &&& path.no_duplicates()
    &&& forall|a: int| 0 <= a < path.len() ==> ancestor(m, start, a as nat) == Some(#[trigger] path[a]) && m.contains_key(path[a])
    &&& current == ancestor(m, start, path.len())
    &&& current is Some ==> m.contains_key(current->0)
    &&& path.len() == 0 ==> current == Some(start)
    &&& forall|a: int| 0 <= a < path.len() - 1 ==> parent_key(m[#[trigger] path[a]]) == Some(path[a + 1])
    &&& path.len() > 0 ==> parent_key(m[path.last()]) == current
}

/// The walk from `start` stopped at a root or at a record known to reach one.
spec fn walk_done(m: Forest, start: u64, path: Seq<u64>) -> bool {
    &&& path.len() > 0
    &&& path[0] == start
    &&& forall|a: int| 0 <= a < path.len() ==> m.contains_key(#[trigger] path[a])
    &&& forall|a: int| 0 <= a < path.len() - 1 ==> parent_key(m[#[trigger] path[a]]) == Some(path[a + 1])
    &&& match parent_key(m[path.last()]) {
        Some(c) => terminates(m, c),
        None => true,
    }
}

proof fn lemma_walk_ends(m: Forest, start: u64, path: Seq<u64>, current: Option<u64>)
    requires
        walk_ok(m, start, path, current),
        match current {
            Some(c) => terminates(m, c) && c != start,
            None => true,
        },
    ensures
        walk_done(m, start, path),
{
    assert(ancestor(m, start, 0) == Some(start));
    if path.len() > 0 {
        assert(ancestor(m, start, 0) == Some(path[0]));
    }
}

proof fn lemma_walk_cycle(m: Forest, start: u64, path: Seq<u64>, id: u64)
    requires
        walk_ok(m, start, path, Some(id)),
        path.contains(id),
    ensures
        on_cycle(m, id),
{
    let a = choose|a: int| 0 <= a < path.len() && path[a] == id;
    let len = path.len();
    assert(ancestor(m, start, a as nat) == Some(path[a]));
    lemma_ancestor_compose(m, start, a as nat, (len - a) as nat, id);
    assert(ancestor(m, id, (len - a) as nat) == Some(id));
}

proof fn lemma_walk_step(m: Forest, start: u64, path: Seq<u64>, id: u64)
    requires
        walk_ok(m, start, path, Some(id)),
        !path.contains(id),
        m.dom().finite(),
        parents_present(m),
    ensures
        walk_ok(m, start, path.push(id), parent_key(m[id])),
        path.len() < m.dom().len(),
{
    let ext = path.push(id);
    assert(ext.no_duplicates());
    ext.unique_seq_to_set();
    assert(ext.to_set().subset_of(m.dom()));
    vstd::set_lib::lemma_len_subset(ext.to_set(), m.dom());
    assert(ancestor(m, start, ext.len()) == match ancestor(m, start, path.len()) {
        Some(x) => if m.contains_key(x) { parent_key(m[x]) } else { None },
        None => None,
    });
    assert forall|a: int| 0 <= a < ext.len() implies ancestor(m, start, a as nat) == Some(#[trigger] ext[a]) && m.contains_key(ext[a]) by {
        if a < path.len() {
            assert(ext[a] == path[a]);
        }
    }
    assert forall|a: int| 0 <= a < ext.len() - 1 implies parent_key(m[#[trigger] ext[a]]) == Some(ext[a + 1]) by {
        if a + 1 < path.len() {
            assert(ext[a] == path[a] && ext[a + 1] == path[a + 1]);
        } else {
            assert(ext[a] == path.last());
        }
    }
    match parent_key(m[id]) {
        Some(c) => {
            assert(m[id].parent_id is Some);
        },
        None => {},
    }
}

proof fn lemma_path_terminates(m: Forest, path: Seq<u64>, a: int)
    requires
        0 <= a < path.len(),
        forall|x: int| 0 <= x < path.len() ==> m.contains_key(#[trigger] path[x]),
        forall|x: int| 0 <= x < path.len() - 1 ==> parent_key(m[#[trigger] path[x]]) == Some(path[x + 1]),
        match parent_key(m[path.last()]) {
            Some(c) => terminates(m, c),
            None => true,
        },
    ensures
        forall|x: int| a <= x < path.len() ==> terminates(m, #[trigger] path[x]),
    decreases path.len() - a,
{
    if a < path.len() - 1 {
        lemma_path_terminates(m, path, a + 1);
        assert(terminates(m, path[a + 1]));
        assert(m[path[a]].parent_id->0.value() == path[a + 1]);
    }
    lemma_terminates_step(m, path[a]);
}

/// Renumber every sibling group as `0..n` in its sibling order.
fn normalize_all_siblings(records: &mut HashMap<u64, DelegationRecord>)
    requires
        old(records)@.dom().finite(),
        ids_consistent(old(records)@),
    ensures
        same_links(old(records)@, final(records)@),
        final(records)@.dom().finite(),
        ids_consistent(final(records)@),
        forall|k: u64| #[trigger] old(records)@.contains_key(k) ==> same_but_rank(final(records)@[k], old(records)@[k]),
        forall|q: Option<DelegationId>| #[trigger] siblings(final(records)@, q) == siblings(old(records)@, q),
        ranks_normalized(final(records)@),
{
    let ghost m0 = records@;
    let keys = key_list(records);
    let mut i: usize = 0;
    while i < keys.len()
        invariant
            keys@.to_set() == m0.dom(),
            0 <= i <= keys@.len(),
            m0.dom().finite(),
            ids_consistent(m0),
            same_links(m0, records@),
            records@.dom().finite(),
            ids_consistent(records@),
            forall|k: u64| #[trigger] m0.contains_key(k) ==> same_but_rank(records@[k], m0[k]),
            forall|q: Option<DelegationId>| #[trigger] siblings(records@, q) == siblings(m0, q),
            forall|x: u64| #[trigger] listed_before(keys@, i as int, x) ==> group_normalized(records@, m0[x].parent_id),
        decreases keys@.len() - i,
    {
        let k = keys[i];
        assert(keys@.to_set().contains(k));
        let parent = record_at(records, k).parent_id;
        let ghost cur = records@;
        normalize_siblings(records, parent);
        proof {
            let next = records@;
            assert forall|q: Option<DelegationId>| #[trigger] siblings(next, q) == siblings(m0, q) by {
                if q != parent {
                    lemma_group_frame(cur, next, q);
                    lemma_siblings_exist(cur, q);
                    lemma_siblings_eq(next, q, siblings(cur, q));
                }
            }
            assert forall|x: u64| #[trigger] listed_before(keys@, i + 1, x) implies group_normalized(next, m0[x].parent_id) by {
                let g = m0[x].parent_id;
                if g != parent {
                    let y = choose|y: int| 0 <= y < i + 1 && keys@[y] == x;
                    if y == i {
                        assert(g == parent);
                    }
                    assert(listed_before(keys@, i as int, x));
                    lemma_group_frame(cur, next, g);
                }
            }
        }
        i = i + 1;
    }
    proof {
        let fin = records@;
        assert forall|x: u64| #[trigger] fin.contains_key(x) implies group_normalized(fin, fin[x].parent_id) by {
            assert(keys@.to_set().contains(x));
            let y = choose|y: int| 0 <= y < keys@.len() && keys@[y] == x;
            assert(listed_before(keys@, keys@.len() as int, x));
        }
        lemma_groups_normalize(fin);
    }
}

/// The effect of validating one persisted `(key, record)` entry.
pub open spec fn load_step(m: Forest, entry: (DelegationId, DelegationRecord)) -> Result<Forest, DelegationValidationError> {
    let (key, rec) = entry;
    if key.value() == 0 || rec.id.value() == 0 {
        Err(DelegationValidationError::ZeroId)
    } else if key != rec.id {
        Err(DelegationValidationError::KeyIdMismatch { key, record: rec.id })
    } else if !m.contains_key(key.value()) && rec.pane_id is Some && (exists|k: u64| carries_pane(m, k, rec.pane_id->0)) {
        Err(DelegationValidationError::DuplicatePane(rec.pane_id->0))
    } else if m.contains_key(key.value()) {
        Err(DelegationValidationError::DuplicateId(key))
    } else {
        Ok(m.insert(key.value(), rec))
    }
}

/// Validating the first `i` entries in order: the first failure, or the records so far.
pub open spec fn load_entries(input: Seq<(DelegationId, DelegationRecord)>, i: nat) -> Result<Forest, DelegationValidationError>
    decreases i,
{
    if i == 0 || i > input.len() {
        Ok(Map::empty())
    } else {
        match load_entries(input, (i - 1) as nat) {
            Err(e) => Err(e),
            Ok(m) => load_step(m, input[i - 1]),
        }
    }
}

/// What validated construction from `input` yields: the first per-entry
/// failure; else a dangling parent; else a cycle, named by the record at
/// which the walk up from the smallest record that meets a record twice
/// first meets one again; else the records with every sibling group
/// renumbered in its order.
pub open spec fn validated(input: Seq<(DelegationId, DelegationRecord)>, r: Result<Delegations, DelegationValidationError>) -> bool {
    match load_entries(input, input.len()) {
        Err(e) => r == Err::<Delegations, DelegationValidationError>(e),
        Ok(m0) => if !parents_present(m0) {
            r is Err && match r->Err_0 {
                DelegationValidationError::DanglingParent { id, parent } => m0.contains_key(id.value())
                    && m0[id.value()].parent_id == Some(parent) && !m0.contains_key(parent.value()),
                _ => false,
            }
        } else if !acyclic(m0) {
            r is Err && match r->Err_0 {
                DelegationValidationError::Cycle(x) => m0.contains_key(x.value()) && on_cycle(m0, x.value())
                    && x.value() == first_revisit(m0, lowest_revisiting(m0)),
                _ => false,
            }
        } else {
            r is Ok && {
                let d = r->Ok_0;
                &&& d@.dom() == m0.dom()
                &&& forall|k: u64| #[trigger] m0.contains_key(k) ==> same_but_rank(d@[k], m0[k])
                &&& forall|q: Option<DelegationId>| #[trigger] siblings(d@, q) == siblings(m0, q)
                &&& well_formed(d@)
                &&& allocator_ahead(d@, d.next_id())
                &&& (d.next_id() == 1 || exists|k: u64| #[trigger] m0.contains_key(k) && (d.next_id() == k + 1 || (k == u64::MAX
                    && d.next_id() == u64::MAX)))
            }
        },
    }
}

impl Delegations {
    /// Validated construction from records; each record is keyed by its own identity.
    pub fn from_records(records: Vec<DelegationRecord>) -> (r: Result<Self, DelegationValidationError>)
        ensures
            validated(records@.map_values(|rec: DelegationRecord| (rec.id, rec)), r),
    {
        let ghost input = records@;
        let mut rest = records;
        let mut entries: Vec<(DelegationId, DelegationRecord)> = Vec::new();
        while rest.len() > 0
            invariant
                entries@ + rest@.map_values(|rec: DelegationRecord| (rec.id, rec)) == input.map_values(
                    |rec: DelegationRecord| (rec.id, rec),
                ),
            decreases rest@.len(),
        {
            let ghost before = rest@;
            let rec = rest.remove(0);
            assert(before.map_values(|rec: DelegationRecord| (rec.id, rec)) =~= seq![(rec.id, rec)] + rest@.map_values(
                |rec: DelegationRecord| (rec.id, rec),
            ));
            entries.push((rec.id, rec));
        }
        assert(entries@ =~= input.map_values(|rec: DelegationRecord| (rec.id, rec)));
        Self::from_keyed_records(entries)
    }

    /// Validated construction that also checks persisted keys against record identities.
    pub fn from_keyed_records(records: Vec<(DelegationId, DelegationRecord)>) -> (r: Result<Self, DelegationValidationError>)
        ensures
            validated(records@, r),
    {
        let ghost input = records@;
        let total = records.len();
        let mut rest = records;
        let mut map: HashMap<u64, DelegationRecord> = HashMap::new();
        let mut ids = DelegationIdAllocator::new();
        let mut i: usize = 0;
        while rest.len() > 0
            invariant
                input == records@,
                input.len() == total,
                rest@ == input.skip(i as int),
                0 <= i <= input.len(),
                load_entries(input, i as nat) == Ok::<Forest, DelegationValidationError>(map@),
                map@.dom().finite(),
                ids_consistent(map@),
                panes_unique(map@),
                allocator_ahead(map@, ids.next()),
                ids.next() == 1 || exists|k: u64| #[trigger] map@.contains_key(k) && (ids.next() == k + 1 || (k == u64::MAX
                    && ids.next() == u64::MAX)),
            decreases rest@.len(),
        {
            let ghost before = rest@;
            let ghost m = map@;
            let (key, record) = rest.remove(0);
            proof {
                assert(before[0] == input[i as int]);
                assert(rest@ =~= input.skip(i + 1));
                assert(load_entries(input, (i + 1) as nat) == load_step(m, (key, record)));
            }
            if key.raw() == 0 || record.id.raw() == 0 {
                assert(load_step(m, (key, record)) == Err::<Forest, DelegationValidationError>(DelegationValidationError::ZeroId));
                proof { lemma_load_err_sticks(input, (i + 1) as nat, input.len()); }
                assert(load_entries(input, input.len()) == Err::<Forest, DelegationValidationError>(DelegationValidationError::ZeroId));
                return Err(DelegationValidationError::ZeroId);
            }
            if key != record.id {
                proof { lemma_load_err_sticks(input, (i + 1) as nat, input.len()); }
                return Err(DelegationValidationError::KeyIdMismatch { key, record: record.id });
            }
            if map.get(&key.raw()).is_none() {
                match record.pane_id {
                    Some(pane) => {
                        if find_pane(&map, pane).is_some() {
                            proof { lemma_load_err_sticks(input, (i + 1) as nat, input.len()); }
                            return Err(DelegationValidationError::DuplicatePane(pane));
                        }
                    },
                    None => {},
                }
            } else {
                proof { lemma_load_err_sticks(input, (i + 1) as nat, input.len()); }
                return Err(DelegationValidationError::DuplicateId(key));
            }
            ids.reserve_after(key.raw());
            map.insert(key.raw(), record);
            proof {
                let m2 = map@;
                assert(m2.dom().finite());
                assert(panes_unique(m2)) by {
                    assert forall|a: u64, b: u64|
                        #![trigger m2[a].pane_id, m2[b].pane_id]
                        m2.contains_key(a) && m2.contains_key(b) && a != b && m2[a].pane_id is Some
                        implies m2[a].pane_id != m2[b].pane_id by {
                        if a == key.value() {
                            assert(!carries_pane(m, b, record.pane_id->0));
                        } else if b == key.value() {
                            if record.pane_id is Some {
                                assert(!carries_pane(m, a, record.pane_id->0));
                            }
                        } else {
                            assert(m[a].pane_id != m[b].pane_id);
                        }
                    }
                }
                assert(m2.contains_key(key.value()));
                let nx = ids.next();
                if key.value() == u64::MAX {
                    assert(nx == u64::MAX);
                } else if nx == key.value() + 1 {
                } else {
                    if nx != 1 {
                        let w = choose|w: u64| #[trigger] m.contains_key(w) && (nx == w + 1 || (w == u64::MAX && nx == u64::MAX));
                        assert(m2.contains_key(w));
                    }
                }
            }
            i = i + 1;
        }
        proof {
            assert(i == input.len());
        }
        let ghost m0 = map@;
        // every parent must be present
        let keys = key_list(&map);
        let mut j: usize = 0;
        while j < keys.len()
            invariant
                m0 == map@,
                input == records@,
                ids_consistent(m0),
                load_entries(input, input.len()) == Ok::<Forest, DelegationValidationError>(m0),
                keys@.to_set() == m0.dom(),
                0 <= j <= keys@.len(),
                forall|a: int| 0 <= a < j ==> match m0[#[trigger] keys@[a]].parent_id {
                    Some(p) => m0.contains_key(p.value()),
                    None => true,
                },
            decreases keys@.len() - j,
        {
            let k = keys[j];
            assert(keys@.to_set().contains(k));
            let rec = record_at(&map, k);
            match rec.parent_id {
                Some(parent) => {
                    if map.get(&parent.raw()).is_none() {
                        assert(!parents_present(m0));
                        return Err(DelegationValidationError::DanglingParent { id: rec.id, parent });
                    }
                },
                None => {},
            }
            j = j + 1;
        }
        proof {
            assert forall|k: u64| #[trigger] m0.contains_key(k) implies match m0[k].parent_id {
                Some(p) => m0.contains_key(p.value()),
                None => true,
            } by {
                assert(keys@.to_set().contains(k));
                let a = choose|a: int| 0 <= a < keys@.len() && keys@[a] == k;
            }
        }
        match validate_acyclic(&map) {
            Ok(()) => {},
            Err(e) => return Err(e),
        }
        normalize_all_siblings(&mut map);
        proof {
            let fin = map@;
            assert(fin.dom() =~= m0.dom());
            lemma_same_links_acyclic(m0, fin);
            assert(panes_unique(fin)) by {
                assert forall|a: u64, b: u64|
                    #![trigger fin[a].pane_id, fin[b].pane_id]
                    fin.contains_key(a) && fin.contains_key(b) && a != b && fin[a].pane_id is Some
                    implies fin[a].pane_id != fin[b].pane_id by {
                    assert(m0[a].pane_id != m0[b].pane_id);
                }
            }
        }
        Ok(Delegations { records: map, ids })
    }
}

/// Once an entry fails, loading the rest fails the same way.
proof fn lemma_load_err_sticks(input: Seq<(DelegationId, DelegationRecord)>, i: nat, j: nat)
    requires
        i <= j <= input.len(),
        load_entries(input, i) is Err,
    ensures
        load_entries(input, j) == load_entries(input, i),
    decreases j - i,
{
    if j > i {
        lemma_load_err_sticks(input, i, (j - 1) as nat);
    }
}


/// The tombstoned records that are no record's parent, in increasing order.
fn tombstone_leaf_keys(records: &HashMap<u64, DelegationRecord>) -> (r: Vec<u64>)
    ensures
        increasing(r@),
        r@.to_set() == tombstone_leaves(records@),
{
    let ghost m = records@;
    let keys = sorted_keys(records);
    let mut parents: HashSet<u64> = HashSet::new();
    let mut i: usize = 0;
    while i < keys.len()
        invariant
            m == records@,
            keys@.to_set() == m.dom(),
            0 <= i <= keys@.len(),
            forall|p: u64| #[trigger] parents@.contains(p) <==> exists|j: int|
                0 <= j < i && parent_key(m[#[trigger] keys@[j]]) == Some(p),
        decreases keys@.len() - i,
    {
        let k = keys[i];
        assert(keys@.to_set().contains(k));
        let ghost before = parents@;
        match record_at(records, k).parent_id {
            Some(p) => {
                parents.insert(p.raw());
            },
            None => {},
        }
        proof {
            assert forall|p: u64| #[trigger] parents@.contains(p) <==> exists|j: int|
                0 <= j < i + 1 && parent_key(m[#[trigger] keys@[j]]) == Some(p) by {
                if parents@.contains(p) && !before.contains(p) {
                    assert(parent_key(m[keys@[i as int]]) == Some(p));
                }
                if exists|j: int| 0 <= j < i + 1 && parent_key(m[#[trigger] keys@[j]]) == Some(p) {
                    let j = choose|j: int| 0 <= j < i + 1 && parent_key(m[#[trigger] keys@[j]]) == Some(p);
                    if j < i {
                        assert(before.contains(p));
                    }
                }
            }
        }
        i = i + 1;
    }
    proof {
        assert forall|p: u64| #[trigger] parents@.contains(p) <==> has_child(m, p) by {
            if parents@.contains(p) {
                let j = choose|j: int| 0 <= j < keys@.len() && parent_key(m[#[trigger] keys@[j]]) == Some(p);
                assert(keys@.to_set().contains(keys@[j]));
                assert(m.contains_key(keys@[j]));
            }
            if has_child(m, p) {
                let c = choose|c: u64| #[trigger] m.contains_key(c) && parent_key(m[c]) == Some(p);
                assert(keys@.to_set().contains(c));
                let j = choose|j: int| 0 <= j < keys@.len() && keys@[j] == c;
                assert(parent_key(m[keys@[j]]) == Some(p));
            }
        }
    }
    let mut out: Vec<u64> = Vec::new();
    let mut i: usize = 0;
    while i < keys.len()
        invariant
            m == records@,
            keys@.to_set() == m.dom(),
            forall|a: int, b: int| 0 <= a < b < keys@.len() ==> #[trigger] keys@[a] < #[trigger] keys@[b],
            forall|p: u64| #[trigger] parents@.contains(p) <==> has_child(m, p),
            0 <= i <= keys@.len(),
            increasing(out@),
            forall|a: int| 0 <= a < out@.len() ==> exists|j: int| 0 <= j < i && #[trigger] out@[a] == keys@[j],
            out@.to_set() == tombstone_leaves(m).intersect(keys@.take(i as int).to_set()),
        decreases keys@.len() - i,
    {
        let k = keys[i];
        assert(keys@.to_set().contains(k));
        let ghost before = out@;
        let rec = record_at(records, k);
        if rec.tombstone && !parents.contains(&k) {
            proof {
                assert forall|a: int| 0 <= a < before.len() implies before[a] < k by {
                    let j = choose|j: int| 0 <= j < i && #[trigger] before[a] == keys@[j];
                }
            }
            out.push(k);
            proof {
                assert(before.push(k) == out@);
                before.lemma_push_to_set_commute(k);
            }
        }
        proof {
            assert(keys@.take(i + 1) =~= keys@.take(i as int).push(k));
            keys@.take(i as int).lemma_push_to_set_commute(k);
            assert forall|a: int| 0 <= a < out@.len() implies exists|j: int| 0 <= j < i + 1 && #[trigger] out@[a] == keys@[j] by {
                if a < before.len() {
                    assert(out@[a] == before[a]);
                    let j = choose|j: int| 0 <= j < i && #[trigger] before[a] == keys@[j];
                    assert(out@[a] == keys@[j]);
                } else {
                    assert(out@[a] == keys@[i as int]);
                }
            }
            assert(out@.to_set() =~= tombstone_leaves(m).intersect(keys@.take(i + 1).to_set()));
        }
        i = i + 1;
    }
    proof {
        assert(keys@.take(keys@.len() as int) =~= keys@);
        assert(out@.to_set() =~= tombstone_leaves(m));
    }
    out
}

impl Delegations {
    /// Remove tombstoned records that no record names as its parent, then
    /// repeat for the tombstones this exposes; the survivors keep their
    /// sibling order, renumbered from zero. Returns the removed identities,
    /// round by round, each round in increasing order.
    pub fn gc_tombstones(&mut self) -> (r: Vec<DelegationId>)
        ensures
            r@.map_values(|id: DelegationId| id.value()) == collected(old(self)@),
            final(self)@.dom() == old(self)@.dom().difference(collected(old(self)@).to_set()),
            forall|k: u64| #[trigger] final(self)@.contains_key(k) ==> same_but_rank(final(self)@[k], old(self)@[k]),
            forall|q: Option<DelegationId>| #[trigger] siblings(final(self)@, q) == siblings(
                old(self)@.remove_keys(collected(old(self)@).to_set()),
                q,
            ),
            final(self).next_id() == old(self).next_id(),
    {
        let ghost m0 = self@;
        let mut records = self.take_records();
        let mut removed: Vec<DelegationId> = Vec::new();
        let mut done = false;
        while !done
            invariant
                shaped(records@),
                well_formed(m0),
                allocator_ahead(m0, self.next_id()),
                records@ == m0.remove_keys(removed@.map_values(|id: DelegationId| id.value()).to_set()),
                collected(m0) == removed@.map_values(|id: DelegationId| id.value()) + collected(records@),
                done ==> tombstone_leaves(records@).len() == 0,
            decreases records@.dom().len() + (if done { 0int } else { 1int }),
        {
            let ghost cur = records@;
            let ghost done_before = removed@.map_values(|id: DelegationId| id.value());
            let leaves = tombstone_leaf_keys(&records);
            proof {
                lemma_set_subset_finite(cur.dom(), tombstone_leaves(cur));
                leaves@.unique_seq_to_set();
            }
            if leaves.len() == 0 {
                done = true;
            } else {
                proof {
                    lemma_leaves_shrink(cur);
                    lemma_ascending(leaves@);
                    lemma_remove_leaves_shaped(cur, tombstone_leaves(cur));
                }
                let mut j: usize = 0;
                while j < leaves.len()
                    invariant
                        0 <= j <= leaves@.len(),
                        increasing(leaves@),
                        leaves@.to_set() == tombstone_leaves(cur),
                        tombstone_leaves(cur).subset_of(cur.dom()),
                        ids_consistent(cur),
                        records@ == cur.remove_keys(leaves@.take(j as int).to_set()),
                        removed@.map_values(|id: DelegationId| id.value()) == done_before + leaves@.take(j as int),
                    decreases leaves@.len() - j,
                {
                    let k = leaves[j];
                    assert(leaves@.to_set().contains(k));
                    let ghost rbefore = removed@.map_values(|id: DelegationId| id.value());
                    let ghost mbefore = records@;
                    proof {
                        assert(!leaves@.take(j as int).to_set().contains(k)) by {
                            if leaves@.take(j as int).to_set().contains(k) {
                                let a = choose|a: int| 0 <= a < j && leaves@.take(j as int)[a] == k;
                                assert(leaves@[a] < leaves@[j as int]);
                            }
                        }
                        assert(records@.contains_key(k));
                    }
                    let rec = records.remove(&k).unwrap();
                    removed.push(rec.id);
                    proof {
                        assert(rec.id.value() == k);
                        assert(leaves@.take(j + 1) =~= leaves@.take(j as int).push(k));
                        leaves@.take(j as int).lemma_push_to_set_commute(k);
                        assert(records@ =~= cur.remove_keys(leaves@.take(j + 1).to_set()));
                        assert(removed@.map_values(|id: DelegationId| id.value()) =~= rbefore.push(k));
                        assert(removed@.map_values(|id: DelegationId| id.value()) =~= done_before + leaves@.take(j + 1));
                    }
                    j = j + 1;
                }
                proof {
                    assert(leaves@.take(leaves@.len() as int) =~= leaves@);
                    let newdone = removed@.map_values(|id: DelegationId| id.value());
                    assert(collected(cur) == leaves@ + collected(cur.remove_keys(tombstone_leaves(cur))));
                    assert(collected(m0) =~= newdone + collected(records@));
                    assert(records@ =~= m0.remove_keys(newdone.to_set())) by {
                        assert(newdone.to_set() =~= done_before.to_set().union(leaves@.to_set())) by {
                            assert forall|x: u64| newdone.to_set().contains(x) <==> done_before.to_set().contains(x) || leaves@.to_set().contains(x) by {
                                if newdone.to_set().contains(x) {
                                    let a = choose|a: int| 0 <= a < newdone.len() && newdone[a] == x;
                                    if a < done_before.len() {
                                        assert(done_before[a] == x);
                                    } else {
                                        assert(leaves@[a - done_before.len()] == x);
                                    }
                                }
                                if done_before.to_set().contains(x) {
                                    let a = choose|a: int| 0 <= a < done_before.len() && done_before[a] == x;
                                    assert(newdone[a] == x);
                                }
                                if leaves@.to_set().contains(x) {
                                    let a = choose|a: int| 0 <= a < leaves@.len() && leaves@[a] == x;
                                    assert(newdone[done_before.len() + a] == x);
                                }
                            }
                        }
                    }
                }
            }
        }
        let ghost gone = removed@.map_values(|id: DelegationId| id.value());
        proof {
            assert(collected(records@) == Seq::<u64>::empty());
            assert(gone =~= collected(m0));
        }
        normalize_all_siblings(&mut records);
        proof {
            let fin = records@;
            assert(well_formed(fin)) by {
                let mid = m0.remove_keys(gone.to_set());
                lemma_same_links_acyclic(mid, fin);
                assert forall|k: u64| #[trigger] fin.contains_key(k) implies fin[k].id.value() == k && k != 0 by {
                    assert(mid.contains_key(k));
                }
                assert forall|x: u64, y: u64|
                    #![trigger fin[x].pane_id, fin[y].pane_id]
                    fin.contains_key(x) && fin.contains_key(y) && x != y && fin[x].pane_id is Some implies fin[x].pane_id
                        != fin[y].pane_id by {
                    assert(mid[x].pane_id != mid[y].pane_id);
                }
                assert forall|k: u64| #[trigger] fin.contains_key(k) implies match fin[k].parent_id {
                    Some(p) => fin.contains_key(p.value()),
                    None => true,
                } by {
                    assert(mid.contains_key(k));
                }
            }
            assert(allocator_ahead(fin, self.next_id()));
        }
        self.records = records;
        removed
    }
}


// ------------------------------------------------------------------ repair

/// Input record `j` is kept among the records from position `i` on.
spec fn kept_from(input: Seq<DelegationRecord>, i: int, j: int) -> bool {
    &&& i <= j < input.len()
    &&& forall|t: int|
        i <= t < input.len() && #[trigger] input[t].id == input[j].id ==> input[j].sibling_rank
            < input[t].sibling_rank || (input[j].sibling_rank == input[t].sibling_rank && j <= t)
}

proof fn lemma_kept_unique(input: Seq<DelegationRecord>, j1: int, j2: int)
    requires
        is_kept(input, j1),
        is_kept(input, j2),
        input[j1].id == input[j2].id,
    ensures
        j1 == j2,
{
    assert(input[j2].id == input[j1].id);
}

/// For each identity, the record with the lowest rank (the earliest among
/// equal ranks).
fn keep_lowest(records: Vec<DelegationRecord>) -> (r: HashMap<u64, DelegationRecord>)
    ensures
        r@.dom() == input_ids(records@),
        forall|k: u64| #[trigger] r@.contains_key(k) ==> r@[k] == kept(records@, k) && k != 0
            && r@[k].id.value() == k,
        forall|k: u64| #[trigger] r@.contains_key(k) ==> exists|j: int| is_kept(records@, j) && records@[j].id.value() == k,
        forall|k: u64| #[trigger] input_ids(records@).contains(k) ==> exists|j: int| is_kept(records@, j) && records@[j].id.value() == k,
        forall|k: u64| #[trigger] input_ids(records@).contains(k) ==> k != 0 && kept(records@, k).id.value() == k,
{
    let ghost orig = records@;
    let ghost n = orig.len() as int;
    let mut rest = records;
    let mut map: HashMap<u64, DelegationRecord> = HashMap::new();
    while rest.len() > 0
        invariant
            orig.len() == n,
            rest@ == orig.take(rest@.len() as int),
            rest@.len() <= n,
            forall|k: u64| #[trigger] map@.contains_key(k) <==> exists|t: int|
                rest@.len() <= t < n && orig[t].id.value() == k,
            forall|k: u64| #[trigger] map@.contains_key(k) ==> k != 0 && map@[k].id.value() == k && exists|j: int|
                kept_from(orig, rest@.len() as int, j) && orig[j].id.value() == k && map@[k] == orig[j],
        decreases rest@.len(),
    {
        let ghost i = rest@.len() as int;
        let ghost before = map@;
        let r = rest.pop().unwrap();
        assert(r == orig[i - 1]);
        let k = r.id.raw();
        let replace = match map.get(&k) {
            Some(existing) => r.sibling_rank <= existing.sibling_rank,
            None => true,
        };
        if replace {
            map.insert(k, r);
        }
        proof {
            assert(rest@ =~= orig.take(i - 1));
            assert forall|kk: u64| #[trigger] map@.contains_key(kk) <==> exists|t: int|
                i - 1 <= t < n && orig[t].id.value() == kk by {
                if map@.contains_key(kk) && kk != k {
                    assert(before.contains_key(kk));
                    let t = choose|t: int| i <= t < n && orig[t].id.value() == kk;
                    assert(i - 1 <= t < n && orig[t].id.value() == kk);
                }
                if exists|t: int| i - 1 <= t < n && orig[t].id.value() == kk {
                    let t = choose|t: int| i - 1 <= t < n && orig[t].id.value() == kk;
                    if t >= i {
                        assert(before.contains_key(kk));
                    }
                }
            }
            assert forall|kk: u64| #[trigger] map@.contains_key(kk) implies kk != 0 && map@[kk].id.value() == kk && exists|j: int|
                kept_from(orig, i - 1, j) && orig[j].id.value() == kk && map@[kk] == orig[j] by {
                if kk == k {
                    if replace {
                        assert(map@[kk] == orig[i - 1]);
                        assert(kept_from(orig, i - 1, i - 1)) by {
                            assert forall|t: int| i - 1 <= t < n && #[trigger] orig[t].id == orig[i - 1].id implies orig[i - 1].sibling_rank
                                < orig[t].sibling_rank || (orig[i - 1].sibling_rank == orig[t].sibling_rank && i - 1 <= t) by {
                                if t >= i {
                                    assert(orig[t].id.value() == k);
                                    assert(before.contains_key(k));
                                    let j = choose|j: int| kept_from(orig, i, j) && orig[j].id.value() == k && before[k] == orig[j];
                                    assert(orig[j].id == orig[t].id);
                                }
                            }
                        }
                    } else {
                        assert(before.contains_key(k));
                        let j = choose|j: int| kept_from(orig, i, j) && orig[j].id.value() == k && before[k] == orig[j];
                        assert(kept_from(orig, i - 1, j)) by {
                            assert forall|t: int| i - 1 <= t < n && #[trigger] orig[t].id == orig[j].id implies orig[j].sibling_rank
                                < orig[t].sibling_rank || (orig[j].sibling_rank == orig[t].sibling_rank && j <= t) by {
                                if t == i - 1 {
                                    assert(orig[t] == r);
                                }
                            }
                        }
                    }
                } else {
                    assert(before.contains_key(kk));
                    let j = choose|j: int| kept_from(orig, i, j) && orig[j].id.value() == kk && before[kk] == orig[j];
                    assert(kept_from(orig, i - 1, j)) by {
                        assert forall|t: int| i - 1 <= t < n && #[trigger] orig[t].id == orig[j].id implies orig[j].sibling_rank
                            < orig[t].sibling_rank || (orig[j].sibling_rank == orig[t].sibling_rank && j <= t) by {
                            if t == i - 1 {
                                assert(orig[t].id.value() == k);
                            }
                        }
                    }
                }
            }
        }
    }
    proof {
        assert(map@.dom() =~= input_ids(orig)) by {
            assert forall|kk: u64| map@.contains_key(kk) <==> input_ids(orig).contains(kk) by {
                if input_ids(orig).contains(kk) {
                    let t = choose|t: int| 0 <= t < orig.len() && orig[t].id.value() == kk;
                    assert(0 <= t < n && orig[t].id.value() == kk);
                }
            }
        }
        assert forall|kk: u64| #[trigger] map@.contains_key(kk) implies map@[kk] == kept(orig, kk) && exists|j: int|
            is_kept(orig, j) && orig[j].id.value() == kk by {
            let j = choose|j: int| kept_from(orig, 0, j) && orig[j].id.value() == kk && map@[kk] == orig[j];
            assert(is_kept(orig, j));
            let c = choose|c: int| is_kept(orig, c) && orig[c].id.value() == kk;
            lemma_kept_unique(orig, j, c);
        }
        assert forall|kk: u64| #[trigger] input_ids(orig).contains(kk) implies kk != 0 && kept(orig, kk).id.value() == kk
            && exists|j: int| is_kept(orig, j) && orig[j].id.value() == kk by {
            assert(map@.contains_key(kk));
        }
    }
    map
}

/// Turn into tombstones the kept records whose pane a smaller identity
/// carries, then make roots of records naming themselves or a missing
/// identity as parent.
fn screen(map: &mut HashMap<u64, DelegationRecord>, Ghost(input): Ghost<Seq<DelegationRecord>>)
    requires
        old(map)@.dom() == input_ids(input),
        forall|k: u64| #[trigger] old(map)@.contains_key(k) ==> old(map)@[k] == kept(input, k) && k != 0
            && old(map)@[k].id.value() == k,
        forall|k: u64| #[trigger] old(map)@.contains_key(k) ==> exists|j: int| is_kept(input, j) && input[j].id.value() == k,
    ensures
        final(map)@ == screened(input),
{
    let ghost d = map@.dom();
    let keys = sorted_keys(map);
    proof {
        assert forall|a: int| 0 <= a < keys@.len() implies map@[#[trigger] keys@[a]] == kept(input, keys@[a]) by {
            assert(keys@.to_set().contains(keys@[a]));
        }
    }
    let mut claimed: HashSet<u32> = HashSet::new();
    let mut i: usize = 0;
    while i < keys.len()
        invariant
            map@.dom() == d,
            d == input_ids(input),
            keys@.to_set() == d,
            forall|a: int, b: int| 0 <= a < b < keys@.len() ==> #[trigger] keys@[a] < #[trigger] keys@[b],
            0 <= i <= keys@.len(),
            forall|k: u64| #[trigger] d.contains(k) ==> exists|j: int| is_kept(input, j) && input[j].id.value() == k,
            forall|k: u64| #[trigger] d.contains(k) ==> k != 0 && kept(input, k).id.value() == k,
            forall|a: int| 0 <= a < i ==> map@[#[trigger] keys@[a]] == deduplicated(input, keys@[a]),
            forall|a: int| i <= a < keys@.len() ==> map@[#[trigger] keys@[a]] == kept(input, keys@[a]),
            forall|v: u32| #[trigger] claimed@.contains(v) <==> exists|a: int|
                0 <= a < i && (kept(input, #[trigger] keys@[a]).pane_id matches Some(p) && p.value() == v),
        decreases keys@.len() - i,
    {
        let k = keys[i];
        assert(keys@.to_set().contains(k));
        let ghost before = map@;
        let ghost claimed_before = claimed@;
        let rec = record_at(map, k);
        proof {
            assert(rec == kept(input, k));
        }
        match rec.pane_id {
            Some(p) => {
                let taken = claimed.contains(&p.raw());
                proof {
                    assert(taken == pane_taken_below(input, k, p)) by {
                        if taken {
                            let a = choose|a: int| 0 <= a < i && (kept(input, #[trigger] keys@[a]).pane_id matches Some(q) && q.value() == p.value());
                            let k2 = keys@[a];
                            assert(d.contains(k2));
                            let j = choose|j: int| is_kept(input, j) && input[j].id.value() == k2;
                            let c = choose|c: int| is_kept(input, c) && input[c].id.value() == k2;
                            lemma_kept_unique(input, j, c);
                            assert(input[j].pane_id == Some(p));
                            assert(keys@[a] < keys@[i as int]);
                        }
                        if pane_taken_below(input, k, p) {
                            let j = choose|j: int| is_kept(input, j) && input[j].id.value() < k && #[trigger] input[j].pane_id == Some(p);
                            let k2 = input[j].id.value();
                            assert(input_ids(input).contains(k2));
                            assert(keys@.to_set().contains(k2));
                            let a = choose|a: int| 0 <= a < keys@.len() && keys@[a] == k2;
                            if a >= i {
                                if a > i {
                                    assert(keys@[i as int] < keys@[a]);
                                }
                            }
                            let c = choose|c: int| is_kept(input, c) && input[c].id.value() == k2;
                            lemma_kept_unique(input, j, c);
                            assert(kept(input, keys@[a]).pane_id == Some(p));
                            assert(claimed_before.contains(p.value()));
                        }
                    }
                }
                if taken {
                    set_pane(map, k, None, true);
                } else {
                    claimed.insert(p.raw());
                }
            },
            None => {
                set_pane(map, k, None, true);
            },
        }
        proof {
            assert(map@[k] == deduplicated(input, k));
            assert forall|a: int| 0 <= a < i + 1 implies map@[#[trigger] keys@[a]] == deduplicated(input, keys@[a]) by {
                if a < i {
                    assert(keys@[a] != k);
                }
            }
            assert forall|a: int| i + 1 <= a < keys@.len() implies map@[#[trigger] keys@[a]] == kept(input, keys@[a]) by {
                assert(keys@[a] != k);
            }
            assert forall|v: u32| #[trigger] claimed@.contains(v) <==> exists|a: int|
                0 <= a < i + 1 && (kept(input, #[trigger] keys@[a]).pane_id matches Some(p) && p.value() == v) by {
                if claimed@.contains(v) && !claimed_before.contains(v) {
                    assert(kept(input, keys@[i as int]).pane_id matches Some(p) && p.value() == v);
                }
                if exists|a: int| 0 <= a < i + 1 && (kept(input, #[trigger] keys@[a]).pane_id matches Some(p) && p.value() == v) {
                    let a = choose|a: int| 0 <= a < i + 1 && (kept(input, #[trigger] keys@[a]).pane_id matches Some(p) && p.value() == v);
                    if a < i {
                        assert(claimed_before.contains(v));
                    }
                }
            }
        }
        i = i + 1;
    }
    let mut i: usize = 0;
    while i < keys.len()
        invariant
            map@.dom() == d,
            d == input_ids(input),
            keys@.to_set() == d,
            forall|a: int, b: int| 0 <= a < b < keys@.len() ==> #[trigger] keys@[a] < #[trigger] keys@[b],
            0 <= i <= keys@.len(),
            forall|a: int| 0 <= a < i ==> map@[#[trigger] keys@[a]] == reattached(input, deduplicated(input, keys@[a])),
            forall|a: int| i <= a < keys@.len() ==> map@[#[trigger] keys@[a]] == deduplicated(input, keys@[a]),
        decreases keys@.len() - i,
    {
        let k = keys[i];
        assert(keys@.to_set().contains(k));
        let rec = record_at(map, k);
        let rank = rec.sibling_rank;
        let detach = match rec.parent_id {
            Some(p) => p == rec.id || !map.contains_key(&p.raw()),
            None => false,
        };
        if detach {
            set_parent(map, k, None, rank);
        }
        proof {
            assert(map@[k] == reattached(input, deduplicated(input, k)));
            assert forall|a: int| 0 <= a < i + 1 implies map@[#[trigger] keys@[a]] == reattached(input, deduplicated(input, keys@[a])) by {
                if a < i {
                    assert(keys@[a] != k);
                }
            }
            assert forall|a: int| i + 1 <= a < keys@.len() implies map@[#[trigger] keys@[a]] == deduplicated(input, keys@[a]) by {
                assert(keys@[a] != k);
            }
        }
        i = i + 1;
    }
    proof {
        assert(map@ =~= screened(input)) by {
            assert forall|k: u64| #[trigger] map@.contains_key(k) implies map@[k] == screened(input)[k] by {
                assert(keys@.to_set().contains(k));
                let a = choose|a: int| 0 <= a < keys@.len() && keys@[a] == k;
            }
        }
    }
}

/// A walk that stopped at a missing parent met no record twice.
proof fn lemma_walk_no_revisit(m: Forest, start: u64, path: Seq<u64>)
    requires
        walk_ok(m, start, path, None),
    ensures
        !revisits(m, start),
{
    if revisits(m, start) {
        let j = choose|j: nat| #[trigger] revisits_at(m, start, j);
        let i = choose|i: nat| i < j && #[trigger] ancestor(m, start, i) == ancestor(m, start, j);
        if j < path.len() {
            assert(ancestor(m, start, i) == Some(path[i as int]));
            assert(ancestor(m, start, j) == Some(path[j as int]));
        } else {
            lemma_ancestor_none_after(m, start, path.len(), j);
        }
    }
}

/// A walk that reached a record already on its path first meets a record
/// again there.
proof fn lemma_walk_revisit(m: Forest, start: u64, path: Seq<u64>, id: u64)
    requires
        walk_ok(m, start, path, Some(id)),
        path.contains(id),
    ensures
        revisits(m, start),
        first_revisit(m, start) == id,
{
    let len = path.len();
    let a = choose|a: int| 0 <= a < path.len() && path[a] == id;
    assert(ancestor(m, start, a as nat) == Some(path[a]));
    assert(revisits_at(m, start, len));
    assert forall|j2: nat| j2 < len implies !#[trigger] revisits_at(m, start, j2) by {
        if revisits_at(m, start, j2) {
            let i = choose|i: nat| i < j2 && #[trigger] ancestor(m, start, i) == ancestor(m, start, j2);
            assert(ancestor(m, start, i) == Some(path[i as int]));
            assert(ancestor(m, start, j2) == Some(path[j2 as int]));
        }
    }
    let j = choose|j: nat| revisits_at(m, start, j) && forall|j2: nat| j2 < j ==> !#[trigger] revisits_at(m, start, j2);
    assert(j == len) by {
        if j < len {
            assert(!revisits_at(m, start, j));
        } else if j > len {
            assert(!revisits_at(m, start, len));
        }
    }
}

/// Every structural property but acyclicity and normalized ranks.
spec fn linked_shape(m: Forest) -> bool {
    &&& m.dom().finite()
    &&& ids_consistent(m)
    &&& panes_unique(m)
    &&& parents_present(m)
}

/// Walk up from `start`; `Some(x)` when the walk meets `x` a second time,
/// `None` when it reaches a root.
fn walk_from(records: &HashMap<u64, DelegationRecord>, start: u64) -> (r: Option<u64>)
    requires
        linked_shape(records@),
        records@.contains_key(start),
    ensures
        r is None ==> !revisits(records@, start) && terminates(records@, start),
        r matches Some(x) ==> revisits(records@, start) && first_revisit(records@, start) == x,
{
    let ghost m = records@;
    let ghost n = m.dom().len();
    let mut path: Vec<u64> = Vec::new();
    let mut current: Option<u64> = Some(start);
    assert(walk_ok(m, start, path@, current));
    loop
        invariant_except_break
            m == records@,
            n == m.dom().len(),
            linked_shape(m),
            m.contains_key(start),
            walk_ok(m, start, path@, current),
        ensures
            m == records@,
            walk_ok(m, start, path@, current),
            current is None ==> path@.len() > 0,
            current matches Some(id) ==> path@.contains(id),
        decreases n - path@.len(),
    {
        let id = match current {
            Some(id) => id,
            None => {
                assert(path@.len() > 0) by {
                    if path@.len() == 0 {
                        assert(current == Some(start));
                    }
                }
                break;
            },
        };
        if vec_contains(&path, id) {
            break;
        }
        let ghost old_path = path@;
        path.push(id);
        let rec = record_at(records, id);
        current = match rec.parent_id {
            Some(p) => Some(p.raw()),
            None => None,
        };
        proof {
            lemma_walk_step(m, start, old_path, id);
        }
    }
    match current {
        None => {
            proof {
                lemma_walk_no_revisit(m, start, path@);
                lemma_walk_ends(m, start, path@, current);
                lemma_path_terminates(m, path@, 0);
            }
            None
        },
        Some(id) => {
            proof {
                lemma_walk_revisit(m, start, path@, id);
            }
            Some(id)
        },
    }
}

/// Scanning keys in increasing order, the first key whose walk meets a
/// record twice is the smallest such record.
proof fn lemma_scan_lowest(cur: Forest, keys: Seq<u64>, i: int)
    requires
        cur.dom().finite(),
        keys.to_set() == cur.dom(),
        forall|a: int, b: int| 0 <= a < b < keys.len() ==> #[trigger] keys[a] < #[trigger] keys[b],
        0 <= i < keys.len(),
        revisits(cur, keys[i]),
        forall|a: int| 0 <= a < i ==> !revisits(cur, #[trigger] keys[a]),
    ensures
        exists|s: u64| cur.contains_key(s) && revisits(cur, s),
        lowest_revisiting(cur) == keys[i],
{
    let start = keys[i];
    assert(keys.to_set().contains(start));
    lemma_lowest_revisiting(cur);
    let low = lowest_revisiting(cur);
    assert(low <= start);
    if low < start {
        assert(keys.to_set().contains(low));
        let a = choose|a: int| 0 <= a < keys.len() && keys[a] == low;
        if a > i {
            assert(keys[i] < keys[a]);
        }
        assert(!revisits(cur, keys[a]));
    }
}

/// Where a cycle must be cut next: at the first meeting point of the walk
/// from the smallest record whose walk meets a record twice; `None` when no
/// walk does, so that the forest is acyclic.
fn find_cut(records: &HashMap<u64, DelegationRecord>) -> (r: Option<u64>)
    requires
        linked_shape(records@),
    ensures
        r is None ==> !(exists|s: u64| records@.contains_key(s) && revisits(records@, s)) && acyclic(records@),
        r matches Some(x) ==> (exists|s: u64| records@.contains_key(s) && revisits(records@, s)) && x
            == first_revisit(records@, lowest_revisiting(records@)),
{
    let ghost cur = records@;
    let keys = sorted_keys(records);
    let mut i: usize = 0;
    while i < keys.len()
        invariant
            cur == records@,
            linked_shape(cur),
            keys@.to_set() == cur.dom(),
            forall|a: int, b: int| 0 <= a < b < keys@.len() ==> #[trigger] keys@[a] < #[trigger] keys@[b],
            0 <= i <= keys@.len(),
            forall|a: int| 0 <= a < i ==> !revisits(cur, #[trigger] keys@[a]) && terminates(cur, keys@[a]),
        decreases keys@.len() - i,
    {
        let start = keys[i];
        assert(keys@.to_set().contains(start));
        match walk_from(records, start) {
            None => {},
            Some(x) => {
                proof {
                    lemma_scan_lowest(cur, keys@, i as int);
                }
                return Some(x);
            },
        }
        i = i + 1;
    }
    proof {
        assert(!exists|s: u64| cur.contains_key(s) && revisits(cur, s)) by {
            if exists|s: u64| cur.contains_key(s) && revisits(cur, s) {
                let s = choose|s: u64| cur.contains_key(s) && revisits(cur, s);
                assert(keys@.to_set().contains(s));
                let a = choose|a: int| 0 <= a < keys@.len() && keys@[a] == s;
                assert(!revisits(cur, keys@[a]));
            }
        }
        assert forall|k: u64| cur.contains_key(k) implies (#[trigger] chain_len(cur, k, cur.dom().len())) is Some by {
            assert(keys@.to_set().contains(k));
            let a = choose|a: int| 0 <= a < keys@.len() && keys@[a] == k;
            assert(terminates(cur, keys@[a]));
            lemma_terminates_bounded(cur, k);
        }
    }
    None
}

/// Make record `x` a root, as the next cycle cut.
fn apply_cut(records: &mut HashMap<u64, DelegationRecord>, x: u64)
    requires
        linked_shape(old(records)@),
        exists|s: u64| old(records)@.contains_key(s) && revisits(old(records)@, s),
        x == first_revisit(old(records)@, lowest_revisiting(old(records)@)),
    ensures
        final(records)@ == cut(old(records)@, x),
        linked_shape(final(records)@),
        linked(final(records)@).len() < linked(old(records)@).len(),
        cycles_cut(final(records)@) == cycles_cut(old(records)@),
{
    let ghost cur = records@;
    proof {
        lemma_lowest_revisiting(cur);
        crate::repair::lemma_first_revisit_linked(cur, lowest_revisiting(cur));
        lemma_cut_linked(cur, x);
    }
    let rank = record_at(records, x).sibling_rank;
    set_parent(records, x, None, rank);
    proof {
        let next = records@;
        assert(next == cut(cur, x));
        assert(cycles_cut(cur) == cycles_cut(next));
        assert(next.dom() =~= cur.dom());
        assert(ids_consistent(next)) by {
            assert forall|k: u64| #[trigger] next.contains_key(k) implies next[k].id.value() == k && k != 0 by {
                assert(cur.contains_key(k));
            }
        }
        assert(panes_unique(next)) by {
            assert forall|a: u64, b: u64|
                #![trigger next[a].pane_id, next[b].pane_id]
                next.contains_key(a) && next.contains_key(b) && a != b && next[a].pane_id is Some implies next[a].pane_id
                    != next[b].pane_id by {
                assert(cur[a].pane_id != cur[b].pane_id);
            }
        }
        assert(parents_present(next)) by {
            assert forall|k: u64| #[trigger] next.contains_key(k) implies match next[k].parent_id {
                Some(p) => next.contains_key(p.value()),
                None => true,
            } by {
                assert(cur.contains_key(k));
            }
        }
    }
}

/// Cut parent cycles as `cycles_cut` describes.
fn cut_cycles(records: &mut HashMap<u64, DelegationRecord>)
    requires
        linked_shape(old(records)@),
    ensures
        final(records)@ == cycles_cut(old(records)@),
        linked_shape(final(records)@),
        acyclic(final(records)@),
{
    let ghost m0 = records@;
    let mut done = false;
    while !done
        invariant
            linked_shape(records@),
            cycles_cut(m0) == cycles_cut(records@),
            done ==> records@ == cycles_cut(m0) && acyclic(records@),
        decreases linked(records@).len() + (if done { 0int } else { 1int }),
    {
        match find_cut(records) {
            None => {
                assert(cycles_cut(records@) == records@);
                done = true;
            },
            Some(x) => {
                apply_cut(records, x);
            },
        }
    }
}

/// The screened forest has every structural property but acyclicity and
/// normalized ranks.
proof fn lemma_screened_shape(input: Seq<DelegationRecord>, m: Forest)
    requires
        m == screened(input),
        m.dom().finite(),
        forall|k: u64| #[trigger] input_ids(input).contains(k) ==> exists|j: int| is_kept(input, j) && input[j].id.value() == k,
        forall|k: u64| #[trigger] input_ids(input).contains(k) ==> k != 0 && kept(input, k).id.value() == k,
    ensures
        linked_shape(m),
{
    assert(ids_consistent(m)) by {
        assert forall|k: u64| #[trigger] m.contains_key(k) implies m[k].id.value() == k && k != 0 by {
            assert(input_ids(input).contains(k));
        }
    }
    assert(parents_present(m)) by {
        assert forall|k: u64| #[trigger] m.contains_key(k) implies match m[k].parent_id {
            Some(p) => m.contains_key(p.value()),
            None => true,
        } by {
            assert(input_ids(input).contains(k));
        }
    }
    assert(panes_unique(m)) by {
        assert forall|a: u64, b: u64|
            #![trigger m[a].pane_id, m[b].pane_id]
            m.contains_key(a) && m.contains_key(b) && a != b && m[a].pane_id is Some implies m[a].pane_id
                != m[b].pane_id by {
            if m[a].pane_id == m[b].pane_id {
                let p = m[a].pane_id->0;
                assert(input_ids(input).contains(a) && input_ids(input).contains(b));
                assert(deduplicated(input, a).pane_id == Some(p));
                assert(deduplicated(input, b).pane_id == Some(p));
                let ja = choose|j: int| is_kept(input, j) && input[j].id.value() == a;
                let jb = choose|j: int| is_kept(input, j) && input[j].id.value() == b;
                assert(kept(input, a) == input[ja]);
                assert(kept(input, b) == input[jb]);
                assert(kept(input, a).pane_id == Some(p));
                assert(kept(input, b).pane_id == Some(p));
                if a < b {
                    assert(input[ja].pane_id == Some(p));
                    assert(pane_taken_below(input, b, p));
                } else {
                    assert(input[jb].pane_id == Some(p));
                    assert(pane_taken_below(input, a, p));
                }
            }
        }
    }
}

/// An allocator that hands out only numbers above every record's.
fn allocator_after(records: &HashMap<u64, DelegationRecord>) -> (ids: DelegationIdAllocator)
    ensures
        ids.next() >= 1,
        allocator_ahead(records@, ids.next()),
        forall|n: u64| 1 <= n < ids.next() ==> !allocator_ahead(records@, n),
{
    let keys = key_list(records);
    let mut ids = DelegationIdAllocator::new();
    let mut i: usize = 0;
    while i < keys.len()
        invariant
            keys@.to_set() == records@.dom(),
            0 <= i <= keys@.len(),
            ids.next() >= 1,
            forall|a: int| 0 <= a < i ==> #[trigger] keys@[a] < ids.next() || ids.next() == u64::MAX,
            ids.next() == 1 || exists|a: int|
                0 <= a < i && (ids.next() == #[trigger] keys@[a] + 1 || (ids.next() == u64::MAX && keys@[a] == u64::MAX)),
        decreases keys@.len() - i,
    {
        let ghost before = ids.next();
        ids.reserve_after(keys[i]);
        proof {
            let k = keys@[i as int];
            if ids.next() != before {
                assert(ids.next() == k + 1 || (ids.next() == u64::MAX && k == u64::MAX));
            } else if before != 1 {
                let a = choose|a: int|
                    0 <= a < i && (before == #[trigger] keys@[a] + 1 || (before == u64::MAX && keys@[a] == u64::MAX));
                assert(0 <= a < i + 1);
            }
        }
        i = i + 1;
    }
    proof {
        assert forall|k: u64| #[trigger] records@.contains_key(k) implies k < ids.next() || ids.next() == u64::MAX by {
            assert(keys@.to_set().contains(k));
            let a = choose|a: int| 0 <= a < keys@.len() && keys@[a] == k;
        }
        assert forall|n: u64| 1 <= n < ids.next() implies !allocator_ahead(records@, n) by {
            let a = choose|a: int|
                0 <= a < keys@.len() && (ids.next() == #[trigger] keys@[a] + 1 || (ids.next() == u64::MAX && keys@[a] == u64::MAX));
            assert(keys@.to_set().contains(keys@[a]));
            assert(records@.contains_key(keys@[a]));
        }
    }
    ids
}

/// Renumbering the ranks of an acyclic forest with every other structural
/// property makes it well formed.
proof fn lemma_renumbered_well_formed(a: Forest, b: Forest)
    requires
        linked_shape(a),
        acyclic(a),
        same_links(a, b),
        b.dom().finite(),
        forall|k: u64| #[trigger] a.contains_key(k) ==> same_but_rank(b[k], a[k]),
        ranks_normalized(b),
    ensures
        well_formed(b),
{
    lemma_same_links_acyclic(a, b);
    assert forall|k: u64| #[trigger] b.contains_key(k) implies b[k].id.value() == k && k != 0 by {
        assert(a.contains_key(k));
    }
    assert forall|x: u64, y: u64|
        #![trigger b[x].pane_id, b[y].pane_id]
        b.contains_key(x) && b.contains_key(y) && x != y && b[x].pane_id is Some implies b[x].pane_id
            != b[y].pane_id by {
        assert(a[x].pane_id != a[y].pane_id);
    }
    assert forall|k: u64| #[trigger] b.contains_key(k) implies match b[k].parent_id {
        Some(p) => b.contains_key(p.value()),
        None => true,
    } by {
        assert(a.contains_key(k));
    }
}

/// The kept, screened records of `records`.
fn screened_map(records: Vec<DelegationRecord>) -> (map: HashMap<u64, DelegationRecord>)
    ensures
        map@ == screened(records@),
        linked_shape(map@),
{
    let ghost input = records@;
    let mut map = keep_lowest(records);
    screen(&mut map, Ghost(input));
    proof {
        assert(map@.dom().finite());
        lemma_screened_shape(input, map@);
    }
    map
}

/// The repaired records of `records`, before ranks are renumbered.
fn repaired_map(records: Vec<DelegationRecord>) -> (map: HashMap<u64, DelegationRecord>)
    ensures
        map@ == repaired(records@),
        map@.dom() == input_ids(records@),
        linked_shape(map@),
        acyclic(map@),
{
    let ghost input = records@;
    let mut map = screened_map(records);
    proof {
        lemma_repaired_dom(input);
    }
    cut_cycles(&mut map);
    map
}

impl Delegations {
    /// Repair untrusted snapshot records without affecting pane runtime state.
    /// Duplicate identities keep the record of lowest rank (the earliest
    /// among equal ranks); a pane carried by several records stays with the
    /// smallest identity and the others become tombstones without a pane;
    /// a record carrying no pane becomes a tombstone too;
    /// dangling and self parents become roots, and parent cycles are cut
    /// where the walk from the smallest cyclic record first meets a record
    /// again. Siblings keep their order, renumbered from zero, and the
    /// allocator continues after the largest identity.
    pub fn repair_records(records: Vec<DelegationRecord>) -> (r: Self)
        ensures
            well_formed(r@),
            r@.dom() == input_ids(records@),
            forall|k: u64| #[trigger] r@.contains_key(k) ==> same_but_rank(r@[k], repaired(records@)[k]),
            forall|q: Option<DelegationId>| #[trigger] siblings(r@, q) == siblings(repaired(records@), q),
            allocator_ahead(r@, r.next_id()),
            forall|n: u64| 1 <= n < r.next_id() ==> !allocator_ahead(r@, n),
    {
        let ghost input = records@;
        let mut map = repaired_map(records);
        let ghost cut_map = map@;
        normalize_all_siblings(&mut map);
        proof {
            lemma_renumbered_well_formed(cut_map, map@);
        }
        let ids = allocator_after(&map);
        Delegations { records: map, ids }
    }
}

} // verus!
