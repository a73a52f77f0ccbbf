//! Moving a member of a collection to a final displayed index. A member
//! without a delegation moves within the member vector; a member carrying
//! a delegation moves, with its whole delegation subtree, to the sibling
//! boundary of the same parent and section that lands it at that index.

use vstd::prelude::*;
use crate::delegation::{
    Delegations, SiblingPosition, reorder_result, reorder_succeeds, same_but_rank, same_id_option,
};
use crate::forest::{Forest, carries_pane, descendants_of, lemma_rank_is_position, lemma_siblings_exist, siblings};
use crate::ids::{DelegationId, PaneId, lemma_delegation_id_value_injective, lemma_pane_id_value_injective};
use crate::layout::PaneCollection;
use crate::member_navigation::{find_delegation, find_position, first_position, lemma_first_position};
use crate::member_order::{canonical_member_order, display_order};
use crate::repository_text::joined;
use crate::text::{concat, decimal, u64_to_decimal};

verus! {

broadcast use {lemma_pane_id_value_injective, lemma_delegation_id_value_injective};

/// The forest after moving `id` to `position` among its siblings.
pub open spec fn reordered(m: Forest, id: DelegationId, position: SiblingPosition) -> Forest {
    choose|m2: Forest| reorder_result(m, id, position, m2)
}

/// Moving a delegation leaves one forest only: within the moved group the
/// ranks are the positions of the new sibling order, and nothing else changes.
pub proof fn lemma_reorder_result_unique(m: Forest, id: DelegationId, position: SiblingPosition, a: Forest, b: Forest)
    requires
        reorder_result(m, id, position, a),
        reorder_result(m, id, position, b),
    ensures
        a == b,
{
    let parent = m[id.value()].parent_id;
    let s = siblings(a, parent);
    assert(siblings(b, parent) == s);
    lemma_siblings_exist(a, parent);
    lemma_siblings_exist(b, parent);
    lemma_rank_is_position(a, parent, s);
    lemma_rank_is_position(b, parent, s);
    assert forall|k: u64| #[trigger] a.contains_key(k) implies a[k] == b[k] by {
        assert(m.contains_key(k));
        if m[k].parent_id != parent {
            assert(a[k] == m[k] && b[k] == m[k]);
        } else {
            assert(same_but_rank(a[k], m[k]) && same_but_rank(b[k], m[k]));
            assert(a[k].parent_id == parent);
            let i = choose|i: int| 0 <= i < s.len() && s[i].value() == k;
            assert(a[s[i].value()].sibling_rank == i);
            assert(b[s[i].value()].sibling_rank == i);
        }
    }
    assert(a =~= b);
}

/// What a successful `Delegations::reorder` leaves behind is the reordered forest.
pub proof fn lemma_reordered(m: Forest, id: DelegationId, position: SiblingPosition, m2: Forest)
    requires
        reorder_result(m, id, position, m2),
    ensures
        reordered(m, id, position) == m2,
{
    let c = reordered(m, id, position);
    assert(reorder_result(m, id, position, c));
    lemma_reorder_result_unique(m, id, position, c, m2);
}

/// The delegations after moving `id` to `position`, if the move succeeds.
fn try_reorder(delegations: &Delegations, id: DelegationId, position: SiblingPosition) -> (r: Option<Delegations>)
    requires
        delegations@.contains_key(id.value()),
    ensures
        r is Some <==> reorder_succeeds(delegations@, id, position),
        r matches Some(d) ==> d@ == reordered(delegations@, id, position),
{
    let mut candidate = delegations.duplicate();
    match candidate.reorder(id, position) {
        Ok(()) => {
            proof {
                lemma_reordered(delegations@, id, position, candidate@);
            }
            Some(candidate)
        },
        Err(_) => None,
    }
}

/// The delegation carried by `pane` in `m`, if any.
pub open spec fn pane_delegation(m: Forest, pane: PaneId) -> Option<DelegationId> {
    if exists|k: u64| carries_pane(m, k, pane) {
        Some(m[choose|k: u64| carries_pane(m, k, pane)].id)
    } else {
        None
    }
}

/// The delegation carried by `pane`.
pub(crate) fn delegation_of(delegations: &Delegations, pane: PaneId) -> (r: Option<DelegationId>)
    ensures
        r == pane_delegation(delegations@, pane),
        r matches Some(d) ==> delegations@.contains_key(d.value()) && delegations@[d.value()].pane_id == Some(pane),
{
    let ghost m = delegations@;
    let _records = delegations.records();
    match delegations.delegation_for_pane(pane) {
        Some(record) => {
            proof {
                let k = record.id.value();
                assert(carries_pane(m, k, pane));
                let c = choose|c: u64| carries_pane(m, c, pane);
                assert(carries_pane(m, c, pane));
                assert(c == k);
                assert(m[k].id.value() == k);
            }
            Some(record.id)
        },
        None => None,
    }
}

/// Whether `pane` carries `id` or one of its descendants: it moves with `id`.
pub open spec fn moves_with(m: Forest, id: DelegationId, pane: PaneId) -> bool {
    match pane_delegation(m, pane) {
        Some(d) => d == id || descendants_of(m, id).contains(d),
        None => false,
    }
}

/// The displayed members of `c` that stay in place while the subtree of
/// `id` moves.
pub open spec fn staying_members(m: Forest, c: PaneCollection, id: DelegationId) -> Seq<PaneId> {
    display_order(m, c).filter(|p: PaneId| !moves_with(m, id, p))
}

/// Whether member `p` carries a sibling of `id` (other than `id`) and sits
/// in the same section as `pane`.
pub open spec fn visible_sibling(m: Forest, c: PaneCollection, pane: PaneId, id: DelegationId, p: PaneId) -> bool {
    match pane_delegation(m, p) {
        Some(d) => d != id && m[d.value()].parent_id == m[id.value()].parent_id && c.archived_set().contains(p)
            == c.archived_set().contains(pane),
        None => false,
    }
}

/// The delegations of the members of `s` that are visible siblings, in
/// the order of `s`.
pub open spec fn visible_siblings(m: Forest, c: PaneCollection, pane: PaneId, id: DelegationId, s: Seq<PaneId>) -> Seq<DelegationId>
    decreases s.len(),
{
    if s.len() == 0 {
        seq![]
    } else {
        let rest = visible_siblings(m, c, pane, id, s.drop_last());
        if visible_sibling(m, c, pane, id, s.last()) {
            rest.push(pane_delegation(m, s.last())->0)
        } else {
            rest
        }
    }
}

/// The positions tried, in order: first, last, then before and after each
/// of `v`.
pub open spec fn boundary_positions(v: Seq<DelegationId>) -> Seq<SiblingPosition>
    decreases v.len(),
{
    if v.len() == 0 {
        seq![SiblingPosition::First, SiblingPosition::Last]
    } else {
        boundary_positions(v.drop_last()) + seq![SiblingPosition::Before(v.last()), SiblingPosition::After(v.last())]
    }
}

/// The sibling boundaries tried for moving the delegation `id` of `pane`.
pub open spec fn candidate_positions(m: Forest, c: PaneCollection, pane: PaneId, id: DelegationId) -> Seq<SiblingPosition> {
    boundary_positions(visible_siblings(m, c, pane, id, display_order(m, c)))
}

/// Where `pane` is displayed once its delegation `id` moves to `position`,
/// when that move succeeds.
pub open spec fn landing_index(m: Forest, c: PaneCollection, pane: PaneId, id: DelegationId, position: SiblingPosition) -> Option<int> {
    if reorder_succeeds(m, id, position) {
        first_position(display_order(reordered(m, id, position), c), pane)
    } else {
        None
    }
}

/// The landing index of each candidate position.
pub open spec fn landings(m: Forest, c: PaneCollection, pane: PaneId, id: DelegationId) -> Seq<Option<int>> {
    candidate_positions(m, c, pane, id).map_values(|p: SiblingPosition| landing_index(m, c, pane, id, p))
}

/// The indices that some candidate position lands `pane` at.
pub open spec fn landing_set(m: Forest, c: PaneCollection, pane: PaneId, id: DelegationId) -> Set<usize> {
    Set::new(|u: usize| landings(m, c, pane, id).contains(Some(u as int)))
}

pub open spec fn strictly_increasing(s: Seq<usize>) -> bool {
    forall|i: int, j: int| 0 <= i < j < s.len() ==> s[i] < s[j]
}

/// What moving a member to a final displayed index does.
#[derive(Debug, Clone, Copy, PartialEq, Eq, Structural)]
pub enum MemberReorder {
    /// The member carries no delegation: it moves within the member vector.
    MemberVector,
    /// The member already is at that index.
    Unchanged,
    /// Its delegation moves to `position` among its siblings.
    Sibling { delegation_id: DelegationId, position: SiblingPosition },
}

/// Why a member cannot move to a final displayed index.
#[derive(Debug, Clone, PartialEq, Eq)]
pub enum MemberReorderError {
    /// The pane is not a member of the collection.
    NotMember,
    /// The pane is not among the displayed members.
    NotDisplayed,
    /// The index lies past the members that stay while the subtree moves;
    /// `max` is the largest index allowed.
    IndexOutOfRange { index: usize, max: usize },
    /// No sibling boundary of the same parent and section lands the member
    /// at `index`; `valid_indices` are those that some boundary reaches.
    RequiresReparent { index: usize, valid_indices: Vec<usize> },
}

/// The outcome of moving the member `pane`, carrying delegation `id`, of
/// `c` to the final displayed index `index`.
pub open spec fn delegated_outcome(
    m: Forest,
    c: PaneCollection,
    pane: PaneId,
    id: DelegationId,
    index: usize,
    r: Result<MemberReorder, MemberReorderError>,
) -> bool {
    match first_position(display_order(m, c), pane) {
        None => r == Err::<MemberReorder, MemberReorderError>(MemberReorderError::NotDisplayed),
        Some(current) => if index > staying_members(m, c, id).len() {
            r == Err::<MemberReorder, MemberReorderError>(
                MemberReorderError::IndexOutOfRange { index, max: staying_members(m, c, id).len() as usize },
            )
        } else if index == current {
            r == Ok::<MemberReorder, MemberReorderError>(MemberReorder::Unchanged)
        } else {
            match first_position(landings(m, c, pane, id), Some(index as int)) {
                Some(j) => r == Ok::<MemberReorder, MemberReorderError>(
                    MemberReorder::Sibling { delegation_id: id, position: candidate_positions(m, c, pane, id)[j] },
                ),
                None => r matches Err(MemberReorderError::RequiresReparent { index: i, valid_indices: v }) && i == index
                    && strictly_increasing(v@) && v@.to_set() == landing_set(m, c, pane, id),
            }
        },
    }
}

/// Where `pane` is displayed once its delegation `id` moves to `position`.
fn landing(collection: &PaneCollection, delegations: &Delegations, pane: PaneId, id: DelegationId, position: SiblingPosition) -> (r: Option<usize>)
    requires
        delegations@.contains_key(id.value()),
    ensures
        landing_index(delegations@, *collection, pane, id, position) == match r {
            Some(u) => Some(u as int),
            None => None::<int>,
        },
{
    match try_reorder(delegations, id, position) {
        Some(moved) => {
            let order = canonical_member_order(collection, &moved);
            find_position(order.as_slice(), pane)
        },
        None => None,
    }
}

/// Add `x` to the strictly increasing `v`.
fn insert_sorted(v: &mut Vec<usize>, x: usize)
    requires
        strictly_increasing(old(v)@),
    ensures
        strictly_increasing(final(v)@),
        final(v)@.to_set() == old(v)@.to_set().insert(x),
{
    let ghost s = v@;
    let mut i: usize = 0;
    while i < v.len() && v[i] < x
        invariant
            v@ == s,
            strictly_increasing(s),
            0 <= i <= s.len(),
            forall|k: int| 0 <= k < i ==> s[k] < x,
        decreases s.len() - i,
    {
        i = i + 1;
    }
    if i < v.len() && v[i] == x {
        assert(s.to_set().insert(x) =~= s.to_set()) by {
            assert(s.to_set().contains(s[i as int]));
        }
        return;
    }
    v.insert(i, x);
    proof {
        let t = v@;
        assert(t == s.insert(i as int, x));
        assert forall|a: int, b: int| 0 <= a < b < t.len() implies t[a] < t[b] by {
            if b < i {
            } else if a < i && b == i {
            } else if a < i {
                assert(s[b - 1] >= x || b - 1 >= i) by {
                    if b - 1 >= i as int {
                        assert(s[i as int] >= x);
                        if b - 1 > i as int {
                            assert(s[i as int] < s[b - 1]);
                        }
                    }
                }
            } else if a == i {
                assert(s[i as int] > x);
                if b - 1 > i as int {
                    assert(s[i as int] < s[b - 1]);
                }
            } else {
                assert(s[a - 1] < s[b - 1]);
            }
        }
        assert(t.to_set() =~= s.to_set().insert(x)) by {
            assert forall|y: usize| t.to_set().contains(y) implies s.to_set().insert(x).contains(y) by {
                let k = choose|k: int| 0 <= k < t.len() && t[k] == y;
                if k < i {
                    assert(s[k] == y);
                } else if k > i {
                    assert(s[k - 1] == y);
                }
            }
            assert forall|y: usize| s.to_set().insert(x).contains(y) implies t.to_set().contains(y) by {
                if y == x {
                    assert(t[i as int] == x);
                } else {
                    let k = choose|k: int| 0 <= k < s.len() && s[k] == y;
                    if k < i {
                        assert(t[k] == y);
                    } else {
                        assert(t[k + 1] == y);
                    }
                }
            }
        }
    }
}

/// The number of members of `displayed` that stay in place while the
/// subtree of `id` moves.
fn staying_count(delegations: &Delegations, displayed: &Vec<PaneId>, id: DelegationId) -> (r: usize)
    requires
        delegations@.contains_key(id.value()),
    ensures
        r == displayed@.filter(|p: PaneId| !moves_with(delegations@, id, p)).len(),
{
    let ghost m = delegations@;
    let ghost pred = |p: PaneId| !moves_with(m, id, p);
    let subtree = match delegations.descendants(id) {
        Ok(found) => found,
        Err(_) => Vec::new(),
    };
    let mut count: usize = 0;
    let mut i: usize = 0;
    while i < displayed.len()
        invariant
            m == delegations@,
            pred == (|p: PaneId| !moves_with(m, id, p)),
            subtree@ == descendants_of(m, id),
            0 <= i <= displayed@.len(),
            count <= i,
            count == displayed@.take(i as int).filter(pred).len(),
        decreases displayed@.len() - i,
    {
        let p = displayed[i];
        proof {
            assert(displayed@.take(i + 1) =~= displayed@.take(i as int).push(p));
            displayed@.take(i as int).lemma_filter_push(p, pred);
        }
        let moving = match delegation_of(delegations, p) {
            Some(d) => d == id || find_delegation(subtree.as_slice(), d).is_some(),
            None => false,
        };
        if !moving {
            count = count + 1;
        }
        i = i + 1;
    }
    assert(displayed@.take(displayed@.len() as int) =~= displayed@);
    count
}

/// The sibling boundaries tried for moving the delegation `id` of `pane`,
/// given the members in display order.
fn candidate_list(collection: &PaneCollection, delegations: &Delegations, displayed: &Vec<PaneId>, pane: PaneId, id: DelegationId) -> (r: Vec<SiblingPosition>)
    requires
        delegations@.contains_key(id.value()),
        displayed@ == display_order(delegations@, *collection),
    ensures
        r@ == candidate_positions(delegations@, *collection, pane, id),
{
    let ghost m = delegations@;
    let parent = match delegations.get(id) {
        Some(record) => record.parent_id,
        None => None,
    };
    let pane_archived = collection.is_archived(pane);
    let mut out: Vec<SiblingPosition> = Vec::new();
    out.push(SiblingPosition::First);
    out.push(SiblingPosition::Last);
    let mut i: usize = 0;
    proof {
        assert(displayed@.take(0) =~= Seq::<PaneId>::empty());
        assert(out@ =~= boundary_positions(visible_siblings(m, *collection, pane, id, displayed@.take(0))));
    }
    while i < displayed.len()
        invariant
            m == delegations@,
            m.contains_key(id.value()),
            parent == m[id.value()].parent_id,
            pane_archived == collection.archived_set().contains(pane),
            0 <= i <= displayed@.len(),
            out@ == boundary_positions(visible_siblings(m, *collection, pane, id, displayed@.take(i as int))),
        decreases displayed@.len() - i,
    {
        let p = displayed[i];
        let ghost before = visible_siblings(m, *collection, pane, id, displayed@.take(i as int));
        proof {
            assert(displayed@.take(i + 1).drop_last() =~= displayed@.take(i as int));
            assert(displayed@.take(i + 1).last() == p);
        }
        match delegation_of(delegations, p) {
            Some(d) => {
                let same_parent = match delegations.get(d) {
                    Some(record) => same_id_option(record.parent_id, parent),
                    None => false,
                };
                if d != id && same_parent && collection.is_archived(p) == pane_archived {
                    proof {
                        assert(before.push(d).drop_last() =~= before);
                        assert(boundary_positions(before.push(d)) == boundary_positions(before) + seq![
                            SiblingPosition::Before(d),
                            SiblingPosition::After(d),
                        ]);
                    }
                    out.push(SiblingPosition::Before(d));
                    out.push(SiblingPosition::After(d));
                    proof {
                        assert(out@ =~= boundary_positions(before) + seq![SiblingPosition::Before(d), SiblingPosition::After(d)]);
                    }
                }
            },
            None => {},
        }
        i = i + 1;
    }
    assert(displayed@.take(displayed@.len() as int) =~= displayed@);
    out
}

/// Plan moving member `pane` of `collection` to the final displayed index
/// `index`. A member without a delegation moves within the member vector.
/// A member carrying a delegation moves with its whole delegation subtree:
/// `index` must not pass the members that stay in place, and the move is
/// the first sibling boundary (first, last, then before and after each
/// visible sibling of the same parent and section, in display order) that
/// displays the member at `index`.
pub fn plan_member_reorder(collection: &PaneCollection, delegations: &Delegations, pane: PaneId, index: usize) -> (r: Result<MemberReorder, MemberReorderError>)
    ensures
        !collection.member_list().contains(pane) ==> r == Err::<MemberReorder, MemberReorderError>(
            MemberReorderError::NotMember,
        ),
        collection.member_list().contains(pane) && pane_delegation(delegations@, pane) is None ==> r == Ok::<
            MemberReorder,
            MemberReorderError,
        >(MemberReorder::MemberVector),
        collection.member_list().contains(pane) ==> (pane_delegation(delegations@, pane) matches Some(id)
            ==> delegated_outcome(delegations@, *collection, pane, id, index, r)),
        r matches Ok(MemberReorder::Sibling { delegation_id, position }) ==> landing_index(
            delegations@,
            *collection,
            pane,
            delegation_id,
            position,
        ) == Some(index as int),
{
    let ghost m = delegations@;
    if find_position(collection.members(), pane).is_none() {
        return Err(MemberReorderError::NotMember);
    }
    let id = match delegation_of(delegations, pane) {
        Some(id) => id,
        None => return Ok(MemberReorder::MemberVector),
    };
    let displayed = canonical_member_order(collection, delegations);
    let current = match find_position(displayed.as_slice(), pane) {
        Some(current) => current,
        None => return Err(MemberReorderError::NotDisplayed),
    };
    let staying = staying_count(delegations, &displayed, id);
    if index > staying {
        return Err(MemberReorderError::IndexOutOfRange { index, max: staying });
    }
    if index == current {
        return Ok(MemberReorder::Unchanged);
    }
    let candidates = candidate_list(collection, delegations, &displayed, pane, id);
    match first_landing(collection, delegations, pane, id, &candidates, index) {
        Ok(position) => Ok(MemberReorder::Sibling { delegation_id: id, position }),
        Err(valid_indices) => Err(MemberReorderError::RequiresReparent { index, valid_indices }),
    }
}

/// The indices that the first `j` landings name.
spec fn landed_within(lands: Seq<Option<int>>, j: int) -> Set<usize> {
    Set::new(|u: usize| lands.take(j).contains(Some(u as int)))
}

proof fn lemma_landed_step(lands: Seq<Option<int>>, j: int)
    requires
        0 <= j < lands.len(),
    ensures
        lands[j] matches Some(i) ==> (0 <= i <= usize::MAX ==> landed_within(lands, j + 1) == landed_within(
            lands,
            j,
        ).insert(i as usize)),
        lands[j] is None ==> landed_within(lands, j + 1) == landed_within(lands, j),
{
    let t0 = lands.take(j);
    let t1 = lands.take(j + 1);
    assert(t1 =~= t0.push(lands[j]));
    if lands[j] is None {
        assert forall|w: usize| t1.contains(Some(w as int)) implies #[trigger] landed_within(lands, j).contains(w) by {
            let k = choose|k: int| 0 <= k < t1.len() && t1[k] == Some(w as int);
            assert(t0[k] == Some(w as int));
        }
        assert forall|w: usize| #[trigger] landed_within(lands, j).contains(w) implies t1.contains(Some(w as int)) by {
            let k = choose|k: int| 0 <= k < t0.len() && t0[k] == Some(w as int);
            assert(t1[k] == Some(w as int));
        }
        assert(landed_within(lands, j + 1) =~= landed_within(lands, j));
    } else {
        let i = lands[j]->0;
        if 0 <= i <= usize::MAX {
            let u = i as usize;
            assert forall|w: usize| #[trigger] landed_within(lands, j).insert(u).contains(w) implies t1.contains(
                Some(w as int),
            ) by {
                if w == u {
                    assert(t1[j] == Some(w as int));
                } else {
                    let k = choose|k: int| 0 <= k < t0.len() && t0[k] == Some(w as int);
                    assert(t1[k] == Some(w as int));
                }
            }
            assert forall|w: usize| t1.contains(Some(w as int)) implies #[trigger] landed_within(lands, j).insert(
                u,
            ).contains(w) by {
                let k = choose|k: int| 0 <= k < t1.len() && t1[k] == Some(w as int);
                if k < j {
                    assert(t0[k] == Some(w as int));
                }
            }
            assert(landed_within(lands, j + 1) =~= landed_within(lands, j).insert(u));
        }
    }
}

/// The first of `candidates` that lands `pane` at `index`, or, when none
/// does, the indices they land it at, in increasing order.
#[verifier::rlimit(40)]
fn first_landing(
    collection: &PaneCollection,
    delegations: &Delegations,
    pane: PaneId,
    id: DelegationId,
    candidates: &Vec<SiblingPosition>,
    index: usize,
) -> (r: Result<SiblingPosition, Vec<usize>>)
    requires
        delegations@.contains_key(id.value()),
        candidates@ == candidate_positions(delegations@, *collection, pane, id),
    ensures
        match first_position(landings(delegations@, *collection, pane, id), Some(index as int)) {
            Some(j) => r == Ok::<SiblingPosition, Vec<usize>>(candidates@[j]),
            None => r matches Err(v) && strictly_increasing(v@) && v@.to_set() == landing_set(
                delegations@,
                *collection,
                pane,
                id,
            ),
        },
        r matches Ok(position) ==> landing_index(delegations@, *collection, pane, id, position) == Some(index as int),
{
    let ghost m = delegations@;
    let ghost lands = landings(m, *collection, pane, id);
    let mut valid: Vec<usize> = Vec::new();
    let mut j: usize = 0;
    proof {
        assert(landed_within(lands, 0) =~= valid@.to_set());
    }
    while j < candidates.len()
        invariant
            m == delegations@,
            m.contains_key(id.value()),
            candidates@ == candidate_positions(m, *collection, pane, id),
            lands == landings(m, *collection, pane, id),
            lands.len() == candidates@.len(),
            0 <= j <= candidates@.len(),
            forall|k: int| 0 <= k < j ==> lands[k] != Some(index as int),
            strictly_increasing(valid@),
            valid@.to_set() == landed_within(lands, j as int),
        decreases candidates@.len() - j,
    {
        let position = candidates[j];
        let landed = landing(collection, delegations, pane, id, position);
        proof {
            assert(lands[j as int] == landing_index(m, *collection, pane, id, position));
            lemma_landed_step(lands, j as int);
        }
        match landed {
            Some(u) => {
                insert_sorted(&mut valid, u);
                if u == index {
                    proof {
                        lemma_first_position(lands, Some(index as int), j as int);
                    }
                    return Ok(position);
                }
            },
            None => {},
        }
        j = j + 1;
    }
    proof {
        assert(lands.take(lands.len() as int) =~= lands);
        assert(!lands.contains(Some(index as int)));
        assert(landed_within(lands, lands.len() as int) =~= landing_set(m, *collection, pane, id));
    }
    Err(valid)
}

/// A move that lands the member at an index (as every planned sibling
/// move does), carried out by `Delegations::reorder`, displays the member at
/// that index.
pub proof fn lemma_planned_move_lands(
    m: Forest,
    c: PaneCollection,
    pane: PaneId,
    index: usize,
    id: DelegationId,
    position: SiblingPosition,
    moved: Forest,
)
    requires
        landing_index(m, c, pane, id, position) == Some(index as int),
        reorder_result(m, id, position, moved),
    ensures
        first_position(display_order(moved, c), pane) == Some(index as int),
{
    lemma_reordered(m, id, position, moved);
}

/// The decimal renderings of `v`, separated by commas.
pub open spec fn index_list_text(v: Seq<usize>) -> Seq<char> {
    joined(v.map_values(|u: usize| decimal(u as nat)), ", "@)
}

/// The error code a refused move is reported with.
pub open spec fn reorder_error_code(e: MemberReorderError) -> Seq<char> {
    match e {
        MemberReorderError::RequiresReparent { .. } => "collection_reorder_requires_reparent"@,
        _ => "collection_reorder_failed"@,
    }
}

/// The message a refused move is reported with.
pub open spec fn reorder_error_message(e: MemberReorderError) -> Seq<char> {
    match e {
        MemberReorderError::NotMember => "pane is not a member"@,
        MemberReorderError::NotDisplayed => "pane is not displayed"@,
        MemberReorderError::IndexOutOfRange { index, max } => "final displayed index "@ + decimal(index as nat)
            + " is out of range after removing the moving subtree (valid range: 0..="@ + decimal(max as nat)
            + "); choose the final index of the subtree root"@,
        MemberReorderError::RequiresReparent { index, valid_indices } => "final displayed index "@ + decimal(
            index as nat,
        ) + " is not a same-parent, same-section sibling-subtree boundary (valid final indices: "@
            + index_list_text(valid_indices@)
            + "); target another visible sibling boundary or use delegation.reparent to change parentage"@,
    }
}

/// `v` in decimal, separated by commas.
fn index_list(v: &Vec<usize>) -> (r: String)
    ensures
        r@ == index_list_text(v@),
{
    let ghost parts = v@.map_values(|u: usize| decimal(u as nat));
    let mut out = String::new();
    let mut i: usize = 0;
    proof {
        assert(v@.take(0).map_values(|u: usize| decimal(u as nat)) =~= Seq::<Seq<char>>::empty());
    }
    while i < v.len()
        invariant
            0 <= i <= v@.len(),
            out@ == joined(v@.take(i as int).map_values(|u: usize| decimal(u as nat)), ", "@),
        decreases v@.len() - i,
    {
        let ghost before = v@.take(i as int).map_values(|u: usize| decimal(u as nat));
        let ghost after = v@.take(i + 1).map_values(|u: usize| decimal(u as nat));
        let digits = u64_to_decimal(v[i] as u64);
        proof {
            assert(after.drop_last() =~= before);
            assert(after.last() == decimal(v@[i as int] as nat));
        }
        if i == 0 {
            out = digits;
            proof {
                assert(after =~= seq![decimal(v@[0] as nat)]);
            }
        } else {
            let spaced = concat(out.as_str(), ", ");
            out = concat(spaced.as_str(), digits.as_str());
        }
        i = i + 1;
    }
    assert(v@.take(v@.len() as int) =~= v@);
    out
}

impl MemberReorderError {
    /// The error code this refusal is reported with.
    pub fn code(&self) -> (r: &'static str)
        ensures
            r@ == reorder_error_code(*self),
    {
        match self {
            MemberReorderError::RequiresReparent { .. } => "collection_reorder_requires_reparent",
            _ => "collection_reorder_failed",
        }
    }

    /// The message this refusal is reported with.
    pub fn message(&self) -> (r: String)
        ensures
            r@ == reorder_error_message(*self),
    {
        match self {
            MemberReorderError::NotMember => String::from_str("pane is not a member"),
            MemberReorderError::NotDisplayed => String::from_str("pane is not displayed"),
            MemberReorderError::IndexOutOfRange { index, max } => {
                let index_text = u64_to_decimal(*index as u64);
                let max_text = u64_to_decimal(*max as u64);
                let a = concat("final displayed index ", index_text.as_str());
                let b = concat(a.as_str(), " is out of range after removing the moving subtree (valid range: 0..=");
                let c = concat(b.as_str(), max_text.as_str());
                concat(c.as_str(), "); choose the final index of the subtree root")
            },
            MemberReorderError::RequiresReparent { index, valid_indices } => {
                let index_text = u64_to_decimal(*index as u64);
                let list = index_list(valid_indices);
                let a = concat("final displayed index ", index_text.as_str());
                let b = concat(
                    a.as_str(),
                    " is not a same-parent, same-section sibling-subtree boundary (valid final indices: ",
                );
                let c = concat(b.as_str(), list.as_str());
                concat(
                    c.as_str(),
                    "); target another visible sibling boundary or use delegation.reparent to change parentage",
                )
            },
        }
    }
}

} // verus!
