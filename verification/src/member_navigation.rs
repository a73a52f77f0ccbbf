//! Keyboard navigation inside a collection: moving the selection up and
//! down the displayed rows, keeping the selected row on screen, and moving
//! the selected member among its peers.

use vstd::prelude::*;
use crate::collection_view::{
    CollectionInteractionMode, CollectionLayout, CollectionRowView, CollectionViewState, MIN_PREVIEW_HEIGHT,
    clamp_height, first_entry, recorded_height,
};
use crate::delegation::{Delegations, SiblingPosition, sibling_ids};
use crate::forest::{Forest, carries_pane, lemma_siblings_eq, siblings};
use crate::ids::{DelegationId, PaneId, lemma_delegation_id_value_injective, lemma_pane_id_value_injective};
use crate::layout::PaneCollection;

verus! {

broadcast use {lemma_pane_id_value_injective, lemma_delegation_id_value_injective};

/// `current + delta`, limited to the positions `0..len`.
pub open spec fn step_to(current: int, delta: int, len: int) -> int {
    let t = current + delta;
    if t < 0 {
        0
    } else if t > len - 1 {
        len - 1
    } else {
        t
    }
}

/// The first position of `x` in `s`, if it occurs.
pub open spec fn first_position<A>(s: Seq<A>, x: A) -> Option<int> {
    if s.contains(x) {
        Some(choose|i: int| 0 <= i < s.len() && s[i] == x && forall|j: int| 0 <= j < i ==> s[j] != x)
    } else {
        None
    }
}

/// A position that holds `x` with no `x` before it is the first position.
pub(crate) proof fn lemma_first_position<A>(s: Seq<A>, x: A, i: int)
    requires
        0 <= i < s.len(),
        s[i] == x,
        forall|j: int| 0 <= j < i ==> s[j] != x,
    ensures
        first_position(s, x) == Some(i),
{
    assert(s.contains(x));
    let c = choose|c: int| 0 <= c < s.len() && s[c] == x && forall|j: int| 0 <= j < c ==> s[j] != x;
    assert(0 <= c < s.len() && s[c] == x && forall|j: int| 0 <= j < c ==> s[j] != x);
    if c < i {
        assert(s[c] != x);
    } else if c > i {
        assert(s[i] != x);
    }
}

/// The first position of `x` in `s`.
pub(crate) fn find_position(s: &[PaneId], x: PaneId) -> (r: Option<usize>)
    ensures
        match r {
            Some(i) => i < s@.len() && first_position(s@, x) == Some(i as int),
            None => first_position(s@, x) is None,
        },
{
    let mut i: usize = 0;
    while i < s.len()
        invariant
            0 <= i <= s@.len(),
            forall|j: int| 0 <= j < i ==> s@[j] != x,
        decreases s@.len() - i,
    {
        if s[i] == x {
            proof {
                lemma_first_position(s@, x, i as int);
            }
            return Some(i);
        }
        i = i + 1;
    }
    assert(!s@.contains(x));
    None
}

/// The first position of `x` in `s`.
pub(crate) fn find_delegation(s: &[DelegationId], x: DelegationId) -> (r: Option<usize>)
    ensures
        match r {
            Some(i) => i < s@.len() && first_position(s@, x) == Some(i as int),
            None => first_position(s@, x) is None,
        },
{
    let mut i: usize = 0;
    while i < s.len()
        invariant
            0 <= i <= s@.len(),
            forall|j: int| 0 <= j < i ==> s@[j] != x,
        decreases s@.len() - i,
    {
        if s[i] == x {
            proof {
                lemma_first_position(s@, x, i as int);
            }
            return Some(i);
        }
        i = i + 1;
    }
    assert(!s@.contains(x));
    None
}

/// Whether `x` occurs in `s`.
fn listed(s: &[PaneId], x: PaneId) -> (r: bool)
    ensures
        r == s@.contains(x),
{
    match find_position(s, x) {
        Some(_) => true,
        None => false,
    }
}

/// `current + delta`, limited to the positions of a sequence of `len` items.
fn step_index(current: usize, delta: isize, len: usize) -> (r: usize)
    requires
        current < len,
    ensures
        r == step_to(current as int, delta as int, len as int),
        r < len,
{
    let t: i128 = current as i128 + delta as i128;
    if t < 0 {
        0
    } else if t > (len - 1) as i128 {
        len - 1
    } else {
        t as usize
    }
}

/// The member `delta` rows away from the selected one in `order` (from the
/// first row when the selection is not listed), staying within the rows;
/// `None` when there are no rows.
pub open spec fn relative_member_of(order: Seq<PaneId>, selected: Option<PaneId>, delta: int) -> Option<PaneId> {
    if order.len() == 0 {
        None
    } else {
        let current = match selected {
            Some(p) => match first_position(order, p) {
                Some(i) => i,
                None => 0,
            },
            None => 0,
        };
        Some(order[step_to(current, delta, order.len() as int)])
    }
}

/// The member `delta` rows away from `selected` in `order`.
pub fn relative_member(order: &[PaneId], selected: Option<PaneId>, delta: isize) -> (r: Option<PaneId>)
    ensures
        r == relative_member_of(order@, selected, delta as int),
{
    if order.len() == 0 {
        return None;
    }
    let current = match selected {
        Some(p) => match find_position(order, p) {
            Some(i) => i,
            None => 0,
        },
        None => 0,
    };
    Some(order[step_index(current, delta, order.len())])
}

/// The panes of `rows`, in row order.
pub open spec fn row_panes(rows: Seq<CollectionRowView>) -> Seq<PaneId> {
    rows.map_values(|row: CollectionRowView| row.pane_id)
}

/// The laid-out collection behind `layout`, if any.
pub open spec fn layout_model(layout: Option<&CollectionLayout>) -> Option<CollectionLayout> {
    match layout {
        Some(l) => Some(*l),
        None => None,
    }
}

/// The order the selection moves through: the rendered rows when the
/// collection has been laid out, else its members.
pub open spec fn navigation_order(c: PaneCollection, layout: Option<CollectionLayout>) -> Seq<PaneId> {
    match layout {
        Some(l) => row_panes(l.rows@),
        None => c.member_list(),
    }
}

/// Where the first row of `pane` lies in the scrolled content, with the
/// height of the viewport, when the collection has been laid out.
pub open spec fn row_target(layout: Option<CollectionLayout>, pane: PaneId) -> Option<(usize, usize)> {
    match layout {
        Some(l) => match first_position(row_panes(l.rows@), pane) {
            Some(i) => Some((l.rows@[i].virtual_y, l.viewport_height)),
            None => None,
        },
        None => None,
    }
}

fn rows_panes(rows: &Vec<CollectionRowView>) -> (r: Vec<PaneId>)
    ensures
        r@ == row_panes(rows@),
{
    let mut out: Vec<PaneId> = Vec::new();
    let mut i: usize = 0;
    while i < rows.len()
        invariant
            0 <= i <= rows@.len(),
            out@ == row_panes(rows@.take(i as int)),
        decreases rows@.len() - i,
    {
        proof {
            assert(rows@.take(i + 1) =~= rows@.take(i as int).push(rows@[i as int]));
            assert(row_panes(rows@.take(i + 1)) =~= row_panes(rows@.take(i as int)).push(rows@[i as int].pane_id));
        }
        out.push(rows[i].pane_id);
        i = i + 1;
    }
    assert(rows@.take(rows@.len() as int) =~= rows@);
    out
}

/// The member that moving the selection of `collection` by `delta` rows
/// selects, with where its row lies; `None` when there is nothing to select.
pub fn select_relative_target(collection: &PaneCollection, layout: Option<&CollectionLayout>, delta: isize) -> (r: Option<(PaneId, Option<(usize, usize)>)>)
    ensures
        r == (match relative_member_of(
            navigation_order(*collection, layout_model(layout)),
            collection.selection(),
            delta as int,
        ) {
            Some(p) => Some((p, row_target(layout_model(layout), p))),
            None => None,
        }),
{
    match layout {
        Some(l) => {
            let panes = rows_panes(&l.rows);
            match relative_member(panes.as_slice(), collection.selected(), delta) {
                Some(p) => {
                    let target = match find_position(panes.as_slice(), p) {
                        Some(i) => Some((l.rows[i].virtual_y, l.viewport_height)),
                        None => None,
                    };
                    Some((p, target))
                },
                None => None,
            }
        },
        None => {
            match relative_member(collection.members(), collection.selected(), delta) {
                Some(p) => Some((p, None)),
                None => None,
            }
        },
    }
}

/// The scroll offset that brings content row `y` into a viewport of
/// `height` rows scrolled to `scroll`: unchanged when the row is visible,
/// else the least movement that shows it.
pub open spec fn revealing_scroll(scroll: usize, y: usize, height: usize) -> usize {
    let end = if scroll + height > usize::MAX { usize::MAX as int } else { scroll + height };
    if y < scroll {
        y
    } else if y >= end {
        let below = if y + 1 > usize::MAX { usize::MAX as int } else { y + 1 };
        if below - height < 0 { 0 } else { (below - height) as usize }
    } else {
        scroll
    }
}

/// `current + delta` rows, at least the least preview height and at most
/// the largest `u16`.
pub open spec fn resized_height(current: u16, delta: i16) -> u16 {
    let sum = current + delta;
    if sum < MIN_PREVIEW_HEIGHT {
        MIN_PREVIEW_HEIGHT
    } else if sum > u16::MAX {
        u16::MAX
    } else {
        sum as u16
    }
}

/// What moving to a row by `delta` rows would tell the runtime: move the
/// delegation among its siblings, or move the member within the collection.
#[derive(Debug, Clone, Copy, PartialEq, Eq, Structural)]
pub enum RelativeReorder {
    Delegation { delegation_id: DelegationId, position: SiblingPosition },
    Collection { pane_id: PaneId, index: usize },
}

/// Whether delegation `d` carries a member of `c` in the same section
/// (active or archived) as `pane`.
pub open spec fn movable_with(m: Forest, c: PaneCollection, pane: PaneId, d: DelegationId) -> bool {
    m.contains_key(d.value()) && match m[d.value()].pane_id {
        Some(q) => c.member_list().contains(q) && c.archived_set().contains(q) == c.archived_set().contains(pane),
        None => false,
    }
}

/// The children of `parent` that carry members of `c` in the section of
/// `pane`, in sibling order.
pub open spec fn movable_siblings(m: Forest, c: PaneCollection, pane: PaneId, parent: Option<DelegationId>) -> Seq<DelegationId> {
    siblings(m, parent).filter(|d: DelegationId| movable_with(m, c, pane, d))
}

/// Moving the selected member of `c` by `delta` places. A member carrying
/// a delegation moves among the siblings of that delegation that carry
/// members of the same section, before (moving up) or after (moving down)
/// the sibling it lands on, and not at all when it stays in place; any other
/// member moves to a new index of the collection.
pub open spec fn relative_reorder_of(m: Forest, c: PaneCollection, delta: int) -> Option<RelativeReorder> {
    match c.selection() {
        None => None,
        Some(pane) => if exists|k: u64| carries_pane(m, k, pane) {
            let k = choose|k: u64| carries_pane(m, k, pane);
            let id = m[k].id;
            let s = movable_siblings(m, c, pane, m[k].parent_id);
            match first_position(s, id) {
                None => None,
                Some(index) => {
                    let target = step_to(index, delta, s.len() as int);
                    if target == index {
                        None
                    } else if delta < 0 {
                        Some(RelativeReorder::Delegation { delegation_id: id, position: SiblingPosition::Before(s[target]) })
                    } else {
                        Some(RelativeReorder::Delegation { delegation_id: id, position: SiblingPosition::After(s[target]) })
                    }
                },
            }
        } else {
            match first_position(c.member_list(), pane) {
                None => None,
                Some(index) => Some(
                    RelativeReorder::Collection {
                        pane_id: pane,
                        index: step_to(index, delta, c.member_list().len() as int) as usize,
                    },
                ),
            }
        },
    }
}

/// The children of `parent` carrying members of `collection` in the
/// section of `pane`, in sibling order.
fn movable_peers(collection: &PaneCollection, delegations: &Delegations, pane: PaneId, parent: Option<DelegationId>) -> (r: Vec<DelegationId>)
    ensures
        r@ == movable_siblings(delegations@, *collection, pane, parent),
{
    let ghost m = delegations@;
    let records = delegations.records();
    let all = sibling_ids(records, parent);
    proof {
        lemma_siblings_eq(m, parent, all@);
    }
    let ghost pred = |d: DelegationId| movable_with(m, *collection, pane, d);
    let members = collection.members();
    let pane_archived = collection.is_archived(pane);
    let mut peers: Vec<DelegationId> = Vec::new();
    let mut i: usize = 0;
    while i < all.len()
        invariant
            m == delegations@,
            members@ == collection.member_list(),
            pane_archived == collection.archived_set().contains(pane),
            pred == (|d: DelegationId| movable_with(m, *collection, pane, d)),
            all@ == siblings(m, parent),
            0 <= i <= all@.len(),
            peers@ == all@.take(i as int).filter(pred),
        decreases all@.len() - i,
    {
        let d = all[i];
        proof {
            assert(all@.take(i + 1) =~= all@.take(i as int).push(d));
            all@.take(i as int).lemma_filter_push(d, pred);
        }
        match delegations.get(d) {
            Some(rec) => {
                match rec.pane_id {
                    Some(q) => {
                        if listed(members, q) && collection.is_archived(q) == pane_archived {
                            peers.push(d);
                        }
                    },
                    None => {},
                }
            },
            None => {},
        }
        i = i + 1;
    }
    assert(all@.take(all@.len() as int) =~= all@);
    peers
}

/// The move that reordering the selected member of `collection` by `delta`
/// places asks for, if any.
pub fn relative_reorder(collection: &PaneCollection, delegations: &Delegations, delta: isize) -> (r: Option<RelativeReorder>)
    ensures
        r == relative_reorder_of(delegations@, *collection, delta as int),
{
    let ghost m = delegations@;
    let pane = match collection.selected() {
        Some(p) => p,
        None => return None,
    };
    // The records come with the forest's invariant: no pane carries two delegations.
    let _records = delegations.records();
    match delegations.delegation_for_pane(pane) {
        Some(record) => {
            let ghost k = record.id.value();
            proof {
                assert(carries_pane(m, k, pane));
                let c = choose|c: u64| carries_pane(m, c, pane);
                assert(carries_pane(m, c, pane));
                assert(c == k);
                assert(m[k].id.value() == k);
            }
            let peers = movable_peers(collection, delegations, pane, record.parent_id);
            let index = match find_delegation(peers.as_slice(), record.id) {
                Some(i) => i,
                None => return None,
            };
            let target = step_index(index, delta, peers.len());
            if target == index {
                return None;
            }
            let anchor = peers[target];
            if delta < 0 {
                Some(RelativeReorder::Delegation { delegation_id: record.id, position: SiblingPosition::Before(anchor) })
            } else {
                Some(RelativeReorder::Delegation { delegation_id: record.id, position: SiblingPosition::After(anchor) })
            }
        },
        None => {
            let members = collection.members();
            match find_position(members, pane) {
                None => None,
                Some(index) => Some(
                    RelativeReorder::Collection { pane_id: pane, index: step_index(index, delta, members.len()) },
                ),
            }
        },
    }
}

impl CollectionViewState {
    /// Return to the member list after the selection moved, scrolling so
    /// that the selected row (content row and viewport height) is visible.
    pub fn reveal_selection(&mut self, target: Option<(usize, usize)>)
        ensures
            final(self).mode == CollectionInteractionMode::List,
            final(self).entered is None,
            final(self).scroll == (match target {
                Some((y, height)) => revealing_scroll(old(self).scroll, y, height),
                None => old(self).scroll,
            }),
            final(self).expanded == old(self).expanded,
            final(self).preview_heights == old(self).preview_heights,
            final(self).maximized == old(self).maximized,
            final(self).resize_drag == old(self).resize_drag,
            final(self).row_drag == old(self).row_drag,
    {
        self.mode = CollectionInteractionMode::List;
        self.entered = None;
        if let Some((y, height)) = target {
            if y < self.scroll {
                self.scroll = y;
            } else if y >= self.scroll.saturating_add(height) {
                self.scroll = y.saturating_add(1).saturating_sub(height);
            }
        }
    }

    /// Collapse an expanded member (leaving its terminal if it was entered),
    /// or expand a collapsed one.
    pub fn toggle_expanded(&mut self, pane: PaneId)
        ensures
            old(self).expanded@.contains(pane) ==> {
                &&& final(self).expanded@ == old(self).expanded@.filter(|q: PaneId| q != pane)
                &&& final(self).mode == (if old(self).entered == Some(pane) {
                    CollectionInteractionMode::List
                } else {
                    old(self).mode
                })
                &&& final(self).entered == (if old(self).entered == Some(pane) {
                    None
                } else {
                    old(self).entered
                })
            },
            !old(self).expanded@.contains(pane) ==> {
                &&& final(self).expanded@ == old(self).expanded@.push(pane)
                &&& final(self).mode == old(self).mode
                &&& final(self).entered == old(self).entered
            },
            final(self).scroll == old(self).scroll,
            final(self).preview_heights == old(self).preview_heights,
            final(self).maximized == old(self).maximized,
            final(self).resize_drag == old(self).resize_drag,
            final(self).row_drag == old(self).row_drag,
    {
        if listed(self.expanded.as_slice(), pane) {
            let ghost old_expanded = self.expanded@;
            let ghost pred = |q: PaneId| q != pane;
            let mut kept: Vec<PaneId> = Vec::new();
            let mut i: usize = 0;
            while i < self.expanded.len()
                invariant
                    self.expanded@ == old_expanded,
                    pred == (|q: PaneId| q != pane),
                    0 <= i <= old_expanded.len(),
                    kept@ == old_expanded.take(i as int).filter(pred),
                decreases old_expanded.len() - i,
            {
                let q = self.expanded[i];
                proof {
                    assert(old_expanded.take(i + 1) =~= old_expanded.take(i as int).push(q));
                    old_expanded.take(i as int).lemma_filter_push(q, pred);
                }
                if q != pane {
                    kept.push(q);
                }
                i = i + 1;
            }
            assert(old_expanded.take(old_expanded.len() as int) =~= old_expanded);
            self.expanded = kept;
            if self.entered == Some(pane) {
                self.mode = CollectionInteractionMode::List;
                self.entered = None;
            }
        } else {
            self.expanded.push(pane);
        }
    }

    /// Grow or shrink the preview of `pane` by `delta` rows from its current
    /// height `current`, never below the least preview height, and expand it.
    pub fn resize_preview(&mut self, pane: PaneId, current: u16, delta: i16)
        ensures
            final(self).expanded@ == (if old(self).expanded@.contains(pane) {
                old(self).expanded@
            } else {
                old(self).expanded@.push(pane)
            }),
            recorded_height(final(self).preview_heights@, pane) == Some(
                clamp_height(resized_height(current, delta)),
            ),
            final(self).preview_heights@ == if exists|i: int|
                0 <= i < old(self).preview_heights@.len() && old(self).preview_heights@[i].0 == pane {
                old(self).preview_heights@.update(
                    first_entry(old(self).preview_heights@, pane),
                    (pane, clamp_height(resized_height(current, delta))),
                )
            } else {
                old(self).preview_heights@.push((pane, clamp_height(resized_height(current, delta))))
            },
            final(self).mode == old(self).mode,
            final(self).entered == old(self).entered,
            final(self).scroll == old(self).scroll,
            final(self).maximized == old(self).maximized,
            final(self).resize_drag == old(self).resize_drag,
            final(self).row_drag == old(self).row_drag,
    {
        let sum: i32 = current as i32 + delta as i32;
        let next: u16 = if sum < MIN_PREVIEW_HEIGHT as i32 {
            MIN_PREVIEW_HEIGHT
        } else if sum > u16::MAX as i32 {
            u16::MAX
        } else {
            sum as u16
        };
        if !listed(self.expanded.as_slice(), pane) {
            self.expanded.push(pane);
        }
        self.set_preview_height(pane, next);
    }

    /// Maximize `pane`, or restore it when it already is maximized.
    pub fn toggle_maximized(&mut self, pane: PaneId)
        ensures
            final(self).maximized == (if old(self).maximized == Some(pane) {
                None
            } else {
                Some(pane)
            }),
            final(self).mode == old(self).mode,
            final(self).entered == old(self).entered,
            final(self).scroll == old(self).scroll,
            final(self).expanded == old(self).expanded,
            final(self).preview_heights == old(self).preview_heights,
            final(self).resize_drag == old(self).resize_drag,
            final(self).row_drag == old(self).row_drag,
    {
        self.maximized = if self.maximized == Some(pane) {
            None
        } else {
            Some(pane)
        };
    }
}

} // verus!
