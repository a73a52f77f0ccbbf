//! Pane collections, layout leaves and directional navigation between pane
//! rectangles.

use vstd::prelude::*;
use crate::ids::{CollectionId, PaneId, lemma_pane_id_value_injective};

verus! {

broadcast use lemma_pane_id_value_injective;

/// A typed top-level layout leaf. Collections occupy layout space but own no terminal.
#[derive(Debug, Clone, Copy, PartialEq, Eq, Hash, Structural)]
pub enum LayoutLeaf {
    Pane(PaneId),
    Collection(CollectionId),
}

/// Where a pane lives: in the tiled layout or inside a collection.
#[derive(Debug, Clone, Copy, PartialEq, Eq, Structural)]
pub enum PanePlacement {
    Tiled,
    Collection(CollectionId),
}

/// Cardinal direction for pane navigation.
#[derive(Debug, Clone, Copy, PartialEq, Eq, Structural)]
pub enum NavDirection {
    Left,
    Right,
    Up,
    Down,
}

/// A rectangle of terminal cells.
#[derive(Debug, Clone, Copy, PartialEq, Eq, Structural)]
pub struct Rect {
    pub x: u16,
    pub y: u16,
    pub width: u16,
    pub height: u16,
}

/// Which sides of a pane carry a border.
#[derive(Debug, Clone, Copy, PartialEq, Eq, Structural)]
pub struct Borders {
    pub top: bool,
    pub right: bool,
    pub bottom: bool,
    pub left: bool,
}

/// Snapshot of a pane's position and focus state after layout.
#[derive(Debug, Clone, Copy, PartialEq, Eq, Structural)]
pub struct PaneInfo {
    pub id: PaneId,
    /// Outer rect (including borders if present).
    pub rect: Rect,
    /// Inner rect (content area, excluding borders).
    pub inner_rect: Rect,
    /// Visible scrollbar lane, when scrollback is present.
    pub scrollbar_rect: Option<Rect>,
    /// Borders drawn around this pane.
    pub borders: Borders,
    pub is_focused: bool,
}

/// The rectangle lies within the cell coordinate space.
pub open spec fn rect_fits(r: Rect) -> bool {
    r.x + r.width <= u16::MAX && r.y + r.height <= u16::MAX
}

pub open spec fn sat_add(a: u16, b: u16) -> u16 {
    if a + b > u16::MAX {
        u16::MAX
    } else {
        (a + b) as u16
    }
}

pub open spec fn sat_sub(a: u16, b: u16) -> u16 {
    if a >= b {
        (a - b) as u16
    } else {
        0
    }
}

/// `[a_start, a_start + a_len)` and `[b_start, b_start + b_len)` intersect.
pub open spec fn overlaps(a_start: u16, a_len: u16, b_start: u16, b_len: u16) -> bool {
    a_start < b_start + b_len && a_start + a_len > b_start
}

/// Whether two spans of cells intersect.
pub fn ranges_overlap(a_start: u16, a_len: u16, b_start: u16, b_len: u16) -> (r: bool)
    requires
        a_start + a_len <= u16::MAX,
        b_start + b_len <= u16::MAX,
    ensures
        r == overlaps(a_start, a_len, b_start, b_len),
{
    a_start < b_start + b_len && a_start + a_len > b_start
}

pub open spec fn opposite(nav: NavDirection) -> NavDirection {
    match nav {
        NavDirection::Left => NavDirection::Right,
        NavDirection::Right => NavDirection::Left,
        NavDirection::Up => NavDirection::Down,
        NavDirection::Down => NavDirection::Up,
    }
}

/// The direction pointing the other way.
pub fn opposite_direction(nav: NavDirection) -> (r: NavDirection)
    ensures
        r == opposite(nav),
{
    match nav {
        NavDirection::Left => NavDirection::Right,
        NavDirection::Right => NavDirection::Left,
        NavDirection::Up => NavDirection::Down,
        NavDirection::Down => NavDirection::Up,
    }
}

/// The number of cells shared by two spans (their ends saturating).
pub open spec fn overlap_amount(a_start: u16, a_len: u16, b_start: u16, b_len: u16) -> u16 {
    let a_end = sat_add(a_start, a_len);
    let b_end = sat_add(b_start, b_len);
    let lo = if a_start >= b_start { a_start } else { b_start };
    let hi = if a_end <= b_end { a_end } else { b_end };
    sat_sub(hi, lo)
}

/// How many cells two spans share.
pub fn range_overlap_amount(a_start: u16, a_len: u16, b_start: u16, b_len: u16) -> (r: u16)
    ensures
        r == overlap_amount(a_start, a_len, b_start, b_len),
{
    let a_end = a_start.saturating_add(a_len);
    let b_end = b_start.saturating_add(b_len);
    let lo = if a_start >= b_start {
        a_start
    } else {
        b_start
    };
    let hi = if a_end <= b_end {
        a_end
    } else {
        b_end
    };
    hi.saturating_sub(lo)
}

/// Twice the center of a span, saturating.
pub open spec fn doubled_center(start: u16, len: u16) -> u16 {
    let twice: u16 = if 2 * start > u16::MAX {
        u16::MAX
    } else {
        (2 * start) as u16
    };
    sat_add(twice, len)
}

pub open spec fn center_distance(a_start: u16, a_len: u16, b_start: u16, b_len: u16) -> u16 {
    let a = doubled_center(a_start, a_len);
    let b = doubled_center(b_start, b_len);
    if a >= b {
        (a - b) as u16
    } else {
        (b - a) as u16
    }
}

fn double_saturating(v: u16) -> (r: u16)
    ensures
        r == (if 2 * v > u16::MAX {
            u16::MAX
        } else {
            (2 * v) as u16
        }),
{
    if v > 32767 {
        65535
    } else {
        v * 2
    }
}

/// Distance between the centers of two spans, in half cells.
pub fn range_center_distance(a_start: u16, a_len: u16, b_start: u16, b_len: u16) -> (r: u16)
    ensures
        r == center_distance(a_start, a_len, b_start, b_len),
{
    let a_center = double_saturating(a_start).saturating_add(a_len);
    let b_center = double_saturating(b_start).saturating_add(b_len);
    if a_center >= b_center {
        a_center - b_center
    } else {
        b_center - a_center
    }
}

/// Whether pane rectangle `r` lies beyond `fr` in direction `dir`, sharing
/// a span of rows (left/right) or columns (up/down) with it.
pub open spec fn lies_toward(fr: Rect, dir: NavDirection, r: Rect) -> bool {
    match dir {
        NavDirection::Left => r.x + r.width <= fr.x && overlaps(r.y, r.height, fr.y, fr.height),
        NavDirection::Right => r.x >= fr.x + fr.width && overlaps(r.y, r.height, fr.y, fr.height),
        NavDirection::Up => r.y + r.height <= fr.y && overlaps(r.x, r.width, fr.x, fr.width),
        NavDirection::Down => r.y >= fr.y + fr.height && overlaps(r.x, r.width, fr.x, fr.width),
    }
}

/// The gap between `fr` and `r` in direction `dir`.
pub open spec fn edge_gap(fr: Rect, dir: NavDirection, r: Rect) -> u16 {
    match dir {
        NavDirection::Left => sat_sub(fr.x, (r.x + r.width) as u16),
        NavDirection::Right => sat_sub(r.x, (fr.x + fr.width) as u16),
        NavDirection::Up => sat_sub(fr.y, (r.y + r.height) as u16),
        NavDirection::Down => sat_sub(r.y, (fr.y + fr.height) as u16),
    }
}

/// The span shared across direction `dir`.
pub open spec fn side_overlap(fr: Rect, dir: NavDirection, r: Rect) -> u16 {
    match dir {
        NavDirection::Left | NavDirection::Right => overlap_amount(r.y, r.height, fr.y, fr.height),
        NavDirection::Up | NavDirection::Down => overlap_amount(r.x, r.width, fr.x, fr.width),
    }
}

/// The center offset across direction `dir`.
pub open spec fn side_center(fr: Rect, dir: NavDirection, r: Rect) -> u16 {
    match dir {
        NavDirection::Left | NavDirection::Right => center_distance(r.y, r.height, fr.y, fr.height),
        NavDirection::Up | NavDirection::Down => center_distance(r.x, r.width, fr.x, fr.width),
    }
}

/// Whether pane `i` is a candidate to move to from `focused` in `dir`.
pub open spec fn candidate(focused: PaneInfo, dir: NavDirection, panes: Seq<PaneInfo>, i: int) -> bool {
    0 <= i < panes.len() && panes[i].id != focused.id && lies_toward(focused.rect, dir, panes[i].rect)
}

/// Candidate `i` is preferred over candidate `j`: nearer edge, then larger
/// shared span, then nearer center, then earlier in layout order.
pub open spec fn preferred(focused: PaneInfo, dir: NavDirection, panes: Seq<PaneInfo>, i: int, j: int) -> bool {
    let fr = focused.rect;
    let (ei, ej) = (edge_gap(fr, dir, panes[i].rect), edge_gap(fr, dir, panes[j].rect));
    let (oi, oj) = (side_overlap(fr, dir, panes[i].rect), side_overlap(fr, dir, panes[j].rect));
    let (ci, cj) = (side_center(fr, dir, panes[i].rect), side_center(fr, dir, panes[j].rect));
    ||| ei < ej
    ||| ei == ej && oi > oj
    ||| ei == ej && oi == oj && ci < cj
    ||| ei == ej && oi == oj && ci == cj && i < j
}

/// Twice the center of each side of `r` fits in a cell coordinate, so
/// doubled centers do not saturate.
pub open spec fn centers_fit(r: Rect) -> bool {
    2 * r.x + r.width <= u16::MAX && 2 * r.y + r.height <= u16::MAX
}

/// The pane chosen to move to (the candidate preferred over every other, as
/// `find_in_direction` returns it) is, against every other candidate: no
/// farther from the focused pane's facing edge; at an equal gap, sharing no
/// fewer rows (left/right) or columns (up/down); at an equal gap and shared
/// span, with its center no farther from the focused pane's center, counted
/// as |(2*start + len) - (2*fstart + flen)| in half cells; and at equal all
/// of these, earlier in layout order.
#[verifier::rlimit(60)]
pub proof fn lemma_direction_choice_is_nearest(focused: PaneInfo, dir: NavDirection, panes: Seq<PaneInfo>, i: int, j: int)
    requires
        rect_fits(focused.rect),
        forall|k: int| 0 <= k < panes.len() ==> rect_fits(#[trigger] panes[k].rect),
        candidate(focused, dir, panes, i),
        forall|k: int| #![trigger panes[k]] candidate(focused, dir, panes, k) && k != i ==> preferred(focused, dir, panes, i, k),
        candidate(focused, dir, panes, j),
        j != i,
    ensures
        ({
            let f = focused.rect;
            let a = panes[i].rect;
            let b = panes[j].rect;
            let (gap_a, gap_b): (int, int) = match dir {
                NavDirection::Left => (f.x - (a.x + a.width), f.x - (b.x + b.width)),
                NavDirection::Right => (a.x - (f.x + f.width), b.x - (f.x + f.width)),
                NavDirection::Up => (f.y - (a.y + a.height), f.y - (b.y + b.height)),
                NavDirection::Down => (a.y - (f.y + f.height), b.y - (f.y + f.height)),
            };
            let horizontal = dir == NavDirection::Left || dir == NavDirection::Right;
            let (fs, fl, as_, al, bs, bl): (int, int, int, int, int, int) = if horizontal {
                (f.y as int, f.height as int, a.y as int, a.height as int, b.y as int, b.height as int)
            } else {
                (f.x as int, f.width as int, a.x as int, a.width as int, b.x as int, b.width as int)
            };
            let min_end_a = if as_ + al <= fs + fl { as_ + al } else { fs + fl };
            let max_start_a = if as_ >= fs { as_ } else { fs };
            let min_end_b = if bs + bl <= fs + fl { bs + bl } else { fs + fl };
            let max_start_b = if bs >= fs { bs } else { fs };
            let (shared_a, shared_b) = (min_end_a - max_start_a, min_end_b - max_start_b);
            let off_a = (2 * as_ + al) - (2 * fs + fl);
            let off_b = (2 * bs + bl) - (2 * fs + fl);
            let (center_a, center_b) = (if off_a >= 0 { off_a } else { -off_a }, if off_b >= 0 { off_b } else { -off_b });
            let fit = centers_fit(f) && centers_fit(a) && centers_fit(b);
            &&& gap_a <= gap_b
            &&& gap_a == gap_b ==> shared_a >= shared_b
            &&& gap_a == gap_b && shared_a == shared_b && fit ==> center_a <= center_b
            &&& gap_a == gap_b && shared_a == shared_b && fit && center_a == center_b ==> i < j
        }),
{
    assert(preferred(focused, dir, panes, i, j));
}

fn lies_toward_exec(fr: Rect, dir: NavDirection, r: Rect) -> (b: bool)
    requires
        rect_fits(fr),
        rect_fits(r),
    ensures
        b == lies_toward(fr, dir, r),
{
    match dir {
        NavDirection::Left => r.x + r.width <= fr.x && ranges_overlap(r.y, r.height, fr.y, fr.height),
        NavDirection::Right => r.x >= fr.x + fr.width && ranges_overlap(r.y, r.height, fr.y, fr.height),
        NavDirection::Up => r.y + r.height <= fr.y && ranges_overlap(r.x, r.width, fr.x, fr.width),
        NavDirection::Down => r.y >= fr.y + fr.height && ranges_overlap(r.x, r.width, fr.x, fr.width),
    }
}

/// The ordering key of a candidate: edge gap, shared span, center offset.
fn candidate_key(fr: Rect, dir: NavDirection, r: Rect) -> (k: (u16, u16, u16))
    requires
        rect_fits(fr),
        rect_fits(r),
    ensures
        k == (edge_gap(fr, dir, r), side_overlap(fr, dir, r), side_center(fr, dir, r)),
{
    let edge = match dir {
        NavDirection::Left => fr.x.saturating_sub(r.x + r.width),
        NavDirection::Right => r.x.saturating_sub(fr.x + fr.width),
        NavDirection::Up => fr.y.saturating_sub(r.y + r.height),
        NavDirection::Down => r.y.saturating_sub(fr.y + fr.height),
    };
    let overlap = match dir {
        NavDirection::Left | NavDirection::Right => range_overlap_amount(r.y, r.height, fr.y, fr.height),
        NavDirection::Up | NavDirection::Down => range_overlap_amount(r.x, r.width, fr.x, fr.width),
    };
    let center = match dir {
        NavDirection::Left | NavDirection::Right => range_center_distance(r.y, r.height, fr.y, fr.height),
        NavDirection::Up | NavDirection::Down => range_center_distance(r.x, r.width, fr.x, fr.width),
    };
    (edge, overlap, center)
}

/// The pane to move to from `focused` in direction `direction`: among the
/// panes lying that way and sharing a span with it, the one with the nearest
/// edge, then the largest shared span, then the nearest center, then the
/// earliest in layout order; `None` when no pane lies that way.
pub fn find_in_direction(focused: &PaneInfo, direction: NavDirection, panes: &[PaneInfo]) -> (r: Option<PaneId>)
    requires
        rect_fits(focused.rect),
        forall|i: int| 0 <= i < panes@.len() ==> rect_fits(#[trigger] panes@[i].rect),
    ensures
        r is None <==> !exists|i: int| candidate(*focused, direction, panes@, i),
        r matches Some(id) ==> exists|i: int|
            candidate(*focused, direction, panes@, i) && panes@[i].id == id && forall|j: int|
                #![trigger panes@[j]]
                candidate(*focused, direction, panes@, j) && j != i ==> preferred(*focused, direction, panes@, i, j),
{
    let fr = focused.rect;
    let mut best: Option<usize> = None;
    let mut best_key: (u16, u16, u16) = (0, 0, 0);
    let mut i: usize = 0;
    while i < panes.len()
        invariant
            fr == focused.rect,
            rect_fits(fr),
            forall|k: int| 0 <= k < panes@.len() ==> rect_fits(#[trigger] panes@[k].rect),
            0 <= i <= panes@.len(),
            best is None <==> !exists|k: int| 0 <= k < i && candidate(*focused, direction, panes@, k),
            best matches Some(b) ==> b < i && candidate(*focused, direction, panes@, b as int)
                && best_key == (
                    edge_gap(fr, direction, panes@[b as int].rect),
                    side_overlap(fr, direction, panes@[b as int].rect),
                    side_center(fr, direction, panes@[b as int].rect),
                ) && forall|k: int|
                    #![trigger panes@[k]]
                    0 <= k < i && k != b && candidate(*focused, direction, panes@, k) ==> preferred(
                        *focused,
                        direction,
                        panes@,
                        b as int,
                        k,
                    ),
        decreases panes@.len() - i,
    {
        let p = &panes[i];
        if p.id != focused.id && lies_toward_exec(fr, direction, p.rect) {
            let key = candidate_key(fr, direction, p.rect);
            let better = match best {
                None => true,
                Some(_) => key.0 < best_key.0 || (key.0 == best_key.0 && key.1 > best_key.1) || (key.0
                    == best_key.0 && key.1 == best_key.1 && key.2 < best_key.2),
            };
            if better {
                best = Some(i);
                best_key = key;
            }
            assert(candidate(*focused, direction, panes@, i as int));
        } else {
            assert(!candidate(*focused, direction, panes@, i as int));
        }
        i = i + 1;
    }
    match best {
        Some(b) => Some(panes[b].id),
        None => None,
    }
}

// --------------------------------------------------------- pane collections

/// Shared runtime organization of one collection leaf: its members in
/// order, which of them are archived, which one is selected, and a revision
/// that changes with membership and archive state.
#[derive(Debug, Clone, PartialEq, Eq)]
pub struct PaneCollection {
    pub id: CollectionId,
    pub label: Option<String>,
    members: Vec<PaneId>,
    archived: Vec<PaneId>,
    selected: Option<PaneId>,
    /// Monotonic membership/archive revision used to bind destructive confirmations.
    revision: u64,
}

impl PaneCollection {
    /// The collection's identity.
    pub closed spec fn identity(&self) -> CollectionId {
        self.id
    }

    /// The collection's label.
    pub closed spec fn label_text(&self) -> Option<String> {
        self.label
    }

    /// The members, in order.
    pub closed spec fn member_list(&self) -> Seq<PaneId> {
        self.members@
    }

    /// The archived members.
    pub closed spec fn archived_set(&self) -> Set<PaneId> {
        self.archived@.to_set()
    }

    /// The selected member.
    pub closed spec fn selection(&self) -> Option<PaneId> {
        self.selected
    }

    /// The membership/archive revision.
    pub closed spec fn rev(&self) -> u64 {
        self.revision
    }

    /// Members are distinct, archived panes are members, and a nonempty
    /// collection has a selected member.
    pub closed spec fn wf(&self) -> bool {
        &&& self.members@.no_duplicates()
        &&& self.archived@.no_duplicates()
        &&& forall|p: PaneId| self.archived@.contains(p) ==> self.members@.contains(p)
        &&& match self.selected {
            Some(p) => self.members@.contains(p),
            None => self.members@.len() == 0,
        }
    }

    /// The collection invariant in terms of the model.
    pub proof fn lemma_wf(&self)
        requires
            self.wf(),
        ensures
            self.member_list().no_duplicates(),
            self.archived_set().subset_of(self.member_list().to_set()),
            self.selection() matches Some(p) ==> self.member_list().contains(p),
            self.selection() is None ==> self.member_list().len() == 0,
    {
    }

    /// A collection without members.
    pub fn empty(id: CollectionId, label: Option<String>) -> (r: Self)
        ensures
            r.wf(),
            r.identity() == id,
            r.label_text() == label,
            r.member_list() == Seq::<PaneId>::empty(),
            r.archived_set() == Set::<PaneId>::empty(),
            r.selection() is None,
            r.rev() == 0,
    {
        let r = PaneCollection { id, label, members: Vec::new(), archived: Vec::new(), selected: None, revision: 0 };
        assert(r.archived@.to_set() =~= Set::<PaneId>::empty());
        r
    }

    pub fn members(&self) -> (r: &[PaneId])
        ensures
            r@ == self.member_list(),
    {
        self.members.as_slice()
    }

    /// A copy of `c`.
    pub fn copy_of(c: &PaneCollection) -> (r: PaneCollection)
        requires
            c.wf(),
        ensures
            r.wf(),
            r.identity() == c.identity(),
            r.label_text() == c.label_text(),
            r.member_list() == c.member_list(),
            r.archived_set() == c.archived_set(),
            r.selection() == c.selection(),
            r.rev() == c.rev(),
    {
        let label = match &c.label {
            Some(l) => Some(l.clone()),
            None => None,
        };
        PaneCollection {
            id: c.id,
            label,
            members: copy_panes(&c.members),
            archived: copy_panes(&c.archived),
            selected: c.selected,
            revision: c.revision,
        }
    }

    /// Replace the collection's label.
    pub fn set_label(&mut self, label: Option<String>)
        requires
            old(self).wf(),
        ensures
            final(self).wf(),
            final(self).label_text() == label,
            final(self).identity() == old(self).identity(),
            final(self).member_list() == old(self).member_list(),
            final(self).archived_set() == old(self).archived_set(),
            final(self).selection() == old(self).selection(),
            final(self).rev() == old(self).rev(),
    {
        self.label = label;
    }

    /// The collection's identity.
    pub fn collection_id(&self) -> (r: CollectionId)
        ensures
            r == self.identity(),
    {
        self.id
    }

    pub fn selected(&self) -> (r: Option<PaneId>)
        ensures
            r == self.selection(),
    {
        self.selected
    }

    pub fn is_archived(&self, pane_id: PaneId) -> (r: bool)
        ensures
            r == self.archived_set().contains(pane_id),
    {
        contains_pane(&self.archived, pane_id)
    }

    pub fn revision(&self) -> (r: u64)
        ensures
            r == self.rev(),
    {
        self.revision
    }

    /// The members that are not archived, in member order.
    pub fn active_members(&self) -> (r: Vec<PaneId>)
        ensures
            r@ == self.member_list().filter(|p: PaneId| !self.archived_set().contains(p)),
    {
        let r = self.members_where(false);
        assert((|p: PaneId| self.archived_set().contains(p) == false) =~= (|p: PaneId|
            !self.archived_set().contains(p)));
        r
    }

    /// The archived members, in member order.
    pub fn archived_members(&self) -> (r: Vec<PaneId>)
        ensures
            r@ == self.member_list().filter(|p: PaneId| self.archived_set().contains(p)),
    {
        let r = self.members_where(true);
        assert((|p: PaneId| self.archived_set().contains(p) == true) =~= (|p: PaneId|
            self.archived_set().contains(p)));
        r
    }

    /// The members whose archived state is `archived`, in member order.
    fn members_where(&self, archived: bool) -> (r: Vec<PaneId>)
        ensures
            r@ == self.member_list().filter(|p: PaneId| self.archived_set().contains(p) == archived),
    {
        let ghost pred = |p: PaneId| self.archived_set().contains(p) == archived;
        let mut out: Vec<PaneId> = Vec::new();
        let mut i: usize = 0;
        while i < self.members.len()
            invariant
                pred == (|p: PaneId| self.archived_set().contains(p) == archived),
                0 <= i <= self.members@.len(),
                out@ == self.members@.take(i as int).filter(pred),
            decreases self.members@.len() - i,
        {
            let p = self.members[i];
            proof {
                assert(self.members@.take(i + 1) =~= self.members@.take(i as int).push(p));
                self.members@.take(i as int).lemma_filter_push(p, pred);
            }
            if contains_pane(&self.archived, p) == archived {
                out.push(p);
            }
            i = i + 1;
        }
        assert(self.members@.take(self.members@.len() as int) =~= self.members@);
        out
    }

    /// Rebuild a saved collection; `None` when the members repeat, an
    /// archived pane or the selection is not a member, or a nonempty
    /// collection has no selection.
    pub fn from_saved(
        id: CollectionId,
        label: Option<String>,
        members: Vec<PaneId>,
        selected: Option<PaneId>,
        archived: Vec<PaneId>,
    ) -> (r: Option<Self>)
        ensures
            r is Some <==> saved_consistent(members@, selected, archived@),
            r matches Some(c) ==> c.wf() && c.identity() == id && c.label_text() == label && c.member_list() == members@
                && c.archived_set() == archived@.to_set() && c.selection() == selected && c.rev() == 0,
    {
        if !distinct_panes(&members) {
            return None;
        }
        let mut i: usize = 0;
        while i < archived.len()
            invariant
                0 <= i <= archived@.len(),
                forall|j: int| 0 <= j < i ==> members@.contains(#[trigger] archived@[j]),
            decreases archived@.len() - i,
        {
            if !contains_pane(&members, archived[i]) {
                return None;
            }
            i = i + 1;
        }
        match selected {
            Some(p) => {
                if !contains_pane(&members, p) {
                    return None;
                }
            },
            None => {
                if members.len() > 0 {
                    return None;
                }
            },
        }
        let unique = dedup_panes(&archived);
        let r = PaneCollection { id, label, members, archived: unique, selected, revision: 0 };
        proof {
            assert forall|p: PaneId| r.archived@.contains(p) implies r.members@.contains(p) by {
                assert(archived@.to_set().contains(p));
                let j = choose|j: int| 0 <= j < archived@.len() && archived@[j] == p;
                assert(members@.contains(archived@[j]));
            }
        }
        Some(r)
    }
}

impl PaneCollection {
    /// Append `pane` as the last member; an empty collection selects it.
    /// Refused (returning false, nothing changed) when it is a member already.
    pub fn add_member(&mut self, pane: PaneId) -> (r: bool)
        requires
            old(self).wf(),
        ensures
            final(self).wf(),
            final(self).identity() == old(self).identity(),
            final(self).label_text() == old(self).label_text(),
            r == !old(self).member_list().contains(pane),
            !r ==> *final(self) == *old(self),
            r ==> final(self).member_list() == old(self).member_list().push(pane)
                && final(self).archived_set() == old(self).archived_set()
                && final(self).selection() == (if old(self).selection() is Some {
                    old(self).selection()
                } else {
                    Some(pane)
                }) && final(self).rev() == old(self).rev().saturating_add(1),
    {
        if contains_pane(&self.members, pane) {
            return false;
        }
        let ghost before = self.members@;
        self.members.push(pane);
        if self.selected.is_none() {
            self.selected = Some(pane);
        }
        self.revision = self.revision.saturating_add(1);
        proof {
            assert(self.members@ == before.push(pane));
            assert(self.members@.no_duplicates()) by {
                assert forall|a: int, b: int| 0 <= a < self.members@.len() && 0 <= b < self.members@.len() && a != b implies self.members@[a] != self.members@[b] by {
                    if a < before.len() && b < before.len() {
                    } else if a < before.len() {
                        assert(before.contains(self.members@[a]));
                    } else {
                        assert(before.contains(self.members@[b]));
                    }
                }
            }
            assert forall|p: PaneId| self.archived@.contains(p) implies self.members@.contains(p) by {
                let j = choose|j: int| 0 <= j < before.len() && before[j] == p;
                assert(self.members@[j] == p);
            }
            assert(self.members@[before.len() as int] == pane);
            if let Some(q) = self.selected {
                if q != pane {
                    let j = choose|j: int| 0 <= j < before.len() && before[j] == q;
                    assert(self.members@[j] == q);
                }
            }
        }
        true
    }

    /// Remove member `pane` and forget whether it was archived. When it was
    /// selected, the member that takes its place is selected, or else the one
    /// before it. Refused (returning false, nothing changed) for a non-member.
    pub fn remove_member(&mut self, pane: PaneId) -> (r: bool)
        requires
            old(self).wf(),
        ensures
            final(self).wf(),
            final(self).identity() == old(self).identity(),
            final(self).label_text() == old(self).label_text(),
            r == old(self).member_list().contains(pane),
            !r ==> *final(self) == *old(self),
            r ==> {
                let index = old(self).member_list().index_of(pane);
                let rest = old(self).member_list().remove(index);
                &&& final(self).member_list() == rest
                &&& final(self).archived_set() == old(self).archived_set().remove(pane)
                &&& final(self).selection() == if old(self).selection() == Some(pane) {
                    if index < rest.len() {
                        Some(rest[index])
                    } else if index > 0 {
                        Some(rest[index - 1])
                    } else {
                        None
                    }
                } else {
                    old(self).selection()
                }
                &&& final(self).rev() == old(self).rev().saturating_add(1)
            },
    {
        let ghost before = self.members@;
        let ghost arch = self.archived@;
        let index = match position_of_pane(&self.members, pane) {
            Some(i) => i,
            None => return false,
        };
        proof {
            assert(before.index_of(pane) == index) by {
                assert(before[index as int] == pane);
                if before.index_of(pane) != index {
                    assert(before[before.index_of(pane)] == pane);
                }
            }
        }
        self.members.remove(index);
        match position_of_pane(&self.archived, pane) {
            Some(j) => {
                self.archived.remove(j);
                proof {
                    assert(self.archived@.to_set() =~= arch.to_set().remove(pane)) by {
                        assert forall|p: PaneId| self.archived@.to_set().contains(p) <==> arch.to_set().remove(pane).contains(p) by {
                            if self.archived@.contains(p) {
                                let k = choose|k: int| 0 <= k < self.archived@.len() && self.archived@[k] == p;
                                if k < j {
                                    assert(arch[k] == p);
                                } else {
                                    assert(arch[k + 1] == p);
                                }
                            }
                            if arch.contains(p) && p != pane {
                                let k = choose|k: int| 0 <= k < arch.len() && arch[k] == p;
                                if k < j {
                                    assert(self.archived@[k] == p);
                                } else {
                                    assert(k != j);
                                    assert(self.archived@[k - 1] == p);
                                }
                            }
                        }
                    }
                }
            },
            None => {
                assert(arch.to_set() =~= arch.to_set().remove(pane));
            },
        }
        let was_selected = match self.selected {
            Some(s) => s == pane,
            None => false,
        };
        if was_selected {
            if index < self.members.len() {
                self.selected = Some(self.members[index]);
            } else if index > 0 {
                self.selected = Some(self.members[index - 1]);
            } else {
                self.selected = None;
            }
        }
        self.revision = self.revision.saturating_add(1);
        proof {
            let rest = self.members@;
            assert(rest == before.remove(index as int));
            assert forall|p: PaneId| rest.contains(p) <==> before.contains(p) && p != pane by {
                if rest.contains(p) {
                    let k = choose|k: int| 0 <= k < rest.len() && rest[k] == p;
                    if k < index {
                        assert(before[k] == p);
                        assert(k != index);
                    } else {
                        assert(before[k + 1] == p);
                        assert(k + 1 != index);
                    }
                }
                if before.contains(p) && p != pane {
                    let k = choose|k: int| 0 <= k < before.len() && before[k] == p;
                    if k < index {
                        assert(rest[k] == p);
                    } else {
                        assert(k != index);
                        assert(rest[k - 1] == p);
                    }
                }
            }
            assert(rest.no_duplicates()) by {
                assert forall|a: int, b: int| 0 <= a < rest.len() && 0 <= b < rest.len() && a != b implies rest[a] != rest[b] by {
                    let a1 = if a < index { a } else { a + 1 };
                    let b1 = if b < index { b } else { b + 1 };
                    assert(rest[a] == before[a1] && rest[b] == before[b1]);
                }
            }
            assert forall|p: PaneId| self.archived@.contains(p) implies rest.contains(p) by {
                assert(self.archived@.to_set().contains(p));
                assert(arch.contains(p));
            }
            if let Some(q) = self.selected {
                if !was_selected {
                    assert(before.contains(q));
                    assert(q != pane);
                }
            }
        }
        true
    }

    /// Select member `pane`; refused (false, nothing changed) for a non-member.
    pub fn select_member(&mut self, pane: PaneId) -> (r: bool)
        requires
            old(self).wf(),
        ensures
            final(self).wf(),
            r == old(self).member_list().contains(pane),
            !r ==> *final(self) == *old(self),
            r ==> final(self).selection() == Some(pane) && final(self).member_list() == old(self).member_list() && final(self).archived_set() == old(self).archived_set() && final(self).rev()
                == old(self).rev() && final(self).identity() == old(self).identity()
                && final(self).label_text() == old(self).label_text(),
    {
        if !contains_pane(&self.members, pane) {
            return false;
        }
        self.selected = Some(pane);
        true
    }

    /// Move member `pane` to position `index`; refused (false, nothing
    /// changed) for a non-member or a position past the last member.
    pub fn reorder_member(&mut self, pane: PaneId, index: usize) -> (r: bool)
        requires
            old(self).wf(),
        ensures
            final(self).wf(),
            r == (old(self).member_list().contains(pane) && index < old(self).member_list().len()),
            !r ==> *final(self) == *old(self),
            r ==> final(self).member_list() == old(self).member_list().remove(
                old(self).member_list().index_of(pane),
            ).insert(index as int, pane) && final(self).archived_set() == old(self).archived_set()
                && final(self).selection() == old(self).selection() && final(self).rev() == old(self).rev().saturating_add(1) && final(self).identity() == old(self).identity()
                && final(self).label_text() == old(self).label_text(),
    {
        let ghost before = self.members@;
        let current = match position_of_pane(&self.members, pane) {
            Some(i) => i,
            None => return false,
        };
        if index >= self.members.len() {
            return false;
        }
        proof {
            assert(before.index_of(pane) == current) by {
                assert(before[current as int] == pane);
                if before.index_of(pane) != current {
                    assert(before[before.index_of(pane)] == pane);
                }
            }
        }
        let moved = self.members.remove(current);
        self.members.insert(index, moved);
        self.revision = self.revision.saturating_add(1);
        proof {
            let mid = before.remove(current as int);
            let after = self.members@;
            assert(after == mid.insert(index as int, pane));
            assert forall|p: PaneId| after.contains(p) <==> before.contains(p) by {
                if after.contains(p) {
                    let k = choose|k: int| 0 <= k < after.len() && after[k] == p;
                    if k != index {
                        let m = if k < index { k } else { k - 1 };
                        assert(mid[m] == p);
                        let b = if m < current { m } else { m + 1 };
                        assert(before[b] == p);
                    }
                }
                if before.contains(p) {
                    let k = choose|k: int| 0 <= k < before.len() && before[k] == p;
                    if k != current {
                        let m = if k < current { k } else { k - 1 };
                        assert(mid[m] == p);
                        let a = if m < index { m } else { m + 1 };
                        assert(after[a] == p);
                    } else {
                        assert(after[index as int] == p);
                    }
                }
            }
            assert(after.no_duplicates()) by {
                assert forall|a: int, b: int| 0 <= a < after.len() && 0 <= b < after.len() && a != b implies after[a] != after[b] by {
                    if a != index && b != index {
                        let ma = if a < index { a } else { a - 1 };
                        let mb = if b < index { b } else { b - 1 };
                        let ba = if ma < current { ma } else { ma + 1 };
                        let bb = if mb < current { mb } else { mb + 1 };
                        assert(after[a] == before[ba] && after[b] == before[bb]);
                    } else {
                        let o = if a == index { b } else { a };
                        let mo = if o < index { o } else { o - 1 };
                        let bo = if mo < current { mo } else { mo + 1 };
                        assert(after[o] == before[bo]);
                        assert(bo != current);
                        assert(after[index as int] == before[current as int]);
                    }
                }
            }
        }
        true
    }

    /// Mark member `pane` archived or active. The revision moves only when
    /// the state changes; refused (false, nothing changed) for a non-member.
    pub fn set_member_archived(&mut self, pane: PaneId, archived: bool) -> (r: bool)
        requires
            old(self).wf(),
        ensures
            final(self).wf(),
            r == old(self).member_list().contains(pane),
            !r ==> *final(self) == *old(self),
            r ==> final(self).archived_set() == (if archived {
                old(self).archived_set().insert(pane)
            } else {
                old(self).archived_set().remove(pane)
            }) && final(self).rev() == (if old(self).archived_set().contains(pane) != archived {
                old(self).rev().saturating_add(1)
            } else {
                old(self).rev()
            }) && final(self).member_list() == old(self).member_list() && final(self).selection()
                == old(self).selection() && final(self).identity() == old(self).identity()
                && final(self).label_text() == old(self).label_text(),
    {
        if !contains_pane(&self.members, pane) {
            return false;
        }
        let ghost arch = self.archived@;
        let was = contains_pane(&self.archived, pane);
        if archived && !was {
            self.archived.push(pane);
            proof {
                arch.lemma_push_to_set_commute(pane);
                assert(self.archived@.no_duplicates()) by {
                    assert forall|a: int, b: int| 0 <= a < self.archived@.len() && 0 <= b < self.archived@.len() && a != b implies self.archived@[a] != self.archived@[b] by {
                        if a < arch.len() && b < arch.len() {
                        } else if a < arch.len() {
                            assert(arch.contains(self.archived@[a]));
                        } else {
                            assert(arch.contains(self.archived@[b]));
                        }
                    }
                }
                assert forall|p: PaneId| self.archived@.contains(p) implies self.members@.contains(p) by {
                    let k = choose|k: int| 0 <= k < self.archived@.len() && self.archived@[k] == p;
                    if k < arch.len() {
                        assert(arch[k] == p);
                    }
                }
            }
            self.revision = self.revision.saturating_add(1);
        } else if !archived && was {
            let j = match position_of_pane(&self.archived, pane) {
                Some(j) => j,
                None => return true,
            };
            self.archived.remove(j);
            proof {
                assert(self.archived@.to_set() =~= arch.to_set().remove(pane)) by {
                    assert forall|p: PaneId| self.archived@.to_set().contains(p) <==> arch.to_set().remove(pane).contains(p) by {
                        if self.archived@.contains(p) {
                            let k = choose|k: int| 0 <= k < self.archived@.len() && self.archived@[k] == p;
                            if k < j {
                                assert(arch[k] == p);
                            } else {
                                assert(arch[k + 1] == p);
                            }
                        }
                        if arch.contains(p) && p != pane {
                            let k = choose|k: int| 0 <= k < arch.len() && arch[k] == p;
                            if k < j {
                                assert(self.archived@[k] == p);
                            } else {
                                assert(k != j);
                                assert(self.archived@[k - 1] == p);
                            }
                        }
                    }
                }
                assert(self.archived@.no_duplicates()) by {
                    assert forall|a: int, b: int| 0 <= a < self.archived@.len() && 0 <= b < self.archived@.len() && a != b implies self.archived@[a] != self.archived@[b] by {
                        let a1 = if a < j { a } else { a + 1 };
                        let b1 = if b < j { b } else { b + 1 };
                        assert(self.archived@[a] == arch[a1] && self.archived@[b] == arch[b1]);
                    }
                }
                assert forall|p: PaneId| self.archived@.contains(p) implies self.members@.contains(p) by {
                    assert(self.archived@.to_set().contains(p));
                    assert(arch.contains(p));
                }
            }
            self.revision = self.revision.saturating_add(1);
        } else {
            proof {
                if archived {
                    assert(arch.to_set().insert(pane) =~= arch.to_set());
                } else {
                    assert(arch.to_set().remove(pane) =~= arch.to_set());
                }
            }
        }
        true
    }

    /// Undo a just-started restore of archived member `pane`: archive it
    /// again and put back `original_revision`. Refused (false, nothing
    /// changed) for a non-member or a member that is archived already.
    pub fn rollback_member_restore(&mut self, pane: PaneId, original_revision: u64) -> (r: bool)
        requires
            old(self).wf(),
        ensures
            final(self).wf(),
            r == (old(self).member_list().contains(pane) && !old(self).archived_set().contains(pane)),
            !r ==> *final(self) == *old(self),
            r ==> final(self).archived_set() == old(self).archived_set().insert(pane) && final(self).rev() == original_revision && final(self).member_list() == old(self).member_list()
                && final(self).selection() == old(self).selection() && final(self).identity()
                == old(self).identity() && final(self).label_text() == old(self).label_text(),
    {
        if !contains_pane(&self.members, pane) || contains_pane(&self.archived, pane) {
            return false;
        }
        let ghost arch = self.archived@;
        self.archived.push(pane);
        proof {
            arch.lemma_push_to_set_commute(pane);
            assert(self.archived@.no_duplicates()) by {
                assert forall|a: int, b: int| 0 <= a < self.archived@.len() && 0 <= b < self.archived@.len() && a != b implies self.archived@[a] != self.archived@[b] by {
                    if a < arch.len() && b < arch.len() {
                    } else if a < arch.len() {
                        assert(arch.contains(self.archived@[a]));
                    } else {
                        assert(arch.contains(self.archived@[b]));
                    }
                }
            }
            assert forall|p: PaneId| self.archived@.contains(p) implies self.members@.contains(p) by {
                let k = choose|k: int| 0 <= k < self.archived@.len() && self.archived@[k] == p;
                if k < arch.len() {
                    assert(arch[k] == p);
                }
            }
        }
        self.revision = original_revision;
        true
    }
}

/// The first position of `p` in `v`.
fn copy_panes(v: &Vec<PaneId>) -> (r: Vec<PaneId>)
    ensures
        r@ == v@,
{
    let mut out: Vec<PaneId> = Vec::new();
    let mut i: usize = 0;
    while i < v.len()
        invariant
            0 <= i <= v@.len(),
            out@ == v@.take(i as int),
        decreases v@.len() - i,
    {
        out.push(v[i]);
        assert(v@.take(i + 1) =~= v@.take(i as int).push(v@[i as int]));
        i = i + 1;
    }
    assert(v@.take(v@.len() as int) =~= v@);
    out
}

fn position_of_pane(v: &Vec<PaneId>, p: PaneId) -> (r: Option<usize>)
    ensures
        r matches Some(i) ==> i < v@.len() && v@[i as int] == p && forall|j: int| 0 <= j < i ==> v@[j] != p,
        r is None ==> !v@.contains(p),
{
    let mut i: usize = 0;
    while i < v.len()
        invariant
            0 <= i <= v@.len(),
            forall|j: int| 0 <= j < i ==> v@[j] != p,
        decreases v@.len() - i,
    {
        if v[i] == p {
            return Some(i);
        }
        i = i + 1;
    }
    None
}

/// What `from_saved` accepts.
pub open spec fn saved_consistent(members: Seq<PaneId>, selected: Option<PaneId>, archived: Seq<PaneId>) -> bool {
    &&& members.no_duplicates()
    &&& forall|j: int| 0 <= j < archived.len() ==> members.contains(#[trigger] archived[j])
    &&& match selected {
        Some(p) => members.contains(p),
        None => members.len() == 0,
    }
}

pub(crate) fn contains_pane(v: &Vec<PaneId>, p: PaneId) -> (r: bool)
    ensures
        r == v@.contains(p),
        r == v@.to_set().contains(p),
{
    let mut i: usize = 0;
    while i < v.len()
        invariant
            0 <= i <= v@.len(),
            forall|j: int| 0 <= j < i ==> v@[j] != p,
        decreases v@.len() - i,
    {
        if v[i] == p {
            assert(v@[i as int] == p);
            return true;
        }
        i = i + 1;
    }
    false
}

pub(crate) fn distinct_panes(v: &Vec<PaneId>) -> (r: bool)
    ensures
        r == v@.no_duplicates(),
{
    let mut i: usize = 0;
    while i < v.len()
        invariant
            0 <= i <= v@.len(),
            forall|a: int, b: int| 0 <= a < b < i ==> v@[a] != v@[b],
        decreases v@.len() - i,
    {
        let mut j: usize = 0;
        while j < i
            invariant
                0 <= j <= i < v@.len(),
                forall|a: int| 0 <= a < j ==> v@[a] != v@[i as int],
            decreases i - j,
        {
            if v[j] == v[i] {
                return false;
            }
            j = j + 1;
        }
        i = i + 1;
    }
    true
}

/// The distinct panes of `v`, first occurrences in order.
fn dedup_panes(v: &Vec<PaneId>) -> (r: Vec<PaneId>)
    ensures
        r@.no_duplicates(),
        r@.to_set() == v@.to_set(),
{
    let mut out: Vec<PaneId> = Vec::new();
    let mut i: usize = 0;
    while i < v.len()
        invariant
            0 <= i <= v@.len(),
            out@.no_duplicates(),
            out@.to_set() == v@.take(i as int).to_set(),
        decreases v@.len() - i,
    {
        let p = v[i];
        proof {
            assert(v@.take(i + 1) =~= v@.take(i as int).push(p));
            v@.take(i as int).lemma_push_to_set_commute(p);
        }
        if !contains_pane(&out, p) {
            proof {
                out@.lemma_push_to_set_commute(p);
            }
            out.push(p);
        } else {
            assert(out@.to_set().insert(p) =~= out@.to_set());
        }
        i = i + 1;
    }
    assert(v@.take(v@.len() as int) =~= v@);
    out
}

} // verus!
