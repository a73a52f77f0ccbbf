//! Foreground presentation state of a pane collection: which members are
//! expanded, how tall their previews are, and which one is maximized or
//! entered.

use vstd::prelude::*;
use crate::ids::{CollectionId, PaneId, lemma_pane_id_value_injective};
use crate::layout::Rect;

verus! {

broadcast use lemma_pane_id_value_injective;

pub const DEFAULT_PREVIEW_HEIGHT: u16 = 8;
pub const MIN_PREVIEW_HEIGHT: u16 = 3;
pub const MAX_PREVIEW_HEIGHT: u16 = 40;

/// Whether keys go to the member list or to the entered member's terminal.
#[derive(Debug, Clone, Copy, PartialEq, Eq, Default, Structural)]
pub enum CollectionInteractionMode {
    #[default]
    List,
    Terminal,
}

/// Presentation state of one collection.
#[derive(Debug, Clone, Default)]
pub struct CollectionViewState {
    pub mode: CollectionInteractionMode,
    /// Member explicitly entered by a foreground human.
    pub entered: Option<PaneId>,
    pub scroll: usize,
    pub expanded: Vec<PaneId>,
    /// Preview height per member; the first entry for a member counts.
    pub preview_heights: Vec<(PaneId, u16)>,
    pub maximized: Option<PaneId>,
    pub resize_drag: Option<(PaneId, u16, u16)>,
    pub row_drag: Option<(PaneId, u16)>,
}

/// `h` limited to the allowed preview heights.
pub open spec fn clamp_height(h: u16) -> u16 {
    if h < MIN_PREVIEW_HEIGHT {
        MIN_PREVIEW_HEIGHT
    } else if h > MAX_PREVIEW_HEIGHT {
        MAX_PREVIEW_HEIGHT
    } else {
        h
    }
}

/// The height recorded for `pane`: that of its first entry.
pub open spec fn recorded_height(s: Seq<(PaneId, u16)>, pane: PaneId) -> Option<u16>
    decreases s.len(),
{
    if s.len() == 0 {
        None
    } else if s[0].0 == pane {
        Some(s[0].1)
    } else {
        recorded_height(s.drop_first(), pane)
    }
}

/// The position of the first entry for `pane`.
pub open spec fn first_entry(s: Seq<(PaneId, u16)>, pane: PaneId) -> int {
    choose|i: int| 0 <= i < s.len() && s[i].0 == pane && forall|j: int| 0 <= j < i ==> s[j].0 != pane
}

fn clamp_height_exec(h: u16) -> (r: u16)
    ensures
        r == clamp_height(h),
{
    if h < MIN_PREVIEW_HEIGHT {
        MIN_PREVIEW_HEIGHT
    } else if h > MAX_PREVIEW_HEIGHT {
        MAX_PREVIEW_HEIGHT
    } else {
        h
    }
}

proof fn lemma_recorded_skip(s: Seq<(PaneId, u16)>, pane: PaneId, i: int)
    requires
        0 <= i <= s.len(),
        forall|j: int| 0 <= j < i ==> s[j].0 != pane,
    ensures
        recorded_height(s, pane) == recorded_height(s.skip(i), pane),
    decreases i,
{
    if i > 0 {
        lemma_recorded_skip(s.drop_first(), pane, i - 1);
        assert(s.drop_first().skip(i - 1) =~= s.skip(i));
    } else {
        assert(s.skip(0) =~= s);
    }
}

proof fn lemma_recorded_at(s: Seq<(PaneId, u16)>, pane: PaneId, i: int)
    requires
        0 <= i < s.len(),
        s[i].0 == pane,
        forall|j: int| 0 <= j < i ==> s[j].0 != pane,
    ensures
        recorded_height(s, pane) == Some(s[i].1),
{
    lemma_recorded_skip(s, pane, i);
    assert(s.skip(i)[0] == s[i]);
}

/// The first position of an entry for `pane`, if any.
fn find_entry(s: &Vec<(PaneId, u16)>, pane: PaneId) -> (r: Option<usize>)
    ensures
        r matches Some(i) ==> i < s@.len() && s@[i as int].0 == pane && forall|j: int|
            0 <= j < i ==> s@[j].0 != pane,
        r is None ==> forall|j: int| 0 <= j < s@.len() ==> s@[j].0 != pane,
{
    let mut i: usize = 0;
    while i < s.len()
        invariant
            0 <= i <= s@.len(),
            forall|j: int| 0 <= j < i ==> s@[j].0 != pane,
        decreases s@.len() - i,
    {
        if s[i].0 == pane {
            return Some(i);
        }
        i = i + 1;
    }
    None
}

impl CollectionViewState {
    /// The preview height of `pane_id`: its recorded height, or the default,
    /// limited to the allowed range.
    pub fn preview_height(&self, pane_id: PaneId) -> (r: u16)
        ensures
            r == clamp_height(
                match recorded_height(self.preview_heights@, pane_id) {
                    Some(h) => h,
                    None => DEFAULT_PREVIEW_HEIGHT,
                },
            ),
    {
        let ghost s = self.preview_heights@;
        match find_entry(&self.preview_heights, pane_id) {
            Some(i) => {
                proof {
                    lemma_recorded_at(s, pane_id, i as int);
                }
                clamp_height_exec(self.preview_heights[i].1)
            },
            None => {
                proof {
                    lemma_recorded_skip(s, pane_id, s.len() as int);
                    assert(s.skip(s.len() as int) =~= Seq::<(PaneId, u16)>::empty());
                }
                clamp_height_exec(DEFAULT_PREVIEW_HEIGHT)
            },
        }
    }

    /// Record `height` (limited to the allowed range) for `pane_id`.
    pub fn set_preview_height(&mut self, pane_id: PaneId, height: u16)
        ensures
            final(self).preview_heights@ == if exists|i: int|
                0 <= i < old(self).preview_heights@.len() && old(self).preview_heights@[i].0 == pane_id {
                old(self).preview_heights@.update(
                    first_entry(old(self).preview_heights@, pane_id),
                    (pane_id, clamp_height(height)),
                )
            } else {
                old(self).preview_heights@.push((pane_id, clamp_height(height)))
            },
            recorded_height(final(self).preview_heights@, pane_id) == Some(clamp_height(height)),
            final(self).expanded == old(self).expanded,
            final(self).mode == old(self).mode,
            final(self).entered == old(self).entered,
            final(self).maximized == old(self).maximized,
            final(self).scroll == old(self).scroll,
            final(self).resize_drag == old(self).resize_drag,
            final(self).row_drag == old(self).row_drag,
    {
        let ghost s = self.preview_heights@;
        let h = clamp_height_exec(height);
        match find_entry(&self.preview_heights, pane_id) {
            Some(i) => {
                proof {
                    let c = first_entry(s, pane_id);
                    assert(s[i as int].0 == pane_id && forall|j: int| 0 <= j < i ==> s[j].0 != pane_id);
                    assert(c == i) by {
                        if c < i {
                            assert(s[c].0 != pane_id);
                        } else if c > i {
                            assert(s[i as int].0 != pane_id);
                        }
                    }
                }
                self.preview_heights.set(i, (pane_id, h));
                proof {
                    let t = self.preview_heights@;
                    assert forall|j: int| 0 <= j < i implies t[j].0 != pane_id by {
                        assert(t[j] == s[j]);
                    }
                    lemma_recorded_at(t, pane_id, i as int);
                }
            },
            None => {
                self.preview_heights.push((pane_id, h));
                proof {
                    let t = self.preview_heights@;
                    assert forall|j: int| 0 <= j < s.len() implies t[j].0 != pane_id by {
                        assert(t[j] == s[j]);
                    }
                    lemma_recorded_at(t, pane_id, s.len() as int);
                }
            },
        }
    }

    /// Forget every member not in `members`; a maximized or entered member
    /// that is gone is cleared and the mode returns to the list.
    pub fn retain_members(&mut self, members: &[PaneId])
        ensures
            final(self).expanded@ == old(self).expanded@.filter(|p: PaneId| members@.contains(p)),
            final(self).preview_heights@ == old(self).preview_heights@.filter(
                |e: (PaneId, u16)| members@.contains(e.0),
            ),
            final(self).maximized == (match old(self).maximized {
                Some(p) => if members@.contains(p) {
                    Some(p)
                } else {
                    None
                },
                None => None,
            }),
            final(self).entered == (match old(self).entered {
                Some(p) => if members@.contains(p) {
                    Some(p)
                } else {
                    None
                },
                None => None,
            }),
            final(self).mode == (if (old(self).maximized matches Some(p) && !members@.contains(p)) || (old(
                self,
            ).entered matches Some(p) && !members@.contains(p)) {
                CollectionInteractionMode::List
            } else {
                old(self).mode
            }),
            final(self).scroll == old(self).scroll,
            final(self).resize_drag == old(self).resize_drag,
            final(self).row_drag == old(self).row_drag,
    {
        let ghost keep = |p: PaneId| members@.contains(p);
        let ghost keep_entry = |e: (PaneId, u16)| members@.contains(e.0);
        let mut expanded: Vec<PaneId> = Vec::new();
        let mut i: usize = 0;
        while i < self.expanded.len()
            invariant
                keep == (|p: PaneId| members@.contains(p)),
                0 <= i <= self.expanded@.len(),
                expanded@ == self.expanded@.take(i as int).filter(keep),
            decreases self.expanded@.len() - i,
        {
            let p = self.expanded[i];
            proof {
                assert(self.expanded@.take(i + 1) =~= self.expanded@.take(i as int).push(p));
                self.expanded@.take(i as int).lemma_filter_push(p, keep);
            }
            if slice_contains(members, p) {
                expanded.push(p);
            }
            i = i + 1;
        }
        assert(self.expanded@.take(self.expanded@.len() as int) =~= self.expanded@);
        let mut heights: Vec<(PaneId, u16)> = Vec::new();
        let mut i: usize = 0;
        while i < self.preview_heights.len()
            invariant
                keep_entry == (|e: (PaneId, u16)| members@.contains(e.0)),
                0 <= i <= self.preview_heights@.len(),
                heights@ == self.preview_heights@.take(i as int).filter(keep_entry),
            decreases self.preview_heights@.len() - i,
        {
            let e = self.preview_heights[i];
            proof {
                assert(self.preview_heights@.take(i + 1) =~= self.preview_heights@.take(i as int).push(e));
                self.preview_heights@.take(i as int).lemma_filter_push(e, keep_entry);
            }
            if slice_contains(members, e.0) {
                heights.push(e);
            }
            i = i + 1;
        }
        assert(self.preview_heights@.take(self.preview_heights@.len() as int) =~= self.preview_heights@);
        self.expanded = expanded;
        self.preview_heights = heights;
        let mut to_list = false;
        match self.maximized {
            Some(p) => {
                if !slice_contains(members, p) {
                    self.maximized = None;
                    to_list = true;
                }
            },
            None => {},
        }
        match self.entered {
            Some(p) => {
                if !slice_contains(members, p) {
                    self.entered = None;
                    to_list = true;
                }
            },
            None => {},
        }
        if to_list {
            self.mode = CollectionInteractionMode::List;
        }
    }
}

fn slice_contains(s: &[PaneId], p: PaneId) -> (r: bool)
    ensures
        r == s@.contains(p),
{
    let mut i: usize = 0;
    while i < s.len()
        invariant
            0 <= i <= s@.len(),
            forall|j: int| 0 <= j < i ==> s@[j] != p,
        decreases s@.len() - i,
    {
        if s[i] == p {
            assert(s@[i as int] == p);
            return true;
        }
        i = i + 1;
    }
    false
}

/// Whether cell `(x, y)` lies inside `rect` (an empty rect contains nothing).
pub open spec fn rect_contains(rect: Rect, x: u16, y: u16) -> bool {
    &&& rect.width > 0
    &&& rect.height > 0
    &&& x >= rect.x
    &&& x < crate::layout::sat_add(rect.x, rect.width)
    &&& y >= rect.y
    &&& y < crate::layout::sat_add(rect.y, rect.height)
}

pub fn contains(rect: Rect, x: u16, y: u16) -> (r: bool)
    ensures
        r == rect_contains(rect, x, y),
{
    rect.width > 0 && rect.height > 0 && x >= rect.x && x < rect.x.saturating_add(rect.width) && y
        >= rect.y && y < rect.y.saturating_add(rect.height)
}


/// Which part of a collection a row belongs to.
#[derive(Debug, Clone, Copy, PartialEq, Eq, Structural)]
pub enum CollectionSection {
    Active,
    Archived,
}

/// What a hit region of a collection stands for.
#[derive(Debug, Clone, Copy, PartialEq, Eq, Structural)]
pub enum CollectionHitKind {
    Row,
    Disclosure,
    Preview,
    ResizeHandle,
    Chrome,
}

/// A clickable region of a rendered collection.
#[derive(Debug, Clone, Copy, PartialEq, Eq)]
pub struct CollectionHitRegion {
    pub collection_id: CollectionId,
    pub pane_id: Option<PaneId>,
    pub kind: CollectionHitKind,
    /// Visible, clipped hit rectangle.
    pub rect: Rect,
    /// Terminal row represented by the top of `rect` for clipped previews.
    pub terminal_row_offset: u16,
}

/// One member row of a rendered collection.
#[derive(Debug, Clone)]
pub struct CollectionRowView {
    pub pane_id: PaneId,
    pub section: CollectionSection,
    pub depth: usize,
    pub external_parent: bool,
    pub virtual_y: usize,
    pub row_rect: Rect,
    /// Visible, clipped render and hit rectangle.
    pub preview_rect: Option<Rect>,
    /// Full logical terminal preview size, independent of clipping.
    pub preview_size: Option<(u16, u16)>,
    /// First logical terminal row shown in `preview_rect`.
    pub preview_row_offset: u16,
    pub resize_rect: Option<Rect>,
}

/// Computed geometry of a rendered collection.
#[derive(Debug, Clone)]
pub struct CollectionLayout {
    pub id: CollectionId,
    pub rect: Rect,
    pub inner_rect: Rect,
    pub active_header: Option<Rect>,
    pub archive_header: Option<Rect>,
    pub rows: Vec<CollectionRowView>,
    pub hits: Vec<CollectionHitRegion>,
    pub content_height: usize,
    pub viewport_height: usize,
    pub scroll: usize,
    pub maximized: Option<PaneId>,
}

/// The index of the last region of `hits` that contains `(x, y)`: regions
/// drawn later lie on top.
pub open spec fn topmost_hit(hits: Seq<CollectionHitRegion>, x: u16, y: u16) -> Option<int>
    decreases hits.len(),
{
    if hits.len() == 0 {
        None
    } else if rect_contains(hits.last().rect, x, y) {
        Some(hits.len() - 1)
    } else {
        topmost_hit(hits.drop_last(), x, y)
    }
}

impl CollectionLayout {
    /// The topmost hit region under cell `(x, y)`.
    pub fn hit_at(&self, x: u16, y: u16) -> (r: Option<CollectionHitRegion>)
        ensures
            r == (match topmost_hit(self.hits@, x, y) {
                Some(i) => Some(self.hits@[i]),
                None => None::<CollectionHitRegion>,
            }),
    {
        let mut i: usize = self.hits.len();
        assert(self.hits@.subrange(0, i as int) =~= self.hits@);
        while i > 0
            invariant
                i <= self.hits@.len(),
                topmost_hit(self.hits@, x, y) == topmost_hit(self.hits@.subrange(0, i as int), x, y),
            decreases i,
        {
            let hit = self.hits[i - 1];
            assert(self.hits@.subrange(0, i as int).drop_last() =~= self.hits@.subrange(0, i - 1));
            if contains(hit.rect, x, y) {
                proof {
                    lemma_topmost_hit_bound(self.hits@.subrange(0, i as int), x, y);
                }
                return Some(hit);
            }
            i = i - 1;
        }
        assert(self.hits@.subrange(0, 0) =~= Seq::<CollectionHitRegion>::empty());
        None
    }
}

proof fn lemma_topmost_hit_bound(hits: Seq<CollectionHitRegion>, x: u16, y: u16)
    ensures
        topmost_hit(hits, x, y) matches Some(i) ==> 0 <= i < hits.len(),
    decreases hits.len(),
{
    if hits.len() > 0 {
        lemma_topmost_hit_bound(hits.drop_last(), x, y);
    }
}

} // verus!
