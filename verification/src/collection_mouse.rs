//! Which part of the rendered collections a mouse event lands on. A right
//! button press on a collection's outer frame opens the collection's menu,
//! even over a maximized preview; everything else goes by the regions each
//! collection drew.

use vstd::prelude::*;
use crate::collection_view::{
    CollectionHitKind, CollectionHitRegion, CollectionLayout, CollectionViewState, MIN_PREVIEW_HEIGHT, clamp_height,
    first_entry, topmost_hit,
};
use crate::ids::PaneId;
use crate::layout::{Rect, sat_add, sat_sub};

verus! {

/// Whether cell `(x, y)` lies in the outer frame of `layout`: inside its
/// rectangle and, when a member is maximized, on the rectangle's border,
/// otherwise outside the inner rectangle.
pub open spec fn on_outer_frame(layout: CollectionLayout, x: u16, y: u16) -> bool {
    let r = layout.rect;
    let i = layout.inner_rect;
    let in_outer = x >= r.x && x < sat_add(r.x, r.width) && y >= r.y && y < sat_add(r.y, r.height);
    let on_border = x == r.x || x == sat_sub(sat_add(r.x, r.width), 1) || y == r.y || y == sat_sub(
        sat_add(r.y, r.height),
        1,
    );
    let outside_inner = x < i.x || x >= sat_add(i.x, i.width) || y < i.y || y >= sat_add(i.y, i.height);
    in_outer && if layout.maximized is Some {
        on_border
    } else {
        outside_inner
    }
}

/// The chrome region standing for the whole frame of `layout`.
pub open spec fn frame_region(layout: CollectionLayout) -> CollectionHitRegion {
    CollectionHitRegion {
        collection_id: layout.id,
        pane_id: None,
        kind: CollectionHitKind::Chrome,
        rect: layout.rect,
        terminal_row_offset: 0,
    }
}

/// The first of `layouts` whose outer frame holds `(x, y)`.
pub open spec fn first_frame(layouts: Seq<CollectionLayout>, x: u16, y: u16) -> Option<int> {
    if exists|k: int| 0 <= k < layouts.len() && on_outer_frame(layouts[k], x, y) {
        Some(
            choose|k: int|
                0 <= k < layouts.len() && on_outer_frame(layouts[k], x, y) && forall|j: int|
                    0 <= j < k ==> !on_outer_frame(layouts[j], x, y),
        )
    } else {
        None
    }
}

/// The first of `layouts` that drew a region under `(x, y)`.
pub open spec fn first_hit_layout(layouts: Seq<CollectionLayout>, x: u16, y: u16) -> Option<int> {
    if exists|k: int| 0 <= k < layouts.len() && topmost_hit(layouts[k].hits@, x, y) is Some {
        Some(
            choose|k: int|
                0 <= k < layouts.len() && topmost_hit(layouts[k].hits@, x, y) is Some && forall|j: int|
                    0 <= j < k ==> topmost_hit(layouts[j].hits@, x, y) is None,
        )
    } else {
        None
    }
}

/// What a mouse event at `(x, y)` hits: on a right button press the frame
/// of the first collection whose outer frame holds the cell, and otherwise
/// (or when no frame holds it) the topmost region of the first collection
/// that drew one there.
pub open spec fn mouse_hit(layouts: Seq<CollectionLayout>, right_press: bool, x: u16, y: u16) -> Option<CollectionHitRegion> {
    match (if right_press { first_frame(layouts, x, y) } else { None }) {
        Some(k) => Some(frame_region(layouts[k])),
        None => match first_hit_layout(layouts, x, y) {
            Some(k) => Some(layouts[k].hits@[topmost_hit(layouts[k].hits@, x, y)->0]),
            None => None,
        },
    }
}

impl CollectionLayout {
    /// Whether cell `(x, y)` lies in the outer frame of this collection.
    pub fn frame_holds(&self, x: u16, y: u16) -> (r: bool)
        ensures
            r == on_outer_frame(*self, x, y),
    {
        let r: Rect = self.rect;
        let i: Rect = self.inner_rect;
        let right = r.x.saturating_add(r.width);
        let bottom = r.y.saturating_add(r.height);
        let in_outer = x >= r.x && x < right && y >= r.y && y < bottom;
        if !in_outer {
            return false;
        }
        match self.maximized {
            Some(_) => x == r.x || x == right.saturating_sub(1) || y == r.y || y == bottom.saturating_sub(1),
            None => x < i.x || x >= i.x.saturating_add(i.width) || y < i.y || y >= i.y.saturating_add(i.height),
        }
    }
}

/// The region a mouse event at `(x, y)` lands on, `right_press` telling
/// whether it is a right button press.
pub fn collection_mouse_hit(layouts: &[CollectionLayout], right_press: bool, x: u16, y: u16) -> (r: Option<CollectionHitRegion>)
    ensures
        r == mouse_hit(layouts@, right_press, x, y),
{
    if right_press {
        let mut k: usize = 0;
        while k < layouts.len()
            invariant
                right_press,
                0 <= k <= layouts@.len(),
                forall|j: int| 0 <= j < k ==> !on_outer_frame(layouts@[j], x, y),
            decreases layouts@.len() - k,
        {
            if layouts[k].frame_holds(x, y) {
                proof {
                    assert(0 <= k < layouts@.len() && on_outer_frame(layouts@[k as int], x, y) && forall|j: int|
                        0 <= j < k ==> !on_outer_frame(layouts@[j], x, y));
                    let c = first_frame(layouts@, x, y)->0;
                    assert(0 <= c < layouts@.len() && on_outer_frame(layouts@[c], x, y) && forall|j: int|
                        0 <= j < c ==> !on_outer_frame(layouts@[j], x, y));
                    if c < k {
                    } else if c > k {
                        assert(!on_outer_frame(layouts@[k as int], x, y));
                    }
                }
                return Some(
                    CollectionHitRegion {
                        collection_id: layouts[k].id,
                        pane_id: None,
                        kind: CollectionHitKind::Chrome,
                        rect: layouts[k].rect,
                        terminal_row_offset: 0,
                    },
                );
            }
            k = k + 1;
        }
    }
    let mut k: usize = 0;
    while k < layouts.len()
        invariant
            0 <= k <= layouts@.len(),
            right_press ==> first_frame(layouts@, x, y) is None,
            forall|j: int| 0 <= j < k ==> topmost_hit(layouts@[j].hits@, x, y) is None,
        decreases layouts@.len() - k,
    {
        match layouts[k].hit_at(x, y) {
            Some(hit) => {
                proof {
                    assert(0 <= k < layouts@.len() && topmost_hit(layouts@[k as int].hits@, x, y) is Some && forall|j: int|
                        0 <= j < k ==> topmost_hit(layouts@[j].hits@, x, y) is None);
                    let c = first_hit_layout(layouts@, x, y)->0;
                    assert(0 <= c < layouts@.len() && topmost_hit(layouts@[c].hits@, x, y) is Some && forall|j: int|
                        0 <= j < c ==> topmost_hit(layouts@[j].hits@, x, y) is None);
                    if c < k {
                    } else if c > k {
                        assert(topmost_hit(layouts@[k as int].hits@, x, y) is None);
                    }
                }
                return Some(hit);
            },
            None => {},
        }
        k = k + 1;
    }
    None
}

/// What the mouse did, as far as a drag cares.
#[derive(Debug, Clone, Copy, PartialEq, Eq, Structural)]
pub enum DragMouse {
    /// The left button moved while held.
    LeftDrag,
    /// The left button was released.
    LeftUp,
    /// Anything else.
    Other,
}

/// What continuing a drag asks of the rest of the handler.
#[derive(Debug, Clone, Copy, PartialEq, Eq, Structural)]
pub enum DragOutcome {
    /// No drag took the event; it goes on to hit testing.
    NotDragging,
    /// A drag took the event.
    Handled,
    /// A row drag crossed a row: move the selected member by this many places.
    Reorder(i32),
}

/// The preview height a resize drag that started at `start_row` with
/// height `start_height` gives at `row`: at least the least preview height.
pub open spec fn dragged_height(start_height: u16, start_row: u16, row: u16) -> u16 {
    let h = start_height + row - start_row;
    if h < MIN_PREVIEW_HEIGHT {
        MIN_PREVIEW_HEIGHT
    } else if h > u16::MAX {
        u16::MAX
    } else {
        h as u16
    }
}

/// The preview heights after recording height `h` for `pane`.
pub open spec fn heights_with(s: Seq<(PaneId, u16)>, pane: PaneId, h: u16) -> Seq<(PaneId, u16)> {
    if exists|i: int| 0 <= i < s.len() && s[i].0 == pane {
        s.update(first_entry(s, pane), (pane, clamp_height(h)))
    } else {
        s.push((pane, clamp_height(h)))
    }
}

/// Continuing a drag of this collection's view with a mouse event at `row`:
/// a resize drag follows the pointer with the preview height and ends on
/// release; otherwise a row drag moves the member one place up or down when
/// the pointer crosses to another row, and ends on release. Anything else
/// is left to hit testing.
pub open spec fn drag_step(v: CollectionViewState, mouse: DragMouse, row: u16, w: CollectionViewState, r: DragOutcome) -> bool {
    let resize_takes = v.resize_drag is Some && mouse != DragMouse::Other;
    if resize_takes {
        let (pane, start_row, start_height) = v.resize_drag->0;
        &&& r == DragOutcome::Handled
        &&& w.row_drag == v.row_drag
        &&& if mouse == DragMouse::LeftDrag {
            w.resize_drag == v.resize_drag && w.preview_heights@ == heights_with(
                v.preview_heights@,
                pane,
                dragged_height(start_height, start_row, row),
            )
        } else {
            w.resize_drag is None && w.preview_heights == v.preview_heights
        }
    } else {
        &&& w.resize_drag == v.resize_drag
        &&& w.preview_heights == v.preview_heights
        &&& match v.row_drag {
            Some((pane, start_row)) => if mouse == DragMouse::LeftDrag && row != start_row {
                r == DragOutcome::Reorder(if row < start_row { -1i32 } else { 1i32 }) && w.row_drag == Some((pane, row))
            } else if mouse == DragMouse::LeftUp {
                r == DragOutcome::Handled && w.row_drag is None
            } else {
                r == DragOutcome::NotDragging && w.row_drag == v.row_drag
            },
            None => r == DragOutcome::NotDragging && w.row_drag == v.row_drag,
        }
    }
}

impl CollectionViewState {
    /// Continue a drag in progress with a mouse event at `row`.
    pub fn continue_drag(&mut self, mouse: DragMouse, row: u16) -> (r: DragOutcome)
        ensures
            drag_step(*old(self), mouse, row, *final(self), r),
            final(self).mode == old(self).mode,
            final(self).entered == old(self).entered,
            final(self).scroll == old(self).scroll,
            final(self).expanded == old(self).expanded,
            final(self).maximized == old(self).maximized,
    {
        match self.resize_drag {
            Some((pane, start_row, start_height)) => {
                match mouse {
                    DragMouse::LeftDrag => {
                        let h: i32 = start_height as i32 + row as i32 - start_row as i32;
                        let height: u16 = if h < MIN_PREVIEW_HEIGHT as i32 {
                            MIN_PREVIEW_HEIGHT
                        } else if h > u16::MAX as i32 {
                            u16::MAX
                        } else {
                            h as u16
                        };
                        self.set_preview_height(pane, height);
                        return DragOutcome::Handled;
                    },
                    DragMouse::LeftUp => {
                        self.resize_drag = None;
                        return DragOutcome::Handled;
                    },
                    DragMouse::Other => {},
                }
            },
            None => {},
        }
        match self.row_drag {
            Some((pane, start_row)) => {
                if mouse == DragMouse::LeftDrag && row != start_row {
                    self.row_drag = Some((pane, row));
                    DragOutcome::Reorder(if row < start_row { -1 } else { 1 })
                } else if mouse == DragMouse::LeftUp {
                    self.row_drag = None;
                    DragOutcome::Handled
                } else {
                    DragOutcome::NotDragging
                }
            },
            None => DragOutcome::NotDragging,
        }
    }
}

} // verus!
