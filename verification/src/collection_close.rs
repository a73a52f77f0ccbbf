//! How closing a collection proceeds: closing the whole workspace, the
//! collection's tab or leaf, or closing or promoting its members.

use vstd::prelude::*;
use crate::ids::CollectionId;
use crate::schema::CollectionCloseDisposition;
use crate::ids::PaneId;
use crate::layout::PanePlacement;
use crate::text::concat;
use crate::tile_layout::{TileLayout, placement_of, tiled_panes};
use crate::tiles::{collection_index, has_collection};

verus! {

/// The way a collection close proceeds.
#[derive(Debug, Clone, Copy, PartialEq, Eq, Structural)]
pub enum CloseRoute {
    /// The collection is the last leaf of the workspace's only tab, and its
    /// members (if any) are to be closed: the whole workspace closes.
    CloseWorkspace,
    /// An empty collection that is its tab's only leaf: the tab closes.
    CloseEmptyTab,
    /// An empty collection beside other leaves: its leaf is removed.
    RemoveEmptyCollection,
    /// Every member closes with the collection.
    CascadeMembers,
    /// Every member is promoted out of the collection.
    PromoteMembers,
}

/// Why a collection close is refused.
#[derive(Debug, Clone, Copy, PartialEq, Eq, Structural)]
pub enum CloseRefusal {
    /// Closing the workspace would close a worktree group, which needs a
    /// confirmation first.
    ConfirmationRequired,
    /// A collection with members needs to be told what becomes of them.
    DispositionRequired,
}

/// The route of a close, from whether the collection has members, whether
/// its tab is the workspace's only one, whether the collection is its tab's
/// only leaf, the requested disposition, and whether closing the workspace
/// needs a worktree-group confirmation.
pub open spec fn close_route(
    has_members: bool,
    only_tab: bool,
    only_leaf: bool,
    disposition: Option<CollectionCloseDisposition>,
    group_confirmation: bool,
) -> Result<CloseRoute, CloseRefusal> {
    let cascade = !has_members || disposition == Some(CollectionCloseDisposition::CascadeClose);
    if only_tab && only_leaf && cascade {
        if group_confirmation {
            Err(CloseRefusal::ConfirmationRequired)
        } else {
            Ok(CloseRoute::CloseWorkspace)
        }
    } else if !has_members {
        if only_leaf {
            Ok(CloseRoute::CloseEmptyTab)
        } else {
            Ok(CloseRoute::RemoveEmptyCollection)
        }
    } else {
        match disposition {
            None => Err(CloseRefusal::DispositionRequired),
            Some(CollectionCloseDisposition::CascadeClose) => Ok(CloseRoute::CascadeMembers),
            Some(CollectionCloseDisposition::PromoteMembers) => Ok(CloseRoute::PromoteMembers),
        }
    }
}

/// Whether the collection `id` of the layout has members; a collection the
/// layout does not hold has none.
pub open spec fn collection_has_members(layout: TileLayout, id: CollectionId) -> bool {
    has_collection(layout.collection_list(), id) && layout.collection_list()[collection_index(
        layout.collection_list(),
        id,
    )].member_list().len() > 0
}

/// How closing collection `id` of the tab laid out by `layout` proceeds,
/// where the workspace has `tab_count` tabs.
pub fn collection_close_route(
    layout: &TileLayout,
    id: CollectionId,
    tab_count: usize,
    disposition: Option<CollectionCloseDisposition>,
    group_confirmation: bool,
) -> (r: Result<CloseRoute, CloseRefusal>)
    requires
        layout.wf(),
    ensures
        r == close_route(
            collection_has_members(*layout, id),
            tab_count == 1,
            layout.leaf_list().len() == 1,
            disposition,
            group_confirmation,
        ),
{
    let has_members = match layout.collection(id) {
        Some(collection) => collection.members().len() > 0,
        None => false,
    };
    let only_leaf = layout.leaf_count() == 1;
    let cascade = !has_members || match disposition {
        Some(CollectionCloseDisposition::CascadeClose) => true,
        _ => false,
    };
    if tab_count == 1 && only_leaf && cascade {
        if group_confirmation {
            Err(CloseRefusal::ConfirmationRequired)
        } else {
            Ok(CloseRoute::CloseWorkspace)
        }
    } else if !has_members {
        if only_leaf {
            Ok(CloseRoute::CloseEmptyTab)
        } else {
            Ok(CloseRoute::RemoveEmptyCollection)
        }
    } else {
        match disposition {
            None => Err(CloseRefusal::DispositionRequired),
            Some(CollectionCloseDisposition::CascadeClose) => Ok(CloseRoute::CascadeMembers),
            Some(CollectionCloseDisposition::PromoteMembers) => Ok(CloseRoute::PromoteMembers),
        }
    }
}

/// The error code a refused close is reported with.
pub open spec fn close_refusal_code(e: CloseRefusal) -> Seq<char> {
    match e {
        CloseRefusal::ConfirmationRequired => "confirmation_required"@,
        CloseRefusal::DispositionRequired => "collection_disposition_required"@,
    }
}

/// The message a refused close is reported with.
pub open spec fn close_refusal_message(e: CloseRefusal) -> Seq<char> {
    match e {
        CloseRefusal::ConfirmationRequired => "closing this collection would close a worktree group"@,
        CloseRefusal::DispositionRequired => "non-empty collection close requires cascade_close or promote_members"@,
    }
}

impl CloseRefusal {
    pub fn code(&self) -> (r: &'static str)
        ensures
            r@ == close_refusal_code(*self),
    {
        match self {
            CloseRefusal::ConfirmationRequired => "confirmation_required",
            CloseRefusal::DispositionRequired => "collection_disposition_required",
        }
    }

    pub fn message(&self) -> (r: &'static str)
        ensures
            r@ == close_refusal_message(*self),
    {
        match self {
            CloseRefusal::ConfirmationRequired => "closing this collection would close a worktree group",
            CloseRefusal::DispositionRequired => "non-empty collection close requires cascade_close or promote_members",
        }
    }
}

/// Why the pane named to receive promoted members is refused.
#[derive(Debug, Clone, PartialEq, Eq)]
pub enum PromoteTargetError {
    /// The text names no pane.
    NotFound { raw: String },
    /// The pane is not a tiled pane of the collection's tab.
    NotTiled,
}

/// The pane that promoted members go next to: the named pane, which must be
/// tiled in the collection's tab, or else the first tiled pane, if any.
/// `requested` is the text naming the pane with the pane it resolves to.
pub open spec fn promotion_target_of(
    layout: TileLayout,
    requested: Option<(String, Option<PaneId>)>,
    r: Result<Option<PaneId>, PromoteTargetError>,
) -> bool {
    match requested {
        Some((raw, None)) => r matches Err(PromoteTargetError::NotFound { raw: text }) && text@ == raw@,
        Some((_, Some(p))) => if placement_of(layout.leaf_list(), layout.collection_list(), p) == Some(
            PanePlacement::Tiled,
        ) {
            r == Ok::<Option<PaneId>, PromoteTargetError>(Some(p))
        } else {
            r == Err::<Option<PaneId>, PromoteTargetError>(PromoteTargetError::NotTiled)
        },
        None => r == Ok::<Option<PaneId>, PromoteTargetError>(
            if tiled_panes(layout.leaf_list()).len() > 0 {
                Some(tiled_panes(layout.leaf_list())[0])
            } else {
                None
            },
        ),
    }
}

/// The pane that promoted members of a collection in the tab laid out by
/// `layout` go next to.
pub fn promotion_target(layout: &TileLayout, requested: Option<(String, Option<PaneId>)>) -> (r: Result<
    Option<PaneId>,
    PromoteTargetError,
>)
    ensures
        promotion_target_of(*layout, requested, r),
{
    match requested {
        Some((raw, None)) => Err(PromoteTargetError::NotFound { raw }),
        Some((_, Some(p))) => match layout.placement(p) {
            Some(PanePlacement::Tiled) => Ok(Some(p)),
            _ => Err(PromoteTargetError::NotTiled),
        },
        None => {
            let tiled = layout.tiled_pane_ids();
            if tiled.len() > 0 {
                Ok(Some(tiled[0]))
            } else {
                Ok(None)
            }
        },
    }
}

pub open spec fn promote_target_code(e: PromoteTargetError) -> Seq<char> {
    match e {
        PromoteTargetError::NotFound { .. } => "target_pane_not_found"@,
        PromoteTargetError::NotTiled => "collection_promote_failed"@,
    }
}

pub open spec fn promote_target_message(e: PromoteTargetError) -> Seq<char> {
    match e {
        PromoteTargetError::NotFound { raw } => "target pane "@ + raw@ + " not found"@,
        PromoteTargetError::NotTiled => "promotion target must be a tiled pane in the collection tab"@,
    }
}

impl PromoteTargetError {
    pub fn code(&self) -> (r: &'static str)
        ensures
            r@ == promote_target_code(*self),
    {
        match self {
            PromoteTargetError::NotFound { .. } => "target_pane_not_found",
            PromoteTargetError::NotTiled => "collection_promote_failed",
        }
    }

    pub fn message(&self) -> (r: String)
        ensures
            r@ == promote_target_message(*self),
    {
        match self {
            PromoteTargetError::NotFound { raw } => {
                let head = concat("target pane ", raw.as_str());
                concat(head.as_str(), " not found")
            },
            PromoteTargetError::NotTiled => String::from_str("promotion target must be a tiled pane in the collection tab"),
        }
    }
}

} // verus!
