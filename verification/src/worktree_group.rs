//! Which workspaces close together when a tab or pane closes the last of a
//! workspace that belongs to a worktree group.

use vstd::prelude::*;
use crate::delegation::Delegations;
use crate::member_reorder::pane_delegation;
use crate::text::str_eq;
use crate::tile_layout::{TileLayout, collection_leaf_ids};

verus! {

/// The worktree a workspace lives in: the group's key, and whether it is a
/// linked worktree rather than the primary checkout.
#[derive(Debug, Clone, PartialEq, Eq)]
pub struct WorktreeSpace {
    pub key: String,
    pub is_linked_worktree: bool,
}

/// The indices below `n` whose workspace lives in the worktree group `key`,
/// in increasing order.
pub open spec fn same_group_indices(spaces: Seq<Option<WorktreeSpace>>, key: Seq<char>, n: int) -> Seq<usize>
    decreases n,
{
    if n <= 0 {
        seq![]
    } else {
        let rest = same_group_indices(spaces, key, n - 1);
        match spaces[n - 1] {
            Some(space) => if space.key@ == key {
                rest.push((n - 1) as usize)
            } else {
                rest
            },
            None => rest,
        }
    }
}

/// The workspaces closing with workspace `index`: when it holds nested
/// lifecycle (collections or delegated panes) and lives in the primary
/// checkout of a worktree group of at least two workspaces, the whole group;
/// otherwise the workspace alone.
pub open spec fn group_close_spec(index: usize, nested_lifecycle: bool, spaces: Seq<Option<WorktreeSpace>>) -> Seq<usize> {
    match spaces[index as int] {
        Some(space) => if nested_lifecycle && !space.is_linked_worktree {
            let group = same_group_indices(spaces, space.key@, spaces.len() as int);
            if group.len() >= 2 {
                group
            } else {
                seq![index]
            }
        } else {
            seq![index]
        },
        None => seq![index],
    }
}

/// The indices of the workspaces closing with workspace `index`, given the
/// worktree space of every workspace.
pub fn group_close_indices(index: usize, nested_lifecycle: bool, spaces: &[Option<WorktreeSpace>]) -> (r: Vec<usize>)
    requires
        index < spaces@.len(),
    ensures
        r@ == group_close_spec(index, nested_lifecycle, spaces@),
{
    let space = match &spaces[index] {
        Some(space) => space,
        None => return vec![index],
    };
    if !nested_lifecycle || space.is_linked_worktree {
        return vec![index];
    }
    let mut group: Vec<usize> = Vec::new();
    let mut i: usize = 0;
    while i < spaces.len()
        invariant
            0 <= i <= spaces@.len(),
            spaces@[index as int] == Some(*space),
            group@ == same_group_indices(spaces@, space.key@, i as int),
        decreases spaces@.len() - i,
    {
        match &spaces[i] {
            Some(member) => {
                if str_eq(member.key.as_str(), space.key.as_str()) {
                    group.push(i);
                }
            },
            None => {},
        }
        i = i + 1;
    }
    if group.len() >= 2 {
        group
    } else {
        vec![index]
    }
}

/// Whether a tab laid out by `layout` holds nested lifecycle: a collection,
/// or a pane carrying a delegation.
pub open spec fn tab_has_nested_lifecycle(layout: TileLayout, m: crate::forest::Forest) -> bool {
    collection_leaf_ids(layout.leaf_list()).len() > 0 || exists|i: int|
        0 <= i < layout.placed().len() && #[trigger] pane_delegation(m, layout.placed()[i]) is Some
}

/// Whether any tab of a workspace, laid out by `tabs`, holds nested lifecycle.
pub fn has_nested_lifecycle(tabs: &[TileLayout], delegations: &Delegations) -> (r: bool)
    requires
        forall|t: int| 0 <= t < tabs@.len() ==> (#[trigger] tabs@[t]).wf(),
    ensures
        r == exists|t: int| 0 <= t < tabs@.len() && tab_has_nested_lifecycle(#[trigger] tabs@[t], delegations@),
{
    let mut t: usize = 0;
    while t < tabs.len()
        invariant
            forall|u: int| 0 <= u < tabs@.len() ==> (#[trigger] tabs@[u]).wf(),
            0 <= t <= tabs@.len(),
            forall|u: int| 0 <= u < t ==> !tab_has_nested_lifecycle(#[trigger] tabs@[u], delegations@),
        decreases tabs@.len() - t,
    {
        let layout = &tabs[t];
        if layout.collection_ids().len() > 0 {
            assert(tab_has_nested_lifecycle(tabs@[t as int], delegations@));
            return true;
        }
        let panes = layout.pane_ids();
        let mut i: usize = 0;
        while i < panes.len()
            invariant
                0 <= t < tabs@.len(),
                *layout == tabs@[t as int],
                panes@ == layout.placed(),
                0 <= i <= panes@.len(),
                forall|j: int| 0 <= j < i ==> #[trigger] pane_delegation(delegations@, panes@[j]) is None,
            decreases panes@.len() - i,
        {
            if crate::member_reorder::delegation_of(delegations, panes[i]).is_some() {
                assert(pane_delegation(delegations@, layout.placed()[i as int]) is Some);
                assert(tab_has_nested_lifecycle(tabs@[t as int], delegations@));
                return true;
            }
            i = i + 1;
        }
        t = t + 1;
    }
    false
}

} // verus!
