//! The lifecycle events that closing a workspace announces, in order: each
//! closed collection's removed members and its closing, every closed pane,
//! then (after the delegation events of the destroyed panes) every closed
//! tab and the workspace itself.

use vstd::prelude::*;
use crate::ids::{CollectionId, PaneId, lemma_pane_id_value_injective};

verus! {

broadcast use lemma_pane_id_value_injective;

/// One event announced while a workspace closes.
#[derive(Debug, Clone, PartialEq, Eq)]
pub enum ClosingEvent {
    CollectionMemberRemoved { collection_id: CollectionId, pane_id: String },
    CollectionClosed { collection_id: CollectionId, workspace_id: String, tab_id: String },
    PaneClosed { pane_id: String, workspace_id: String },
    TabClosed { tab_id: String, workspace_id: String },
    WorkspaceClosed { workspace_id: String },
}

/// A tab of the closing workspace: its public identity, its panes with
/// their public identities, and its collections with their members.
#[derive(Debug, Clone, PartialEq, Eq)]
pub struct ClosingTab {
    pub tab_id: String,
    pub panes: Vec<(PaneId, String)>,
    pub collections: Vec<(CollectionId, Vec<PaneId>)>,
}

/// Every pane of `tabs` with its public identity, tab by tab.
pub open spec fn all_panes(tabs: Seq<ClosingTab>) -> Seq<(PaneId, String)>
    decreases tabs.len(),
{
    if tabs.len() == 0 {
        seq![]
    } else {
        all_panes(tabs.drop_last()) + tabs.last().panes@
    }
}

/// The public identity of `pane`: that of its first listing.
pub open spec fn public_of(panes: Seq<(PaneId, String)>, pane: PaneId) -> Option<String>
    decreases panes.len(),
{
    if panes.len() == 0 {
        None
    } else if panes[0].0 == pane {
        Some(panes[0].1)
    } else {
        public_of(panes.drop_first(), pane)
    }
}

/// The removals of the members of `collection` that have a public identity.
pub open spec fn member_events(collection: CollectionId, members: Seq<PaneId>, panes: Seq<(PaneId, String)>) -> Seq<ClosingEvent>
    decreases members.len(),
{
    if members.len() == 0 {
        seq![]
    } else {
        let rest = member_events(collection, members.drop_last(), panes);
        match public_of(panes, members.last()) {
            Some(public) => rest.push(ClosingEvent::CollectionMemberRemoved { collection_id: collection, pane_id: public }),
            None => rest,
        }
    }
}

/// For each collection of one tab, its member removals and its closing.
pub open spec fn collection_events(
    workspace_id: String,
    tab_id: String,
    collections: Seq<(CollectionId, Vec<PaneId>)>,
    panes: Seq<(PaneId, String)>,
) -> Seq<ClosingEvent>
    decreases collections.len(),
{
    if collections.len() == 0 {
        seq![]
    } else {
        let (id, members) = collections.last();
        collection_events(workspace_id, tab_id, collections.drop_last(), panes) + member_events(id, members@, panes).push(
            ClosingEvent::CollectionClosed { collection_id: id, workspace_id, tab_id },
        )
    }
}

/// The collection events of every tab, tab by tab.
pub open spec fn tabs_collection_events(workspace_id: String, tabs: Seq<ClosingTab>, panes: Seq<(PaneId, String)>) -> Seq<ClosingEvent>
    decreases tabs.len(),
{
    if tabs.len() == 0 {
        seq![]
    } else {
        tabs_collection_events(workspace_id, tabs.drop_last(), panes) + collection_events(
            workspace_id,
            tabs.last().tab_id,
            tabs.last().collections@,
            panes,
        )
    }
}

/// The closing of every pane.
pub open spec fn pane_events(workspace_id: String, panes: Seq<(PaneId, String)>) -> Seq<ClosingEvent> {
    panes.map_values(|p: (PaneId, String)| ClosingEvent::PaneClosed { pane_id: p.1, workspace_id })
}

/// The closing of every tab, then of the workspace.
pub open spec fn tab_events(workspace_id: String, tabs: Seq<ClosingTab>) -> Seq<ClosingEvent> {
    tabs.map_values(|t: ClosingTab| ClosingEvent::TabClosed { tab_id: t.tab_id, workspace_id }).push(
        ClosingEvent::WorkspaceClosed { workspace_id },
    )
}

fn find_public(panes: &Vec<(PaneId, String)>, pane: PaneId) -> (r: Option<String>)
    ensures
        r == public_of(panes@, pane),
{
    let mut i: usize = 0;
    assert(panes@.skip(0) =~= panes@);
    while i < panes.len()
        invariant
            0 <= i <= panes@.len(),
            public_of(panes@, pane) == public_of(panes@.skip(i as int), pane),
        decreases panes@.len() - i,
    {
        proof {
            assert(panes@.skip(i as int).drop_first() =~= panes@.skip(i + 1));
        }
        if panes[i].0 == pane {
            return Some(panes[i].1.clone());
        }
        i = i + 1;
    }
    None
}

/// The events announced before and after the delegation events of the
/// destroyed panes when workspace `workspace_id` with `tabs` closes.
pub fn workspace_close_events(workspace_id: &String, tabs: &Vec<ClosingTab>) -> (r: (Vec<ClosingEvent>, Vec<ClosingEvent>))
    ensures
        r.0@ == tabs_collection_events(*workspace_id, tabs@, all_panes(tabs@)) + pane_events(
            *workspace_id,
            all_panes(tabs@),
        ),
        r.1@ == tab_events(*workspace_id, tabs@),
{
    let mut panes: Vec<(PaneId, String)> = Vec::new();
    let mut t: usize = 0;
    while t < tabs.len()
        invariant
            0 <= t <= tabs@.len(),
            panes@ == all_panes(tabs@.take(t as int)),
        decreases tabs@.len() - t,
    {
        let tab = &tabs[t];
        let mut k: usize = 0;
        let ghost before = panes@;
        while k < tab.panes.len()
            invariant
                0 <= k <= tab.panes@.len(),
                panes@ == before + tab.panes@.take(k as int),
            decreases tab.panes@.len() - k,
        {
            let entry = (tab.panes[k].0, tab.panes[k].1.clone());
            panes.push(entry);
            proof {
                assert(tab.panes@.take(k + 1) =~= tab.panes@.take(k as int).push(tab.panes@[k as int]));
                assert(panes@ =~= before + tab.panes@.take(k + 1));
            }
            k = k + 1;
        }
        proof {
            assert(tab.panes@.take(tab.panes@.len() as int) =~= tab.panes@);
            assert(tabs@.take(t + 1).drop_last() =~= tabs@.take(t as int));
        }
        t = t + 1;
    }
    assert(tabs@.take(tabs@.len() as int) =~= tabs@);
    let ghost all = panes@;
    let mut before: Vec<ClosingEvent> = Vec::new();
    let mut t: usize = 0;
    while t < tabs.len()
        invariant
            0 <= t <= tabs@.len(),
            panes@ == all,
            before@ == tabs_collection_events(*workspace_id, tabs@.take(t as int), all),
        decreases tabs@.len() - t,
    {
        let tab = &tabs[t];
        let ghost start = before@;
        let mut c: usize = 0;
        while c < tab.collections.len()
            invariant
                0 <= c <= tab.collections@.len(),
                panes@ == all,
                before@ == start + collection_events(*workspace_id, tab.tab_id, tab.collections@.take(c as int), all),
            decreases tab.collections@.len() - c,
        {
            let id = tab.collections[c].0;
            let members = &tab.collections[c].1;
            let ghost mid = before@;
            let mut j: usize = 0;
            while j < members.len()
                invariant
                    0 <= j <= members@.len(),
                    panes@ == all,
                    before@ == mid + member_events(id, members@.take(j as int), all),
                decreases members@.len() - j,
            {
                proof {
                    assert(members@.take(j + 1).drop_last() =~= members@.take(j as int));
                }
                match find_public(&panes, members[j]) {
                    Some(public) => {
                        before.push(ClosingEvent::CollectionMemberRemoved { collection_id: id, pane_id: public });
                    },
                    None => {},
                }
                proof {
                    assert(before@ =~= mid + member_events(id, members@.take(j + 1), all));
                }
                j = j + 1;
            }
            before.push(
                ClosingEvent::CollectionClosed {
                    collection_id: id,
                    workspace_id: workspace_id.clone(),
                    tab_id: tab.tab_id.clone(),
                },
            );
            proof {
                assert(members@.take(members@.len() as int) =~= members@);
                assert(tab.collections@.take(c + 1).drop_last() =~= tab.collections@.take(c as int));
                assert(before@ =~= start + collection_events(*workspace_id, tab.tab_id, tab.collections@.take(c + 1), all));
            }
            c = c + 1;
        }
        proof {
            assert(tab.collections@.take(tab.collections@.len() as int) =~= tab.collections@);
            assert(tabs@.take(t + 1).drop_last() =~= tabs@.take(t as int));
            assert(before@ =~= tabs_collection_events(*workspace_id, tabs@.take(t + 1), all));
        }
        t = t + 1;
    }
    let ghost collected = before@;
    let mut i: usize = 0;
    while i < panes.len()
        invariant
            0 <= i <= all.len(),
            panes@ == all,
            before@ == collected + pane_events(*workspace_id, all.take(i as int)),
        decreases all.len() - i,
    {
        before.push(ClosingEvent::PaneClosed { pane_id: panes[i].1.clone(), workspace_id: workspace_id.clone() });
        proof {
            assert(pane_events(*workspace_id, all.take(i + 1)) =~= pane_events(*workspace_id, all.take(i as int)).push(
                ClosingEvent::PaneClosed { pane_id: all[i as int].1, workspace_id: *workspace_id },
            ));
            assert(before@ =~= collected + pane_events(*workspace_id, all.take(i + 1)));
        }
        i = i + 1;
    }
    assert(all.take(all.len() as int) =~= all);
    let mut after: Vec<ClosingEvent> = Vec::new();
    let mut t: usize = 0;
    while t < tabs.len()
        invariant
            0 <= t <= tabs@.len(),
            after@ == tabs@.take(t as int).map_values(|tab: ClosingTab| ClosingEvent::TabClosed {
                tab_id: tab.tab_id,
                workspace_id: *workspace_id,
            }),
        decreases tabs@.len() - t,
    {
        after.push(ClosingEvent::TabClosed { tab_id: tabs[t].tab_id.clone(), workspace_id: workspace_id.clone() });
        proof {
            assert(after@ =~= tabs@.take(t + 1).map_values(|tab: ClosingTab| ClosingEvent::TabClosed {
                tab_id: tab.tab_id,
                workspace_id: *workspace_id,
            }));
        }
        t = t + 1;
    }
    assert(tabs@.take(tabs@.len() as int) =~= tabs@);
    after.push(ClosingEvent::WorkspaceClosed { workspace_id: workspace_id.clone() });
    (before, after)
}

} // verus!
