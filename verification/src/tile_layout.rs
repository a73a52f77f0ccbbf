//! The tiling layout of a tab: a tree of pane and collection leaves, the
//! focused leaf, the collections the collection leaves stand for, and a
//! pane-only form of the tree kept for older callers.

use vstd::prelude::*;
use crate::ids::{CollectionId, PaneId, PaneIdAllocator, lemma_pane_id_value_injective};
use crate::layout::{LayoutLeaf, PaneCollection, PanePlacement, contains_pane, distinct_panes};
use crate::tiles::{
    Node, SplitAxis, TypedNode, distinct_collections, find_collection, has_collection, collection_index,
    leaves, leaves_of, legacy_projection, legacy_spec, selected_in,
};

verus! {

broadcast use lemma_pane_id_value_injective;

/// The panes among `s`, in order.
pub open spec fn tiled_panes(s: Seq<LayoutLeaf>) -> Seq<PaneId>
    decreases s.len(),
{
    if s.len() == 0 {
        seq![]
    } else {
        let rest = tiled_panes(s.drop_last());
        match s.last() {
            LayoutLeaf::Pane(p) => rest.push(p),
            LayoutLeaf::Collection(_) => rest,
        }
    }
}

/// The collections among `s`, in order.
pub open spec fn collection_leaf_ids(s: Seq<LayoutLeaf>) -> Seq<CollectionId>
    decreases s.len(),
{
    if s.len() == 0 {
        seq![]
    } else {
        let rest = collection_leaf_ids(s.drop_last());
        match s.last() {
            LayoutLeaf::Pane(_) => rest,
            LayoutLeaf::Collection(id) => rest.push(id),
        }
    }
}

/// The members of the collection `id`; none when there is no such collection.
pub open spec fn members_of(cs: Seq<PaneCollection>, id: CollectionId) -> Seq<PaneId> {
    if has_collection(cs, id) {
        cs[collection_index(cs, id)].member_list()
    } else {
        seq![]
    }
}

/// Every placed pane: each pane leaf, and for each collection leaf the
/// members of its collection, in leaf order.
pub open spec fn placed_panes(s: Seq<LayoutLeaf>, cs: Seq<PaneCollection>) -> Seq<PaneId>
    decreases s.len(),
{
    if s.len() == 0 {
        seq![]
    } else {
        placed_panes(s.drop_last(), cs) + match s.last() {
            LayoutLeaf::Pane(p) => seq![p],
            LayoutLeaf::Collection(id) => members_of(cs, id),
        }
    }
}

/// The first collection of `cs` that has `pane` as a member.
pub open spec fn holder(cs: Seq<PaneCollection>, pane: PaneId) -> Option<CollectionId>
    decreases cs.len(),
{
    if cs.len() == 0 {
        None
    } else if cs[0].member_list().contains(pane) {
        Some(cs[0].identity())
    } else {
        holder(cs.drop_first(), pane)
    }
}

/// Where `pane` is placed: as a leaf, or in a collection.
pub open spec fn placement_of(s: Seq<LayoutLeaf>, cs: Seq<PaneCollection>, pane: PaneId) -> Option<PanePlacement> {
    if tiled_panes(s).contains(pane) {
        Some(PanePlacement::Tiled)
    } else {
        match holder(cs, pane) {
            Some(id) => Some(PanePlacement::Collection(id)),
            None => None,
        }
    }
}

/// The pane-only tree after `root` changed: its projection when there is one.
pub open spec fn refreshed(root: TypedNode, cs: Seq<PaneCollection>, previous: Node) -> Node {
    match legacy_spec(root, cs) {
        Some(n) => n,
        None => previous,
    }
}

/// The tiling layout of a tab.
pub struct TileLayout {
    root: TypedNode,
    focus: LayoutLeaf,
    legacy_focus: PaneId,
    legacy_root: Node,
    collections: Vec<PaneCollection>,
}

impl TileLayout {
    /// The tree.
    pub closed spec fn tree(&self) -> TypedNode {
        self.root
    }

    /// The focused leaf.
    pub closed spec fn current_focus(&self) -> LayoutLeaf {
        self.focus
    }

    /// The pane that pane-only callers see as focused.
    pub closed spec fn compat_focus(&self) -> PaneId {
        self.legacy_focus
    }

    /// The pane-only form of the tree.
    pub closed spec fn compat_tree(&self) -> Node {
        self.legacy_root
    }

    /// The collections of the collection leaves.
    pub closed spec fn collection_list(&self) -> Seq<PaneCollection> {
        self.collections@
    }

    /// The layout invariant: collection identities are distinct and every
    /// collection is well formed.
    pub closed spec fn wf(&self) -> bool {
        &&& distinct_collections(self.collections@)
        &&& forall|i: int| 0 <= i < self.collections@.len() ==> (#[trigger] self.collections@[i]).wf()
    }

    pub open spec fn leaf_list(&self) -> Seq<LayoutLeaf> {
        leaves_of(self.tree())
    }

    pub open spec fn placed(&self) -> Seq<PaneId> {
        placed_panes(self.leaf_list(), self.collection_list())
    }

    /// The pane focused for pane-only callers: the focused pane leaf, else
    /// the selected member of the focused collection, else the first placed
    /// pane, else the remembered compatibility focus.
    pub open spec fn focused_pane(&self) -> PaneId {
        match self.current_focus() {
            LayoutLeaf::Pane(p) => p,
            LayoutLeaf::Collection(id) => match selected_in(self.collection_list(), id) {
                Some(p) => p,
                None => if self.placed().len() > 0 {
                    self.placed()[0]
                } else {
                    self.compat_focus()
                },
            },
        }
    }

    /// A layout of one pane, taken from `ids`.
    pub fn new(ids: &mut PaneIdAllocator) -> (r: (Self, PaneId))
        ensures
            r.0.wf(),
            r.1.value() == old(ids).next,
            final(ids).next == if old(ids).next == u32::MAX { 0 } else { (old(ids).next + 1) as u32 },
            r.0.tree() == TypedNode::Leaf(LayoutLeaf::Pane(r.1)),
            r.0.current_focus() == LayoutLeaf::Pane(r.1),
            r.0.compat_focus() == r.1,
            r.0.compat_tree() == Node::Pane(r.1),
            r.0.collection_list() == Seq::<PaneCollection>::empty(),
    {
        let root_id = PaneId::allocate(ids);
        let layout = TileLayout {
            root: TypedNode::Leaf(LayoutLeaf::Pane(root_id)),
            focus: LayoutLeaf::Pane(root_id),
            legacy_focus: root_id,
            legacy_root: Node::Pane(root_id),
            collections: Vec::new(),
        };
        assert(layout.collections@ =~= Seq::<PaneCollection>::empty());
        (layout, root_id)
    }

    /// The focused leaf.
    pub fn focused_leaf(&self) -> (r: LayoutLeaf)
        ensures
            r == self.current_focus(),
    {
        self.focus
    }

    /// The leaves, left to right.
    pub fn leaves(&self) -> (r: Vec<LayoutLeaf>)
        ensures
            r@ == self.leaf_list(),
    {
        leaves(&self.root)
    }

    /// The number of leaves.
    pub fn leaf_count(&self) -> (r: usize)
        ensures
            r == self.leaf_list().len(),
    {
        self.leaves().len()
    }

    /// Whether the whole layout is one pane leaf.
    pub fn is_single_pane_leaf(&self) -> (r: bool)
        ensures
            r == (self.tree() matches TypedNode::Leaf(LayoutLeaf::Pane(_))),
    {
        match &self.root {
            TypedNode::Leaf(LayoutLeaf::Pane(_)) => true,
            _ => false,
        }
    }

    /// The tree.
    pub fn typed_root(&self) -> (r: &TypedNode)
        ensures
            *r == self.tree(),
    {
        &self.root
    }

    /// The pane-only form of the tree.
    pub fn root(&self) -> (r: &Node)
        ensures
            *r == self.compat_tree(),
    {
        &self.legacy_root
    }

    /// The collections of the collection leaves.
    pub fn collections(&self) -> (r: &[PaneCollection])
        ensures
            r@ == self.collection_list(),
    {
        self.collections.as_slice()
    }

    /// The collection `id`.
    pub fn collection(&self, id: CollectionId) -> (r: Option<&PaneCollection>)
        requires
            self.wf(),
        ensures
            match r {
                Some(c) => has_collection(self.collection_list(), id) && *c == self.collection_list()[collection_index(
                    self.collection_list(),
                    id,
                )],
                None => !has_collection(self.collection_list(), id),
            },
    {
        match find_collection(&self.collections, id) {
            Some(i) => Some(&self.collections[i]),
            None => None,
        }
    }

    /// The panes that are leaves, in order.
    pub fn tiled_pane_ids(&self) -> (r: Vec<PaneId>)
        ensures
            r@ == tiled_panes(self.leaf_list()),
    {
        let all = self.leaves();
        let mut out: Vec<PaneId> = Vec::new();
        let mut i: usize = 0;
        while i < all.len()
            invariant
                0 <= i <= all@.len(),
                out@ == tiled_panes(all@.take(i as int)),
            decreases all@.len() - i,
        {
            assert(all@.take(i + 1).drop_last() =~= all@.take(i as int));
            assert(all@.take(i + 1).last() == all@[i as int]);
            match all[i] {
                LayoutLeaf::Pane(p) => out.push(p),
                LayoutLeaf::Collection(_) => {},
            }
            i = i + 1;
        }
        assert(all@.take(all@.len() as int) =~= all@);
        out
    }

    /// The number of pane leaves.
    pub fn tiled_pane_count(&self) -> (r: usize)
        ensures
            r == tiled_panes(self.leaf_list()).len(),
    {
        self.tiled_pane_ids().len()
    }

    /// The collections that are leaves, in order.
    pub fn collection_ids(&self) -> (r: Vec<CollectionId>)
        ensures
            r@ == collection_leaf_ids(self.leaf_list()),
    {
        let all = self.leaves();
        let mut out: Vec<CollectionId> = Vec::new();
        let mut i: usize = 0;
        while i < all.len()
            invariant
                0 <= i <= all@.len(),
                out@ == collection_leaf_ids(all@.take(i as int)),
            decreases all@.len() - i,
        {
            assert(all@.take(i + 1).drop_last() =~= all@.take(i as int));
            assert(all@.take(i + 1).last() == all@[i as int]);
            match all[i] {
                LayoutLeaf::Pane(_) => {},
                LayoutLeaf::Collection(id) => out.push(id),
            }
            i = i + 1;
        }
        assert(all@.take(all@.len() as int) =~= all@);
        out
    }

    /// Every placed pane in leaf order, collection members in member order.
    pub fn placed_pane_ids(&self) -> (r: Vec<PaneId>)
        requires
            self.wf(),
        ensures
            r@ == self.placed(),
    {
        let all = self.leaves();
        let ghost cs = self.collections@;
        let mut out: Vec<PaneId> = Vec::new();
        let mut i: usize = 0;
        while i < all.len()
            invariant
                self.wf(),
                cs == self.collections@,
                0 <= i <= all@.len(),
                out@ == placed_panes(all@.take(i as int), cs),
            decreases all@.len() - i,
        {
            assert(all@.take(i + 1).drop_last() =~= all@.take(i as int));
            assert(all@.take(i + 1).last() == all@[i as int]);
            let ghost before = out@;
            match all[i] {
                LayoutLeaf::Pane(p) => {
                    out.push(p);
                },
                LayoutLeaf::Collection(id) => {
                    match find_collection(&self.collections, id) {
                        Some(k) => {
                            let members = self.collections[k].members();
                            let mut j: usize = 0;
                            while j < members.len()
                                invariant
                                    0 <= j <= members@.len(),
                                    out@ == before + members@.take(j as int),
                                decreases members@.len() - j,
                            {
                                out.push(members[j]);
                                assert(members@.take(j + 1) =~= members@.take(j as int).push(members@[j as int]));
                                j = j + 1;
                            }
                            assert(members@.take(members@.len() as int) =~= members@);
                        },
                        None => {
                            assert(out@ =~= before + Seq::<PaneId>::empty());
                        },
                    }
                },
            }
            i = i + 1;
        }
        assert(all@.take(all@.len() as int) =~= all@);
        out
    }

    /// Every placed pane.
    pub fn pane_ids(&self) -> (r: Vec<PaneId>)
        requires
            self.wf(),
        ensures
            r@ == self.placed(),
    {
        self.placed_pane_ids()
    }

    /// The number of placed panes.
    pub fn pane_count(&self) -> (r: usize)
        requires
            self.wf(),
        ensures
            r == self.placed().len(),
    {
        self.pane_ids().len()
    }

    /// Where `pane` is placed.
    pub fn placement(&self, pane: PaneId) -> (r: Option<PanePlacement>)
        ensures
            r == placement_of(self.leaf_list(), self.collection_list(), pane),
    {
        let tiled = self.tiled_pane_ids();
        if contains_pane(&tiled, pane) {
            return Some(PanePlacement::Tiled);
        }
        let ghost cs = self.collections@;
        let mut i: usize = 0;
        assert(cs.subrange(0, cs.len() as int) =~= cs);
        while i < self.collections.len()
            invariant
                cs == self.collections@,
                !tiled_panes(self.leaf_list()).contains(pane),
                0 <= i <= cs.len(),
                holder(cs, pane) == holder(cs.subrange(i as int, cs.len() as int), pane),
            decreases cs.len() - i,
        {
            let ghost rest = cs.subrange(i as int, cs.len() as int);
            assert(rest[0] == cs[i as int]);
            assert(rest.drop_first() =~= cs.subrange(i + 1, cs.len() as int));
            let members = self.collections[i].members();
            let v = slice_to_members(members);
            if contains_pane(&v, pane) {
                assert(rest[0].member_list().contains(pane));
                assert(holder(rest, pane) == Some(rest[0].identity()));
                return Some(PanePlacement::Collection(self.collections[i].collection_id()));
            }
            i = i + 1;
        }
        assert(cs.subrange(cs.len() as int, cs.len() as int) =~= Seq::<PaneCollection>::empty());
        None
    }

    /// The focused pane for pane-only callers.
    pub fn focused(&self) -> (r: PaneId)
        requires
            self.wf(),
        ensures
            r == self.focused_pane(),
    {
        match self.focus {
            LayoutLeaf::Pane(p) => p,
            LayoutLeaf::Collection(id) => {
                let selected = match find_collection(&self.collections, id) {
                    Some(k) => self.collections[k].selected(),
                    None => None,
                };
                match selected {
                    Some(p) => p,
                    None => {
                        let placed = self.pane_ids();
                        if placed.len() > 0 {
                            placed[0]
                        } else {
                            self.legacy_focus
                        }
                    },
                }
            },
        }
    }
}

/// The bit pattern of the `f32` ratio 0.5: an even split.
pub const EVEN_SPLIT_RATIO: u32 = 0x3f00_0000;

/// The first position of `x` in `s`.
pub open spec fn first_pos(s: Seq<LayoutLeaf>, x: LayoutLeaf) -> int {
    choose|i: int| 0 <= i < s.len() && s[i] == x && forall|j: int| 0 <= j < i ==> s[j] != x
}

/// The leaf that takes over the focus from the leaf at `pos`: the next one,
/// else the previous one.
pub open spec fn replacement_at(s: Seq<LayoutLeaf>, pos: int) -> Option<LayoutLeaf> {
    if pos + 1 < s.len() {
        Some(s[pos + 1])
    } else if pos >= 1 {
        Some(s[pos - 1])
    } else {
        None
    }
}

/// The tree left behind when a removal leaves nothing: one pane leaf numbered 0.
pub open spec fn is_placeholder(n: TypedNode) -> bool {
    n matches TypedNode::Leaf(LayoutLeaf::Pane(p)) && p.value() == 0
}

/// The tree, focus, compatibility focus and pane-only tree after the leaf
/// `target` is removed from `before` as `remove_leaf` does.
pub open spec fn removal_fields(
    before: TileLayout,
    target: LayoutLeaf,
    tree: TypedNode,
    focus: LayoutLeaf,
    compat_focus: PaneId,
    compat_tree: Node,
) -> bool {
    let s = before.leaf_list();
    let cs = before.collection_list();
    let pos = first_pos(s, target);
    let replacement = replacement_at(s, pos);
    match crate::tiles::remove_spec(before.tree(), target) {
        None => {
            &&& is_placeholder(tree)
            &&& focus == before.current_focus()
            &&& compat_focus == before.compat_focus()
            &&& compat_tree == before.compat_tree()
        },
        Some(t) => {
            let focus_moves = before.current_focus() == target && replacement is Some;
            let new_focus = if focus_moves { replacement->0 } else { before.current_focus() };
            let compat1 = if focus_moves && replacement->0 is Pane {
                replacement->0->Pane_0
            } else {
                before.compat_focus()
            };
            let placed = placed_panes(leaves_of(t), cs);
            let compat2 = if target == LayoutLeaf::Pane(compat1) && placed.len() > 0 {
                placed[0]
            } else {
                compat1
            };
            &&& tree == t
            &&& focus == new_focus
            &&& compat_focus == compat2
            &&& compat_tree == refreshed(t, cs, before.compat_tree())
        },
    }
}

/// `after` is `before` with the leaf `target` removed as `remove_leaf` does.
pub open spec fn leaf_removed(before: TileLayout, after: TileLayout, target: LayoutLeaf) -> bool {
    &&& removal_fields(before, target, after.tree(), after.current_focus(), after.compat_focus(), after.compat_tree())
    &&& after.collection_list() == before.collection_list()
}

/// Whether a removal of `target` gets past its first checks: more than one
/// leaf, `target` among them.
pub open spec fn removable(layout: TileLayout, target: LayoutLeaf) -> bool {
    layout.leaf_list().len() > 1 && layout.leaf_list().contains(target)
}

/// `after` is `before` with its collections replaced by `cs` and its
/// pane-only tree refreshed.
pub open spec fn collections_changed(before: TileLayout, after: TileLayout, cs: Seq<PaneCollection>) -> bool {
    &&& after.tree() == before.tree()
    &&& after.current_focus() == before.current_focus()
    &&& after.compat_focus() == before.compat_focus()
    &&& after.collection_list() == cs
    &&& after.compat_tree() == refreshed(before.tree(), cs, before.compat_tree())
}

/// `cs2` is `cs` with only collection `k` changed.
pub open spec fn only_changed(cs: Seq<PaneCollection>, cs2: Seq<PaneCollection>, k: int) -> bool {
    &&& cs2.len() == cs.len()
    &&& forall|j: int| 0 <= j < cs.len() && j != k ==> #[trigger] cs2[j] == cs[j]
    &&& cs2[k].identity() == cs[k].identity()
    &&& cs2[k].label_text() == cs[k].label_text()
}

impl TileLayout {
    proof fn lemma_update_keeps_wf(&self, k: int, c: PaneCollection)
        requires
            self.wf(),
            0 <= k < self.collections@.len(),
            c.wf(),
            c.identity() == self.collections@[k].identity(),
        ensures
            distinct_collections(self.collections@.update(k, c)),
            forall|i: int| 0 <= i < self.collections@.len() ==> (#[trigger] self.collections@.update(k, c)[i]).wf(),
    {
        let cs2 = self.collections@.update(k, c);
        assert forall|i: int, j: int| 0 <= i < cs2.len() && 0 <= j < cs2.len() && i != j implies #[trigger] cs2[i].identity()
            != #[trigger] cs2[j].identity() by {
            assert(cs2[i].identity() == self.collections@[i].identity());
            assert(cs2[j].identity() == self.collections@[j].identity());
        }
    }

    /// Take the tree out, leaving the placeholder leaf.
    fn take_root(&mut self) -> (r: TypedNode)
        ensures
            r == old(self).root,
            is_placeholder(final(self).root),
            final(self).focus == old(self).focus,
            final(self).legacy_focus == old(self).legacy_focus,
            final(self).legacy_root == old(self).legacy_root,
            final(self).collections == old(self).collections,
    {
        let mut old_root = TypedNode::Leaf(LayoutLeaf::Pane(PaneId::from_raw(0)));
        std::mem::swap(&mut old_root, &mut self.root);
        old_root
    }

    fn refresh_legacy_root(&mut self)
        requires
            old(self).wf(),
        ensures
            final(self).root == old(self).root,
            final(self).focus == old(self).focus,
            final(self).legacy_focus == old(self).legacy_focus,
            final(self).collections == old(self).collections,
            final(self).legacy_root == refreshed(old(self).root, old(self).collections@, old(self).legacy_root),
    {
        match legacy_projection(&self.root, &self.collections) {
            Some(n) => {
                self.legacy_root = n;
            },
            None => {},
        }
    }

    /// Split the focused leaf, the new pane (taken from `ids`) second; `ratio`
    /// is the bit pattern of the first child's share. The new pane takes the focus.
    pub fn split_focused_with_ratio(&mut self, ids: &mut PaneIdAllocator, direction: SplitAxis, ratio: u32) -> (r: PaneId)
        requires
            old(self).wf(),
        ensures
            final(self).wf(),
            r.value() == old(ids).next,
            final(ids).next == if old(ids).next == u32::MAX { 0 } else { (old(ids).next + 1) as u32 },
            final(self).tree() == crate::tiles::split_at_spec(
                old(self).tree(),
                old(self).current_focus(),
                direction,
                LayoutLeaf::Pane(r),
                ratio,
            ),
            final(self).current_focus() == LayoutLeaf::Pane(r),
            final(self).compat_focus() == r,
            final(self).collection_list() == old(self).collection_list(),
            final(self).compat_tree() == refreshed(final(self).tree(), old(self).collection_list(), old(self).compat_tree()),
    {
        let new_id = PaneId::allocate(ids);
        let old_root = self.take_root();
        self.root = crate::tiles::split_at(old_root, self.focus, direction, LayoutLeaf::Pane(new_id), ratio);
        self.focus = LayoutLeaf::Pane(new_id);
        self.legacy_focus = new_id;
        self.refresh_legacy_root();
        new_id
    }

    /// Split the focused leaf evenly; the new pane takes the focus.
    pub fn split_focused(&mut self, ids: &mut PaneIdAllocator, direction: SplitAxis) -> (r: PaneId)
        requires
            old(self).wf(),
        ensures
            final(self).wf(),
            r.value() == old(ids).next,
            final(ids).next == if old(ids).next == u32::MAX { 0 } else { (old(ids).next + 1) as u32 },
            final(self).tree() == crate::tiles::split_at_spec(
                old(self).tree(),
                old(self).current_focus(),
                direction,
                LayoutLeaf::Pane(r),
                EVEN_SPLIT_RATIO,
            ),
            final(self).current_focus() == LayoutLeaf::Pane(r),
            final(self).compat_focus() == r,
            final(self).collection_list() == old(self).collection_list(),
            final(self).compat_tree() == refreshed(final(self).tree(), old(self).collection_list(), old(self).compat_tree()),
    {
        self.split_focused_with_ratio(ids, direction, EVEN_SPLIT_RATIO)
    }

    /// Place the unplaced pane `moved` next to the tiled pane `target`, and
    /// focus it; refused (false, nothing changed) otherwise.
    pub fn insert_pane_near(&mut self, target: PaneId, moved: PaneId, direction: SplitAxis, ratio: u32) -> (r: bool)
        requires
            old(self).wf(),
        ensures
            final(self).wf(),
            r == (target != moved && placement_of(old(self).leaf_list(), old(self).collection_list(), target) == Some(
                PanePlacement::Tiled,
            ) && placement_of(old(self).leaf_list(), old(self).collection_list(), moved) is None),
            !r ==> *final(self) == *old(self),
            r ==> final(self).tree() == crate::tiles::split_at_spec(
                old(self).tree(),
                LayoutLeaf::Pane(target),
                direction,
                LayoutLeaf::Pane(moved),
                ratio,
            ) && final(self).current_focus() == LayoutLeaf::Pane(moved) && final(self).compat_focus() == moved
                && final(self).collection_list() == old(self).collection_list() && final(self).compat_tree()
                == refreshed(final(self).tree(), old(self).collection_list(), old(self).compat_tree()),
    {
        if target == moved {
            return false;
        }
        match self.placement(target) {
            Some(PanePlacement::Tiled) => {},
            _ => return false,
        }
        if self.placement(moved).is_some() {
            return false;
        }
        let old_root = self.take_root();
        self.root = crate::tiles::split_at(old_root, LayoutLeaf::Pane(target), direction, LayoutLeaf::Pane(moved), ratio);
        self.focus = LayoutLeaf::Pane(moved);
        self.legacy_focus = moved;
        self.refresh_legacy_root();
        true
    }

    /// Place a new empty collection `collection_id` next to the leaf `target`;
    /// refused (false, nothing changed) when the collection exists or
    /// `target` is no leaf.
    pub fn insert_collection_near(&mut self, target: LayoutLeaf, collection_id: CollectionId, direction: SplitAxis, ratio: u32) -> (r: bool)
        requires
            old(self).wf(),
        ensures
            final(self).wf(),
            r == (!has_collection(old(self).collection_list(), collection_id) && old(self).leaf_list().contains(target)),
            !r ==> *final(self) == *old(self),
            r ==> {
                let c = final(self).collection_list().last();
                &&& final(self).tree() == crate::tiles::split_at_spec(
                    old(self).tree(),
                    target,
                    direction,
                    LayoutLeaf::Collection(collection_id),
                    ratio,
                )
                &&& final(self).collection_list() == old(self).collection_list().push(c)
                &&& c.identity() == collection_id && c.label_text() is None && c.member_list().len() == 0
                    && c.archived_set().is_empty() && c.selection() is None && c.rev() == 0
                &&& final(self).current_focus() == old(self).current_focus()
                &&& final(self).compat_focus() == old(self).compat_focus()
                &&& final(self).compat_tree() == old(self).compat_tree()
            },
    {
        if find_collection(&self.collections, collection_id).is_some() {
            return false;
        }
        let all = self.leaves();
        if !contains_leaf(&all, target) {
            return false;
        }
        let old_root = self.take_root();
        self.root = crate::tiles::split_at(old_root, target, direction, LayoutLeaf::Collection(collection_id), ratio);
        let ghost before = self.collections@;
        let c = PaneCollection::empty(collection_id, None);
        self.collections.push(c);
        proof {
            assert(self.collections@ == before.push(c));
            assert forall|i: int, j: int| 0 <= i < self.collections@.len() && 0 <= j < self.collections@.len() && i != j
                implies #[trigger] self.collections@[i].identity() != #[trigger] self.collections@[j].identity() by {
                if i == before.len() as int {
                    assert(before[j].identity() != collection_id);
                } else if j == before.len() as int {
                    assert(before[i].identity() != collection_id);
                } else {
                    assert(self.collections@[i] == before[i] && self.collections@[j] == before[j]);
                }
            }
            assert forall|i: int| 0 <= i < self.collections@.len() implies (#[trigger] self.collections@[i]).wf() by {
                if i < before.len() {
                    assert(self.collections@[i] == before[i]);
                }
            }
        }
        true
    }

    /// Focus the leaf `leaf`; refused (false, nothing changed) when it is no leaf.
    pub fn focus_leaf(&mut self, leaf: LayoutLeaf) -> (r: bool)
        requires
            old(self).wf(),
        ensures
            final(self).wf(),
            r == old(self).leaf_list().contains(leaf),
            !r ==> *final(self) == *old(self),
            r ==> final(self).current_focus() == leaf && final(self).compat_focus() == (match leaf {
                LayoutLeaf::Pane(p) => p,
                LayoutLeaf::Collection(_) => old(self).compat_focus(),
            }) && final(self).tree() == old(self).tree() && final(self).compat_tree() == old(self).compat_tree()
                && final(self).collection_list() == old(self).collection_list(),
    {
        let all = self.leaves();
        if !contains_leaf(&all, leaf) {
            return false;
        }
        self.focus = leaf;
        match leaf {
            LayoutLeaf::Pane(p) => {
                self.legacy_focus = p;
            },
            LayoutLeaf::Collection(_) => {},
        }
        true
    }

    /// Remove the leaf `target`; a focused `target` hands the focus to the
    /// next leaf (else the previous one).
    fn remove_leaf(&mut self, target: LayoutLeaf) -> (r: bool)
        requires
            old(self).wf(),
        ensures
            final(self).wf(),
            !removable(*old(self), target) ==> !r && *final(self) == *old(self),
            removable(*old(self), target) ==> leaf_removed(*old(self), *final(self), target) && r == crate::tiles::remove_spec(
                old(self).tree(),
                target,
            ) is Some,
    {
        let all = self.leaves();
        if all.len() <= 1 {
            return false;
        }
        let position = match position_of_leaf(&all, target) {
            Some(p) => p,
            None => return false,
        };
        let ghost s = all@;
        proof {
            assert(first_pos(s, target) == position as int) by {
                let f = first_pos(s, target);
                assert(0 <= position < s.len() && s[position as int] == target && forall|j: int| 0 <= j < position ==> s[j] != target);
                assert(0 <= f < s.len() && s[f] == target && forall|j: int| 0 <= j < f ==> s[j] != target);
                if f < position {
                    assert(s[f] != target);
                } else if f > position {
                    assert(s[position as int] != target);
                }
            }
        }
        let replacement = if position + 1 < all.len() {
            Some(all[position + 1])
        } else if position >= 1 {
            Some(all[position - 1])
        } else {
            None
        };
        let old_root = self.take_root();
        let root = match crate::tiles::remove(old_root, target) {
            Some(t) => t,
            None => return false,
        };
        self.root = root;
        if self.focus == target {
            match replacement {
                Some(leaf) => {
                    self.focus = leaf;
                    match leaf {
                        LayoutLeaf::Pane(p) => {
                            self.legacy_focus = p;
                        },
                        LayoutLeaf::Collection(_) => {},
                    }
                },
                None => {},
            }
        }
        if target == LayoutLeaf::Pane(self.legacy_focus) {
            let placed = self.pane_ids();
            if placed.len() > 0 {
                self.legacy_focus = placed[0];
            }
        }
        self.refresh_legacy_root();
        true
    }

    /// Remove the collection leaf `collection_id` and its collection; refused
    /// (false) when it is the only leaf or no leaf.
    pub fn remove_collection(&mut self, collection_id: CollectionId) -> (r: bool)
        requires
            old(self).wf(),
        ensures
            final(self).wf(),
            !removable(*old(self), LayoutLeaf::Collection(collection_id)) ==> !r && *final(self) == *old(self),
            removable(*old(self), LayoutLeaf::Collection(collection_id)) ==> {
                let target = LayoutLeaf::Collection(collection_id);
                &&& r == crate::tiles::remove_spec(old(self).tree(), target) is Some
                &&& removal_fields(
                    *old(self),
                    target,
                    final(self).tree(),
                    final(self).current_focus(),
                    final(self).compat_focus(),
                    final(self).compat_tree(),
                )
                &&& r ==> final(self).collection_list() == (if has_collection(old(self).collection_list(), collection_id) {
                    old(self).collection_list().remove(collection_index(old(self).collection_list(), collection_id))
                } else {
                    old(self).collection_list()
                })
                &&& !r ==> final(self).collection_list() == old(self).collection_list()
            },
    {
        let target = LayoutLeaf::Collection(collection_id);
        if !self.remove_leaf(target) {
            return false;
        }
        match find_collection(&self.collections, collection_id) {
            Some(k) => {
                let ghost before = self.collections@;
                self.collections.remove(k);
                proof {
                    assert(self.collections@ == before.remove(k as int));
                    assert forall|i: int, j: int| 0 <= i < self.collections@.len() && 0 <= j < self.collections@.len() && i != j
                        implies #[trigger] self.collections@[i].identity() != #[trigger] self.collections@[j].identity() by {
                        let oi = if i < k { i } else { i + 1 };
                        let oj = if j < k { j } else { j + 1 };
                        assert(self.collections@[i] == before[oi] && self.collections@[j] == before[oj]);
                    }
                    assert forall|i: int| 0 <= i < self.collections@.len() implies (#[trigger] self.collections@[i]).wf() by {
                        let oi = if i < k { i } else { i + 1 };
                        assert(self.collections@[i] == before[oi]);
                    }
                }
            },
            None => {},
        }
        true
    }

    /// Remove the focused pane leaf; refused (false) when a collection is focused.
    pub fn close_focused(&mut self) -> (r: bool)
        requires
            old(self).wf(),
        ensures
            final(self).wf(),
            old(self).current_focus() is Collection ==> !r && *final(self) == *old(self),
            old(self).current_focus() is Pane ==> {
                let target = old(self).current_focus();
                &&& !removable(*old(self), target) ==> !r && *final(self) == *old(self)
                &&& removable(*old(self), target) ==> leaf_removed(*old(self), *final(self), target) && r
                    == crate::tiles::remove_spec(old(self).tree(), target) is Some
            },
    {
        match self.focus {
            LayoutLeaf::Pane(p) => self.remove_leaf(LayoutLeaf::Pane(p)),
            LayoutLeaf::Collection(_) => false,
        }
    }

    /// Remove the tiled pane `pane` from the tree, as when it moves into a collection.
    pub fn remove_tiled_pane_for_collection(&mut self, pane: PaneId) -> (r: bool)
        requires
            old(self).wf(),
        ensures
            final(self).wf(),
            placement_of(old(self).leaf_list(), old(self).collection_list(), pane) != Some(PanePlacement::Tiled) ==> !r
                && *final(self) == *old(self),
            placement_of(old(self).leaf_list(), old(self).collection_list(), pane) == Some(PanePlacement::Tiled) ==> {
                let target = LayoutLeaf::Pane(pane);
                &&& !removable(*old(self), target) ==> !r && *final(self) == *old(self)
                &&& removable(*old(self), target) ==> leaf_removed(*old(self), *final(self), target) && r
                    == crate::tiles::remove_spec(old(self).tree(), target) is Some
            },
    {
        match self.placement(pane) {
            Some(PanePlacement::Tiled) => self.remove_leaf(LayoutLeaf::Pane(pane)),
            _ => false,
        }
    }

    /// Exchange the tiled panes `first` and `second`; refused (false, nothing
    /// changed) unless both are distinct tiled panes.
    pub fn swap_panes(&mut self, first: PaneId, second: PaneId) -> (r: bool)
        requires
            old(self).wf(),
        ensures
            final(self).wf(),
            r == (first != second && placement_of(old(self).leaf_list(), old(self).collection_list(), first) == Some(
                PanePlacement::Tiled,
            ) && placement_of(old(self).leaf_list(), old(self).collection_list(), second) == Some(PanePlacement::Tiled)),
            !r ==> *final(self) == *old(self),
            r ==> final(self).tree() == crate::tiles::swap_spec(old(self).tree(), first, second)
                && final(self).current_focus() == old(self).current_focus() && final(self).compat_focus()
                == old(self).compat_focus() && final(self).collection_list() == old(self).collection_list()
                && final(self).compat_tree() == refreshed(final(self).tree(), old(self).collection_list(), old(self).compat_tree()),
    {
        if first == second {
            return false;
        }
        match self.placement(first) {
            Some(PanePlacement::Tiled) => {},
            _ => return false,
        }
        match self.placement(second) {
            Some(PanePlacement::Tiled) => {},
            _ => return false,
        }
        let old_root = self.take_root();
        self.root = crate::tiles::swap_panes_in(old_root, first, second);
        self.refresh_legacy_root();
        true
    }

    /// Set the ratio (bit pattern) of the split reached along `path`; whether
    /// there is one.
    pub fn set_ratio_at(&mut self, path: &[bool], ratio: u32) -> (r: bool)
        requires
            old(self).wf(),
        ensures
            final(self).wf(),
            (final(self).tree(), r) == crate::tiles::set_ratio_spec(old(self).tree(), path@, ratio),
            final(self).current_focus() == old(self).current_focus(),
            final(self).compat_focus() == old(self).compat_focus(),
            final(self).collection_list() == old(self).collection_list(),
            final(self).compat_tree() == if r {
                refreshed(final(self).tree(), old(self).collection_list(), old(self).compat_tree())
            } else {
                old(self).compat_tree()
            },
    {
        let old_root = self.take_root();
        assert(path@.subrange(0, path@.len() as int) =~= path@);
        let (root, changed) = crate::tiles::set_ratio(old_root, path, 0, ratio);
        self.root = root;
        if changed {
            self.refresh_legacy_root();
        }
        changed
    }
}

/// `c2` is `c` after `pane` joined it as its last member.
pub open spec fn member_added(c: PaneCollection, c2: PaneCollection, pane: PaneId) -> bool {
    &&& c2.member_list() == c.member_list().push(pane)
    &&& c2.archived_set() == c.archived_set()
    &&& c2.selection() == (if c.selection() is Some { c.selection() } else { Some(pane) })
    &&& c2.rev() == c.rev().saturating_add(1)
}

/// `c2` is `c` after its member `pane` left; a selected `pane` hands the
/// selection to the member after it, else the one before it.
pub open spec fn member_removed(c: PaneCollection, c2: PaneCollection, pane: PaneId) -> bool {
    let index = c.member_list().index_of(pane);
    let rest = c.member_list().remove(index);
    &&& c2.member_list() == rest
    &&& c2.archived_set() == c.archived_set().remove(pane)
    &&& c2.selection() == if c.selection() == Some(pane) {
        if index < rest.len() {
            Some(rest[index])
        } else if index > 0 {
            Some(rest[index - 1])
        } else {
            None
        }
    } else {
        c.selection()
    }
    &&& c2.rev() == c.rev().saturating_add(1)
}

/// `c2` is `c` with `pane` selected.
pub open spec fn member_selected(c: PaneCollection, c2: PaneCollection, pane: PaneId) -> bool {
    &&& c2.member_list() == c.member_list()
    &&& c2.archived_set() == c.archived_set()
    &&& c2.selection() == Some(pane)
    &&& c2.rev() == c.rev()
}

/// `c2` is `c` with member `pane` moved to position `index`.
pub open spec fn member_moved(c: PaneCollection, c2: PaneCollection, pane: PaneId, index: usize) -> bool {
    &&& c2.member_list() == c.member_list().remove(c.member_list().index_of(pane)).insert(index as int, pane)
    &&& c2.archived_set() == c.archived_set()
    &&& c2.selection() == c.selection()
    &&& c2.rev() == c.rev().saturating_add(1)
}

/// `c2` is `c` with member `pane` archived or restored.
pub open spec fn archive_changed(c: PaneCollection, c2: PaneCollection, pane: PaneId, archived: bool) -> bool {
    &&& c2.member_list() == c.member_list()
    &&& c2.archived_set() == (if archived { c.archived_set().insert(pane) } else { c.archived_set().remove(pane) })
    &&& c2.selection() == c.selection()
    &&& c2.rev() == (if c.archived_set().contains(pane) != archived { c.rev().saturating_add(1) } else { c.rev() })
}

/// `c2` is `c` with the restore of `pane` undone and its revision put back to `revision`.
pub open spec fn restore_rolled_back(c: PaneCollection, c2: PaneCollection, pane: PaneId, revision: u64) -> bool {
    &&& c2.member_list() == c.member_list()
    &&& c2.archived_set() == c.archived_set().insert(pane)
    &&& c2.selection() == c.selection()
    &&& c2.rev() == revision
}

/// What a change of collection `id` comes to: the change `changed` describes
/// applied to that collection alone, with the pane-only tree refreshed.
pub open spec fn collection_updated(
    before: TileLayout,
    after: TileLayout,
    id: CollectionId,
    changed: spec_fn(PaneCollection, PaneCollection) -> bool,
) -> bool {
    let cs = before.collection_list();
    let k = collection_index(cs, id);
    &&& only_changed(cs, after.collection_list(), k)
    &&& changed(cs[k], after.collection_list()[k])
    &&& collections_changed(before, after, after.collection_list())
}

proof fn lemma_holder_none(cs: Seq<PaneCollection>, pane: PaneId)
    ensures
        holder(cs, pane) is None <==> forall|i: int| 0 <= i < cs.len() ==> !(#[trigger] cs[i]).member_list().contains(pane),
    decreases cs.len(),
{
    if cs.len() > 0 {
        lemma_holder_none(cs.drop_first(), pane);
        assert forall|i: int| 0 <= i < cs.len() - 1 implies #[trigger] cs.drop_first()[i] == cs[i + 1] by {}
        if holder(cs, pane) is None {
            assert forall|i: int| 0 <= i < cs.len() implies !(#[trigger] cs[i]).member_list().contains(pane) by {
                if i > 0 {
                    assert(cs.drop_first()[i - 1] == cs[i]);
                }
            }
        } else if !cs[0].member_list().contains(pane) {
            let j = choose|j: int| 0 <= j < cs.len() - 1 && (#[trigger] cs.drop_first()[j]).member_list().contains(pane);
            assert(cs[j + 1] == cs.drop_first()[j]);
        }
    }
}

impl TileLayout {
    /// Replace collection `k` by `c`.
    fn put_collection(&mut self, k: usize, c: PaneCollection)
        requires
            old(self).wf(),
            k < old(self).collections@.len(),
            c.wf(),
            c.identity() == old(self).collections@[k as int].identity(),
        ensures
            final(self).wf(),
            final(self).collections@ == old(self).collections@.update(k as int, c),
            final(self).root == old(self).root,
            final(self).focus == old(self).focus,
            final(self).legacy_focus == old(self).legacy_focus,
            final(self).legacy_root == old(self).legacy_root,
    {
        proof {
            self.lemma_update_keeps_wf(k as int, c);
        }
        let ghost before = self.collections@;
        self.collections.remove(k);
        self.collections.insert(k, c);
        assert(self.collections@ =~= before.update(k as int, c));
    }

    /// A copy of collection `k`, to be changed and put back.
    fn collection_copy_at(&self, k: usize) -> (r: PaneCollection)
        requires
            self.wf(),
            k < self.collections@.len(),
        ensures
            r.wf(),
            r.identity() == self.collections@[k as int].identity(),
            r.label_text() == self.collections@[k as int].label_text(),
            r.member_list() == self.collections@[k as int].member_list(),
            r.archived_set() == self.collections@[k as int].archived_set(),
            r.selection() == self.collections@[k as int].selection(),
            r.rev() == self.collections@[k as int].rev(),
    {
        PaneCollection::copy_of(&self.collections[k])
    }

    /// Give the collection `id` the label `label`; refused (false, nothing
    /// changed) when there is no such collection.
    pub fn set_collection_label(&mut self, id: CollectionId, label: Option<String>) -> (r: bool)
        requires
            old(self).wf(),
        ensures
            final(self).wf(),
            r == has_collection(old(self).collection_list(), id),
            !r ==> *final(self) == *old(self),
            r ==> {
                let cs = old(self).collection_list();
                let k = collection_index(cs, id);
                let c2 = final(self).collection_list()[k];
                &&& final(self).collection_list().len() == cs.len()
                &&& forall|j: int| 0 <= j < cs.len() && j != k ==> #[trigger] final(self).collection_list()[j] == cs[j]
                &&& c2.identity() == id && c2.label_text() == label && c2.member_list() == cs[k].member_list()
                    && c2.archived_set() == cs[k].archived_set() && c2.selection() == cs[k].selection() && c2.rev()
                    == cs[k].rev()
                &&& final(self).tree() == old(self).tree() && final(self).current_focus() == old(self).current_focus()
                    && final(self).compat_focus() == old(self).compat_focus() && final(self).compat_tree()
                    == old(self).compat_tree()
            },
    {
        let k = match find_collection(&self.collections, id) {
            Some(k) => k,
            None => return false,
        };
        let mut c = self.collection_copy_at(k);
        c.set_label(label);
        self.put_collection(k, c);
        true
    }

    /// Make the unplaced pane `pane` the last member of collection `id`;
    /// refused (false, nothing changed) when `pane` is placed or there is no
    /// such collection.
    pub fn add_collection_member(&mut self, id: CollectionId, pane: PaneId) -> (r: bool)
        requires
            old(self).wf(),
        ensures
            final(self).wf(),
            r == (placement_of(old(self).leaf_list(), old(self).collection_list(), pane) is None && has_collection(
                old(self).collection_list(),
                id,
            )),
            !r ==> *final(self) == *old(self),
            r ==> collection_updated(*old(self), *final(self), id, |c: PaneCollection, c2: PaneCollection| member_added(c, c2, pane)),
    {
        if self.placement(pane).is_some() {
            return false;
        }
        let k = match find_collection(&self.collections, id) {
            Some(k) => k,
            None => return false,
        };
        proof {
            lemma_holder_none(self.collections@, pane);
            assert(!self.collections@[k as int].member_list().contains(pane));
        }
        let mut c = self.collection_copy_at(k);
        c.add_member(pane);
        self.put_collection(k, c);
        self.refresh_legacy_root();
        true
    }

    /// Remove member `pane` from collection `id`; refused (false, nothing
    /// changed) when it is no member of it.
    pub fn remove_collection_member(&mut self, id: CollectionId, pane: PaneId) -> (r: bool)
        requires
            old(self).wf(),
        ensures
            final(self).wf(),
            r == (has_collection(old(self).collection_list(), id) && old(self).collection_list()[collection_index(
                old(self).collection_list(),
                id,
            )].member_list().contains(pane)),
            !r ==> *final(self) == *old(self),
            r ==> collection_updated(*old(self), *final(self), id, |c: PaneCollection, c2: PaneCollection| member_removed(c, c2, pane)),
    {
        let k = match find_collection(&self.collections, id) {
            Some(k) => k,
            None => return false,
        };
        let members = slice_to_members(self.collections[k].members());
        if !contains_pane(&members, pane) {
            return false;
        }
        let mut c = self.collection_copy_at(k);
        c.remove_member(pane);
        self.put_collection(k, c);
        self.refresh_legacy_root();
        true
    }

    /// Select member `pane` of collection `id`; when the collection is
    /// focused, `pane` becomes the focus for pane-only callers. Refused
    /// (false, nothing changed) when it is no member of it.
    pub fn select_collection_member(&mut self, id: CollectionId, pane: PaneId) -> (r: bool)
        requires
            old(self).wf(),
        ensures
            final(self).wf(),
            r == (has_collection(old(self).collection_list(), id) && old(self).collection_list()[collection_index(
                old(self).collection_list(),
                id,
            )].member_list().contains(pane)),
            !r ==> *final(self) == *old(self),
            r ==> {
                let cs = old(self).collection_list();
                let k = collection_index(cs, id);
                &&& only_changed(cs, final(self).collection_list(), k)
                &&& member_selected(cs[k], final(self).collection_list()[k], pane)
                &&& final(self).tree() == old(self).tree()
                &&& final(self).current_focus() == old(self).current_focus()
                &&& final(self).compat_focus() == (if old(self).current_focus() == LayoutLeaf::Collection(id) {
                    pane
                } else {
                    old(self).compat_focus()
                })
                &&& final(self).compat_tree() == refreshed(old(self).tree(), final(self).collection_list(), old(self).compat_tree())
            },
    {
        let k = match find_collection(&self.collections, id) {
            Some(k) => k,
            None => return false,
        };
        let members = slice_to_members(self.collections[k].members());
        if !contains_pane(&members, pane) {
            return false;
        }
        let mut c = self.collection_copy_at(k);
        c.select_member(pane);
        self.put_collection(k, c);
        if self.focus == LayoutLeaf::Collection(id) {
            self.legacy_focus = pane;
        }
        self.refresh_legacy_root();
        true
    }

    /// Move member `pane` of collection `id` to position `index`; refused
    /// (false, nothing changed) for a non-member or a position past the last member.
    pub fn reorder_collection_member(&mut self, id: CollectionId, pane: PaneId, index: usize) -> (r: bool)
        requires
            old(self).wf(),
        ensures
            final(self).wf(),
            r == (has_collection(old(self).collection_list(), id) && {
                let c = old(self).collection_list()[collection_index(old(self).collection_list(), id)];
                c.member_list().contains(pane) && index < c.member_list().len()
            }),
            !r ==> *final(self) == *old(self),
            r ==> collection_updated(*old(self), *final(self), id, |c: PaneCollection, c2: PaneCollection| member_moved(c, c2, pane, index)),
    {
        let k = match find_collection(&self.collections, id) {
            Some(k) => k,
            None => return false,
        };
        let members = slice_to_members(self.collections[k].members());
        if !contains_pane(&members, pane) || index >= members.len() {
            return false;
        }
        let mut c = self.collection_copy_at(k);
        c.reorder_member(pane, index);
        self.put_collection(k, c);
        self.refresh_legacy_root();
        true
    }

    /// Archive (`archived`) or restore member `pane` of collection `id`;
    /// refused (false, nothing changed) when it is no member of it.
    pub fn set_member_archived(&mut self, id: CollectionId, pane: PaneId, archived: bool) -> (r: bool)
        requires
            old(self).wf(),
        ensures
            final(self).wf(),
            r == (has_collection(old(self).collection_list(), id) && old(self).collection_list()[collection_index(
                old(self).collection_list(),
                id,
            )].member_list().contains(pane)),
            !r ==> *final(self) == *old(self),
            r ==> {
                let cs = old(self).collection_list();
                let k = collection_index(cs, id);
                &&& only_changed(cs, final(self).collection_list(), k)
                &&& archive_changed(cs[k], final(self).collection_list()[k], pane, archived)
                &&& final(self).tree() == old(self).tree() && final(self).current_focus() == old(self).current_focus()
                    && final(self).compat_focus() == old(self).compat_focus() && final(self).compat_tree()
                    == old(self).compat_tree()
            },
    {
        let k = match find_collection(&self.collections, id) {
            Some(k) => k,
            None => return false,
        };
        let members = slice_to_members(self.collections[k].members());
        if !contains_pane(&members, pane) {
            return false;
        }
        let mut c = self.collection_copy_at(k);
        c.set_member_archived(pane, archived);
        self.put_collection(k, c);
        true
    }

    /// Undo a just-started restore of archived member `pane` of collection
    /// `id`, putting its revision back to `original_revision`; refused (false,
    /// nothing changed) unless `pane` is an active member.
    pub fn rollback_member_restore(&mut self, id: CollectionId, pane: PaneId, original_revision: u64) -> (r: bool)
        requires
            old(self).wf(),
        ensures
            final(self).wf(),
            r == (has_collection(old(self).collection_list(), id) && {
                let c = old(self).collection_list()[collection_index(old(self).collection_list(), id)];
                c.member_list().contains(pane) && !c.archived_set().contains(pane)
            }),
            !r ==> *final(self) == *old(self),
            r ==> {
                let cs = old(self).collection_list();
                let k = collection_index(cs, id);
                &&& only_changed(cs, final(self).collection_list(), k)
                &&& restore_rolled_back(cs[k], final(self).collection_list()[k], pane, original_revision)
                &&& final(self).tree() == old(self).tree() && final(self).current_focus() == old(self).current_focus()
                    && final(self).compat_focus() == old(self).compat_focus() && final(self).compat_tree()
                    == old(self).compat_tree()
            },
    {
        let k = match find_collection(&self.collections, id) {
            Some(k) => k,
            None => return false,
        };
        let members = slice_to_members(self.collections[k].members());
        if !contains_pane(&members, pane) || self.collections[k].is_archived(pane) {
            return false;
        }
        let mut c = self.collection_copy_at(k);
        c.rollback_member_restore(pane, original_revision);
        self.put_collection(k, c);
        true
    }
}

proof fn lemma_holder_some(cs: Seq<PaneCollection>, pane: PaneId, id: CollectionId)
    requires
        distinct_collections(cs),
        holder(cs, pane) == Some(id),
    ensures
        has_collection(cs, id),
        cs[collection_index(cs, id)].member_list().contains(pane),
    decreases cs.len(),
{
    if cs[0].member_list().contains(pane) {
        assert(cs[0].identity() == id);
        assert(has_collection(cs, id));
        let k = collection_index(cs, id);
        assert(cs[k].identity() == id);
        assert(k == 0);
    } else {
        let rest = cs.drop_first();
        assert(distinct_collections(rest)) by {
            assert forall|i: int, j: int| 0 <= i < rest.len() && 0 <= j < rest.len() && i != j implies
                #[trigger] rest[i].identity() != #[trigger] rest[j].identity() by {
                assert(rest[i] == cs[i + 1] && rest[j] == cs[j + 1]);
            }
        }
        lemma_holder_some(rest, pane, id);
        let k1 = collection_index(rest, id);
        assert(rest[k1] == cs[k1 + 1]);
        assert(has_collection(cs, id));
        let k = collection_index(cs, id);
        assert(cs[k].identity() == id);
        assert(k == k1 + 1);
    }
}

proof fn lemma_tiled_in_leaves(s: Seq<LayoutLeaf>, p: PaneId)
    ensures
        tiled_panes(s).contains(p) ==> s.contains(LayoutLeaf::Pane(p)),
    decreases s.len(),
{
    if s.len() > 0 {
        lemma_tiled_in_leaves(s.drop_last(), p);
        if tiled_panes(s).contains(p) {
            if tiled_panes(s.drop_last()).contains(p) {
                let i = choose|i: int| 0 <= i < s.drop_last().len() && s.drop_last()[i] == LayoutLeaf::Pane(p);
                assert(s[i] == LayoutLeaf::Pane(p));
            } else {
                assert(s.last() == LayoutLeaf::Pane(p));
                assert(s[s.len() - 1] == LayoutLeaf::Pane(p));
            }
        }
    }
}

/// The members of all of `cs`, collection after collection.
pub open spec fn all_members(cs: Seq<PaneCollection>) -> Seq<PaneId>
    decreases cs.len(),
{
    if cs.len() == 0 {
        seq![]
    } else {
        all_members(cs.drop_last()) + cs.last().member_list()
    }
}

/// The pane with the smallest number in `s`.
pub open spec fn smallest_pane(s: Seq<PaneId>) -> PaneId
    decreases s.len(),
{
    if s.len() <= 1 {
        s[0]
    } else {
        let rest = smallest_pane(s.drop_last());
        if s.last().value() < rest.value() {
            s.last()
        } else {
            rest
        }
    }
}

/// Whether a saved tree, focus and collections make a consistent layout:
/// distinct leaves including the focus, one collection for each collection
/// leaf and none other, and no pane placed twice.
pub open spec fn saved_layout_ok(root: TypedNode, focus: LayoutLeaf, cs: Seq<PaneCollection>) -> bool {
    let s = leaves_of(root);
    &&& s.len() > 0
    &&& s.no_duplicates()
    &&& s.contains(focus)
    &&& distinct_collections(cs)
    &&& forall|i: int| 0 <= i < cs.len() ==> s.contains(LayoutLeaf::Collection(#[trigger] cs[i].identity()))
    &&& forall|id: CollectionId| s.contains(LayoutLeaf::Collection(id)) ==> #[trigger] has_collection(cs, id)
    &&& (tiled_panes(s) + all_members(cs)).no_duplicates()
}

/// Whether `p` is the compatibility focus of a restored layout: the
/// focused pane, else the selected member of the focused collection, else
/// the placed pane with the smallest number, else pane 0.
pub open spec fn restored_compat_focus(root: TypedNode, focus: LayoutLeaf, cs: Seq<PaneCollection>, p: PaneId) -> bool {
    match focus {
        LayoutLeaf::Pane(f) => p == f,
        LayoutLeaf::Collection(id) => match selected_in(cs, id) {
            Some(sel) => p == sel,
            None => {
                let placed = tiled_panes(leaves_of(root)) + all_members(cs);
                if placed.len() > 0 {
                    p == smallest_pane(placed)
                } else {
                    p.value() == 0
                }
            },
        },
    }
}

impl TileLayout {
    /// Focus pane `id`: a tiled pane as a leaf; a collection member by
    /// selecting it and focusing its collection. Nothing happens to an
    /// unplaced pane.
    pub fn focus_pane(&mut self, id: PaneId)
        requires
            old(self).wf(),
        ensures
            final(self).wf(),
            match placement_of(old(self).leaf_list(), old(self).collection_list(), id) {
                None => *final(self) == *old(self),
                Some(PanePlacement::Tiled) => {
                    &&& final(self).current_focus() == LayoutLeaf::Pane(id)
                    &&& final(self).compat_focus() == id
                    &&& final(self).tree() == old(self).tree()
                    &&& final(self).collection_list() == old(self).collection_list()
                    &&& final(self).compat_tree() == old(self).compat_tree()
                },
                Some(PanePlacement::Collection(cid)) => {
                    let cs = old(self).collection_list();
                    let k = collection_index(cs, cid);
                    &&& only_changed(cs, final(self).collection_list(), k)
                    &&& member_selected(cs[k], final(self).collection_list()[k], id)
                    &&& final(self).tree() == old(self).tree()
                    &&& final(self).current_focus() == (if old(self).leaf_list().contains(LayoutLeaf::Collection(cid)) {
                        LayoutLeaf::Collection(cid)
                    } else {
                        old(self).current_focus()
                    })
                    &&& final(self).compat_focus() == id
                    &&& final(self).compat_tree() == refreshed(old(self).tree(), final(self).collection_list(), old(self).compat_tree())
                },
            },
    {
        match self.placement(id) {
            Some(PanePlacement::Tiled) => {
                proof {
                    lemma_tiled_in_leaves(self.leaf_list(), id);
                }
                self.focus_leaf(LayoutLeaf::Pane(id));
            },
            Some(PanePlacement::Collection(cid)) => {
                proof {
                    lemma_holder_some(self.collections@, id, cid);
                }
                if self.select_collection_member(cid, id) {
                    self.focus_leaf(LayoutLeaf::Collection(cid));
                    self.legacy_focus = id;
                }
            },
            None => {},
        }
    }

    /// A layout restored from its pane-only tree, focused on `focus`.
    pub fn from_saved(root: Node, focus: PaneId) -> (r: Self)
        ensures
            r.wf(),
            r.tree() == crate::tiles::from_legacy_spec(root),
            r.current_focus() == LayoutLeaf::Pane(focus),
            r.compat_focus() == focus,
            r.compat_tree() == root,
            r.collection_list() == Seq::<PaneCollection>::empty(),
    {
        let typed = crate::tiles::typed_from_legacy(&root);
        let layout = TileLayout {
            root: typed,
            focus: LayoutLeaf::Pane(focus),
            legacy_focus: focus,
            legacy_root: root,
            collections: Vec::new(),
        };
        assert(layout.collections@ =~= Seq::<PaneCollection>::empty());
        layout
    }

    /// A layout restored from its tree, focus and collections; `None` when
    /// they are inconsistent.
    pub fn from_typed_saved(root: TypedNode, focus: LayoutLeaf, collections: Vec<PaneCollection>) -> (r: Option<Self>)
        requires
            forall|i: int| 0 <= i < collections@.len() ==> (#[trigger] collections@[i]).wf(),
        ensures
            r is Some <==> saved_layout_ok(root, focus, collections@),
            r matches Some(l) ==> {
                &&& l.wf()
                &&& l.tree() == root
                &&& l.current_focus() == focus
                &&& l.collection_list() == collections@
                &&& restored_compat_focus(root, focus, collections@, l.compat_focus())
                &&& l.compat_tree() == match legacy_spec(root, collections@) {
                    Some(n) => n,
                    None => Node::Pane(l.compat_focus()),
                }
            },
    {
        let all = leaves(&root);
        if all.len() == 0 || !distinct_leaves(&all) || !contains_leaf(&all, focus) {
            return None;
        }
        let ghost s = all@;
        // every collection stands for a distinct collection leaf
        let mut i: usize = 0;
        while i < collections.len()
            invariant
                s == all@,
                s == leaves_of(root),
                0 <= i <= collections@.len(),
                forall|a: int| 0 <= a < i ==> s.contains(LayoutLeaf::Collection(#[trigger] collections@[a].identity())),
                forall|a: int, b: int| 0 <= a < i && 0 <= b < i && a != b ==> #[trigger] collections@[a].identity()
                    != #[trigger] collections@[b].identity(),
            decreases collections@.len() - i,
        {
            let id = collections[i].collection_id();
            if !contains_leaf(&all, LayoutLeaf::Collection(id)) {
                return None;
            }
            let mut j: usize = 0;
            while j < i
                invariant
                    0 <= j <= i < collections@.len(),
                    id == collections@[i as int].identity(),
                    forall|a: int| 0 <= a < j ==> #[trigger] collections@[a].identity() != id,
                decreases i - j,
            {
                if collections[j].collection_id() == id {
                    return None;
                }
                j = j + 1;
            }
            i = i + 1;
        }
        // every collection leaf has its collection
        let mut t: usize = 0;
        while t < all.len()
            invariant
                s == all@,
                s == leaves_of(root),
                distinct_collections(collections@),
                0 <= t <= s.len(),
                forall|a: int| 0 <= a < t ==> (#[trigger] s[a] matches LayoutLeaf::Collection(id) ==> has_collection(collections@, id)),
            decreases s.len() - t,
        {
            match all[t] {
                LayoutLeaf::Collection(id) => {
                    if find_collection(&collections, id).is_none() {
                        return None;
                    }
                },
                LayoutLeaf::Pane(_) => {},
            }
            t = t + 1;
        }
        assert forall|id: CollectionId| s.contains(LayoutLeaf::Collection(id)) implies #[trigger] has_collection(collections@, id) by {
            let a = choose|a: int| 0 <= a < s.len() && s[a] == LayoutLeaf::Collection(id);
            assert(s[a] matches LayoutLeaf::Collection(x) ==> has_collection(collections@, x));
        }
        // no pane placed twice
        let layout0 = TileLayout {
            root,
            focus,
            legacy_focus: PaneId::from_raw(0),
            legacy_root: Node::Pane(PaneId::from_raw(0)),
            collections,
        };
        let mut placed = layout0.tiled_pane_ids();
        let ghost tiled = placed@;
        let mut c: usize = 0;
        while c < layout0.collections.len()
            invariant
                tiled == tiled_panes(layout0.leaf_list()),
                0 <= c <= layout0.collections@.len(),
                placed@ == tiled + all_members(layout0.collections@.take(c as int)),
            decreases layout0.collections@.len() - c,
        {
            let ghost before = placed@;
            let members = layout0.collections[c].members();
            let mut j: usize = 0;
            while j < members.len()
                invariant
                    0 <= j <= members@.len(),
                    placed@ == before + members@.take(j as int),
                decreases members@.len() - j,
            {
                placed.push(members[j]);
                assert(members@.take(j + 1) =~= members@.take(j as int).push(members@[j as int]));
                j = j + 1;
            }
            proof {
                let cs = layout0.collections@;
                assert(members@.take(members@.len() as int) =~= members@);
                assert(cs.take(c + 1).drop_last() =~= cs.take(c as int));
                assert(cs.take(c + 1).last() == cs[c as int]);
                assert(placed@ =~= tiled + all_members(cs.take(c + 1)));
            }
            c = c + 1;
        }
        assert(layout0.collections@.take(layout0.collections@.len() as int) =~= layout0.collections@);
        if !distinct_panes(&placed) {
            return None;
        }
        let legacy_focus = match focus {
            LayoutLeaf::Pane(p) => p,
            LayoutLeaf::Collection(id) => {
                let selected = match find_collection(&layout0.collections, id) {
                    Some(k) => layout0.collections[k].selected(),
                    None => None,
                };
                match selected {
                    Some(p) => p,
                    None => if placed.len() > 0 {
                        smallest_of(&placed)
                    } else {
                        PaneId::from_raw(0)
                    },
                }
            },
        };
        let projected = legacy_projection(&layout0.root, &layout0.collections);
        let legacy_root = match projected {
            Some(n) => n,
            None => Node::Pane(legacy_focus),
        };
        let TileLayout { root, focus, collections, .. } = layout0;
        Some(TileLayout { root, focus, legacy_focus, legacy_root, collections })
    }
}

/// Whether the leaves of `s` are distinct.
fn distinct_leaves(s: &Vec<LayoutLeaf>) -> (r: bool)
    ensures
        r == s@.no_duplicates(),
{
    let mut i: usize = 0;
    while i < s.len()
        invariant
            0 <= i <= s@.len(),
            forall|a: int, b: int| 0 <= a < b < i ==> s@[a] != s@[b],
        decreases s@.len() - i,
    {
        let mut j: usize = 0;
        while j < i
            invariant
                0 <= j <= i < s@.len(),
                forall|a: int| 0 <= a < j ==> s@[a] != s@[i as int],
            decreases i - j,
        {
            if s[j] == s[i] {
                return false;
            }
            j = j + 1;
        }
        i = i + 1;
    }
    true
}

/// The pane with the smallest number in `s`; the first of equals.
fn smallest_of(s: &Vec<PaneId>) -> (r: PaneId)
    requires
        s@.len() > 0,
    ensures
        r == smallest_pane(s@),
{
    let mut best = s[0];
    let mut i: usize = 1;
    assert(s@.take(1).len() <= 1);
    assert(smallest_pane(s@.take(1)) == s@[0]);
    while i < s.len()
        invariant
            1 <= i <= s@.len(),
            best == smallest_pane(s@.take(i as int)),
        decreases s@.len() - i,
    {
        assert(s@.take(i + 1).drop_last() =~= s@.take(i as int));
        assert(s@.take(i + 1).last() == s@[i as int]);
        if s[i].raw() < best.raw() {
            best = s[i];
        }
        i = i + 1;
    }
    assert(s@.take(s@.len() as int) =~= s@);
    best
}

/// Whether `leaf` is among `s`.
fn contains_leaf(s: &Vec<LayoutLeaf>, leaf: LayoutLeaf) -> (r: bool)
    ensures
        r == s@.contains(leaf),
{
    match position_of_leaf(s, leaf) {
        Some(_) => true,
        None => false,
    }
}

/// The first position of `leaf` in `s`.
fn position_of_leaf(s: &Vec<LayoutLeaf>, leaf: LayoutLeaf) -> (r: Option<usize>)
    ensures
        match r {
            Some(i) => i < s@.len() && s@[i as int] == leaf && forall|j: int| 0 <= j < i ==> s@[j] != leaf,
            None => !s@.contains(leaf),
        },
{
    let mut i: usize = 0;
    while i < s.len()
        invariant
            0 <= i <= s@.len(),
            forall|j: int| 0 <= j < i ==> s@[j] != leaf,
        decreases s@.len() - i,
    {
        if s[i] == leaf {
            return Some(i);
        }
        i = i + 1;
    }
    None
}

/// The members of a slice, as a vector.
fn slice_to_members(members: &[PaneId]) -> (r: Vec<PaneId>)
    ensures
        r@ == members@,
{
    let mut out: Vec<PaneId> = Vec::new();
    let mut j: usize = 0;
    while j < members.len()
        invariant
            0 <= j <= members@.len(),
            out@ == members@.take(j as int),
        decreases members@.len() - j,
    {
        out.push(members[j]);
        assert(members@.take(j + 1) =~= members@.take(j as int).push(members@[j as int]));
        j = j + 1;
    }
    assert(members@.take(members@.len() as int) =~= members@);
    out
}

} // verus!
