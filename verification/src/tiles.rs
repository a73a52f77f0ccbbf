//! The binary tiling tree of a tab: leaves are panes or collections, splits
//! divide their area along an axis. A split keeps its ratio, the share of its
//! first child, as the bit pattern of an `f32`; the tree operations carry it
//! and never compute with it.

use vstd::prelude::*;
use crate::ids::{CollectionId, PaneId};
use crate::layout::{LayoutLeaf, NavDirection, PaneCollection, Rect, overlaps, ranges_overlap, rect_fits};
use crate::schema::SplitDirection;

verus! {

/// The axis along which a split divides its area.
#[derive(Debug, Clone, Copy, PartialEq, Eq, Structural)]
pub enum SplitAxis {
    /// Side by side.
    Horizontal,
    /// One above the other.
    Vertical,
}

/// The axis of a split that opens a new leaf toward `direction`.
pub fn split_axis(direction: SplitDirection) -> (r: SplitAxis)
    ensures
        r == match direction {
            SplitDirection::Right => SplitAxis::Horizontal,
            SplitDirection::Down => SplitAxis::Vertical,
        },
{
    match direction {
        SplitDirection::Right => SplitAxis::Horizontal,
        SplitDirection::Down => SplitAxis::Vertical,
    }
}

/// A node of the tiling tree with typed leaves.
#[derive(Debug, PartialEq, Eq)]
pub enum TypedNode {
    Leaf(LayoutLeaf),
    Split { direction: SplitAxis, ratio: u32, first: Box<TypedNode>, second: Box<TypedNode> },
}

/// The leaves of `n`, left to right.
pub open spec fn leaves_of(n: TypedNode) -> Seq<LayoutLeaf>
    decreases n,
{
    match n {
        TypedNode::Leaf(l) => seq![l],
        TypedNode::Split { first, second, .. } => leaves_of(*first) + leaves_of(*second),
    }
}

/// Append the leaves of `node` to `out`.
pub fn collect_leaves(node: &TypedNode, out: &mut Vec<LayoutLeaf>)
    ensures
        final(out)@ == old(out)@ + leaves_of(*node),
    decreases node,
{
    match node {
        TypedNode::Leaf(l) => {
            out.push(*l);
        },
        TypedNode::Split { first, second, .. } => {
            collect_leaves(first, out);
            collect_leaves(second, out);
            assert(final(out)@ =~= old(out)@ + leaves_of(*node));
        },
    }
}

/// The leaves of `node`, left to right.
pub fn leaves(node: &TypedNode) -> (r: Vec<LayoutLeaf>)
    ensures
        r@ == leaves_of(*node),
{
    let mut out: Vec<LayoutLeaf> = Vec::new();
    collect_leaves(node, &mut out);
    assert(out@ =~= leaves_of(*node));
    out
}

/// `n` with every leaf equal to `target` replaced by a split of `target`
/// (first) and `new_leaf` (second).
pub open spec fn split_at_spec(n: TypedNode, target: LayoutLeaf, direction: SplitAxis, new_leaf: LayoutLeaf, ratio: u32) -> TypedNode
    decreases n,
{
    match n {
        TypedNode::Leaf(l) => if l == target {
            TypedNode::Split {
                direction,
                ratio,
                first: Box::new(TypedNode::Leaf(l)),
                second: Box::new(TypedNode::Leaf(new_leaf)),
            }
        } else {
            n
        },
        TypedNode::Split { direction: d, ratio: q, first, second } => TypedNode::Split {
            direction: d,
            ratio: q,
            first: Box::new(split_at_spec(*first, target, direction, new_leaf, ratio)),
            second: Box::new(split_at_spec(*second, target, direction, new_leaf, ratio)),
        },
    }
}

/// `s` with `x` inserted after every occurrence of `t`.
pub open spec fn insert_after(s: Seq<LayoutLeaf>, t: LayoutLeaf, x: LayoutLeaf) -> Seq<LayoutLeaf>
    decreases s.len(),
{
    if s.len() == 0 {
        s
    } else {
        (if s[0] == t {
            seq![s[0], x]
        } else {
            seq![s[0]]
        }) + insert_after(s.drop_first(), t, x)
    }
}

pub proof fn lemma_insert_after_concat(a: Seq<LayoutLeaf>, b: Seq<LayoutLeaf>, t: LayoutLeaf, x: LayoutLeaf)
    ensures
        insert_after(a + b, t, x) == insert_after(a, t, x) + insert_after(b, t, x),
    decreases a.len(),
{
    if a.len() == 0 {
        assert(a + b =~= b);
    } else {
        assert((a + b).drop_first() =~= a.drop_first() + b);
        lemma_insert_after_concat(a.drop_first(), b, t, x);
        assert((a + b)[0] == a[0]);
    }
}

/// Splitting at `target` puts `new_leaf` right after each occurrence of `target`.
pub proof fn lemma_split_at_leaves(n: TypedNode, target: LayoutLeaf, direction: SplitAxis, new_leaf: LayoutLeaf, ratio: u32)
    ensures
        leaves_of(split_at_spec(n, target, direction, new_leaf, ratio)) == insert_after(leaves_of(n), target, new_leaf),
    decreases n,
{
    match n {
        TypedNode::Leaf(l) => {
            assert(seq![l].drop_first() =~= Seq::<LayoutLeaf>::empty());
            assert(insert_after(seq![l].drop_first(), target, new_leaf) =~= Seq::<LayoutLeaf>::empty());
            assert(leaves_of(TypedNode::Leaf(l)) == seq![l]);
            assert(leaves_of(TypedNode::Leaf(new_leaf)) == seq![new_leaf]);
            if l == target {
                assert(leaves_of(split_at_spec(n, target, direction, new_leaf, ratio)) =~= seq![l, new_leaf]);
                assert(insert_after(seq![l], target, new_leaf) =~= seq![l, new_leaf] + Seq::<LayoutLeaf>::empty());
            } else {
                assert(insert_after(seq![l], target, new_leaf) =~= seq![l] + Seq::<LayoutLeaf>::empty());
            }
        },
        TypedNode::Split { first, second, .. } => {
            lemma_split_at_leaves(*first, target, direction, new_leaf, ratio);
            lemma_split_at_leaves(*second, target, direction, new_leaf, ratio);
            lemma_insert_after_concat(leaves_of(*first), leaves_of(*second), target, new_leaf);
        },
    }
}

/// Replace the leaf `target` by a split of it and `new_leaf`.
pub fn split_at(node: TypedNode, target: LayoutLeaf, direction: SplitAxis, new_leaf: LayoutLeaf, ratio: u32) -> (r: TypedNode)
    ensures
        r == split_at_spec(node, target, direction, new_leaf, ratio),
        leaves_of(r) == insert_after(leaves_of(node), target, new_leaf),
    decreases node,
{
    proof {
        lemma_split_at_leaves(node, target, direction, new_leaf, ratio);
    }
    match node {
        TypedNode::Leaf(l) => if l == target {
            TypedNode::Split {
                direction,
                ratio,
                first: Box::new(TypedNode::Leaf(l)),
                second: Box::new(TypedNode::Leaf(new_leaf)),
            }
        } else {
            TypedNode::Leaf(l)
        },
        TypedNode::Split { direction: d, ratio: q, first, second } => {
            let f = split_at(*first, target, direction, new_leaf, ratio);
            let s = split_at(*second, target, direction, new_leaf, ratio);
            TypedNode::Split { direction: d, ratio: q, first: Box::new(f), second: Box::new(s) }
        },
    }
}

/// `n` without its leaves equal to `target`: a split that loses one side is
/// replaced by the other side; `None` when nothing is left.
pub open spec fn remove_spec(n: TypedNode, target: LayoutLeaf) -> Option<TypedNode>
    decreases n,
{
    match n {
        TypedNode::Leaf(l) => if l == target {
            None
        } else {
            Some(n)
        },
        TypedNode::Split { direction, ratio, first, second } => match (remove_spec(*first, target), remove_spec(*second, target)) {
            (Some(f), Some(s)) => Some(TypedNode::Split { direction, ratio, first: Box::new(f), second: Box::new(s) }),
            (Some(f), None) => Some(f),
            (None, Some(s)) => Some(s),
            (None, None) => None,
        },
    }
}

pub open spec fn not_leaf(t: LayoutLeaf) -> spec_fn(LayoutLeaf) -> bool {
    |l: LayoutLeaf| l != t
}

pub open spec fn opt_leaves(n: Option<TypedNode>) -> Seq<LayoutLeaf> {
    match n {
        Some(x) => leaves_of(x),
        None => seq![],
    }
}

proof fn lemma_filter_concat(a: Seq<LayoutLeaf>, b: Seq<LayoutLeaf>, p: spec_fn(LayoutLeaf) -> bool)
    ensures
        (a + b).filter(p) == a.filter(p) + b.filter(p),
{
    Seq::filter_distributes_over_add(a, b, p);
}

/// Removing `target` keeps the other leaves in order.
pub proof fn lemma_remove_leaves(n: TypedNode, target: LayoutLeaf)
    ensures
        opt_leaves(remove_spec(n, target)) == leaves_of(n).filter(not_leaf(target)),
    decreases n,
{
    reveal(Seq::filter);
    match n {
        TypedNode::Leaf(l) => {
            assert(seq![l].drop_last() =~= Seq::<LayoutLeaf>::empty());
            assert(Seq::<LayoutLeaf>::empty().filter(not_leaf(target)) =~= Seq::<LayoutLeaf>::empty());
            if l == target {
                assert(leaves_of(n).filter(not_leaf(target)) =~= Seq::<LayoutLeaf>::empty());
            } else {
                assert(leaves_of(n).filter(not_leaf(target)) =~= seq![l]);
            }
        },
        TypedNode::Split { first, second, .. } => {
            lemma_remove_leaves(*first, target);
            lemma_remove_leaves(*second, target);
            lemma_filter_concat(leaves_of(*first), leaves_of(*second), not_leaf(target));
            match (remove_spec(*first, target), remove_spec(*second, target)) {
                (Some(f), Some(s)) => {},
                (Some(f), None) => {
                    assert(leaves_of(f) + Seq::<LayoutLeaf>::empty() =~= leaves_of(f));
                },
                (None, Some(s)) => {
                    assert(Seq::<LayoutLeaf>::empty() + leaves_of(s) =~= leaves_of(s));
                },
                (None, None) => {
                    assert(Seq::<LayoutLeaf>::empty() + Seq::<LayoutLeaf>::empty() =~= Seq::<LayoutLeaf>::empty());
                },
            }
        },
    }
}

/// Remove the leaf `target`; `None` when nothing is left.
pub fn remove(node: TypedNode, target: LayoutLeaf) -> (r: Option<TypedNode>)
    ensures
        r == remove_spec(node, target),
        opt_leaves(r) == leaves_of(node).filter(not_leaf(target)),
    decreases node,
{
    proof {
        lemma_remove_leaves(node, target);
    }
    match node {
        TypedNode::Leaf(l) => if l == target {
            None
        } else {
            Some(TypedNode::Leaf(l))
        },
        TypedNode::Split { direction, ratio, first, second } => {
            let f = remove(*first, target);
            let s = remove(*second, target);
            match (f, s) {
                (Some(f), Some(s)) => Some(TypedNode::Split { direction, ratio, first: Box::new(f), second: Box::new(s) }),
                (Some(f), None) => Some(f),
                (None, Some(s)) => Some(s),
                (None, None) => None,
            }
        },
    }
}

/// `l` with the panes `a` and `b` exchanged.
pub open spec fn swap_leaf(l: LayoutLeaf, a: PaneId, b: PaneId) -> LayoutLeaf {
    match l {
        LayoutLeaf::Pane(p) => if p == a {
            LayoutLeaf::Pane(b)
        } else if p == b {
            LayoutLeaf::Pane(a)
        } else {
            l
        },
        LayoutLeaf::Collection(_) => l,
    }
}

/// `n` with the panes `a` and `b` exchanged in its leaves.
pub open spec fn swap_spec(n: TypedNode, a: PaneId, b: PaneId) -> TypedNode
    decreases n,
{
    match n {
        TypedNode::Leaf(l) => TypedNode::Leaf(swap_leaf(l, a, b)),
        TypedNode::Split { direction, ratio, first, second } => TypedNode::Split {
            direction,
            ratio,
            first: Box::new(swap_spec(*first, a, b)),
            second: Box::new(swap_spec(*second, a, b)),
        },
    }
}

pub proof fn lemma_swap_leaves(n: TypedNode, a: PaneId, b: PaneId)
    ensures
        leaves_of(swap_spec(n, a, b)) == leaves_of(n).map_values(|l: LayoutLeaf| swap_leaf(l, a, b)),
    decreases n,
{
    match n {
        TypedNode::Leaf(l) => {
            assert(leaves_of(n).map_values(|l: LayoutLeaf| swap_leaf(l, a, b)) =~= seq![swap_leaf(l, a, b)]);
        },
        TypedNode::Split { first, second, .. } => {
            lemma_swap_leaves(*first, a, b);
            lemma_swap_leaves(*second, a, b);
            assert((leaves_of(*first) + leaves_of(*second)).map_values(|l: LayoutLeaf| swap_leaf(l, a, b))
                =~= leaves_of(*first).map_values(|l: LayoutLeaf| swap_leaf(l, a, b)) + leaves_of(*second).map_values(
                |l: LayoutLeaf| swap_leaf(l, a, b),
            ));
        },
    }
}

/// Exchange the panes `a` and `b` wherever they are leaves.
pub fn swap_panes_in(node: TypedNode, a: PaneId, b: PaneId) -> (r: TypedNode)
    ensures
        r == swap_spec(node, a, b),
        leaves_of(r) == leaves_of(node).map_values(|l: LayoutLeaf| swap_leaf(l, a, b)),
    decreases node,
{
    proof {
        lemma_swap_leaves(node, a, b);
    }
    match node {
        TypedNode::Leaf(l) => {
            let swapped = match l {
                LayoutLeaf::Pane(p) => if p == a {
                    LayoutLeaf::Pane(b)
                } else if p == b {
                    LayoutLeaf::Pane(a)
                } else {
                    l
                },
                LayoutLeaf::Collection(_) => l,
            };
            TypedNode::Leaf(swapped)
        },
        TypedNode::Split { direction, ratio, first, second } => {
            let f = swap_panes_in(*first, a, b);
            let s = swap_panes_in(*second, a, b);
            TypedNode::Split { direction, ratio, first: Box::new(f), second: Box::new(s) }
        },
    }
}

/// The ratio of the split reached from `n` along `path` (`false` the first
/// child, `true` the second).
pub open spec fn ratio_at(n: TypedNode, path: Seq<bool>) -> Option<u32>
    decreases path.len(),
{
    match n {
        TypedNode::Leaf(_) => None,
        TypedNode::Split { ratio, first, second, .. } => if path.len() == 0 {
            Some(ratio)
        } else if path[0] {
            ratio_at(*second, path.drop_first())
        } else {
            ratio_at(*first, path.drop_first())
        },
    }
}

/// `n` with the ratio of the split reached along `path` set to `ratio`, and
/// whether there is such a split.
pub open spec fn set_ratio_spec(n: TypedNode, path: Seq<bool>, ratio: u32) -> (TypedNode, bool)
    decreases path.len(),
{
    match n {
        TypedNode::Leaf(_) => (n, false),
        TypedNode::Split { direction, ratio: q, first, second } => if path.len() == 0 {
            (TypedNode::Split { direction, ratio, first, second }, true)
        } else if path[0] {
            let (s, changed) = set_ratio_spec(*second, path.drop_first(), ratio);
            (TypedNode::Split { direction, ratio: q, first, second: Box::new(s) }, changed)
        } else {
            let (f, changed) = set_ratio_spec(*first, path.drop_first(), ratio);
            (TypedNode::Split { direction, ratio: q, first: Box::new(f), second }, changed)
        },
    }
}

/// The ratio of the split reached along `path[from..]`.
pub fn get_ratio(node: &TypedNode, path: &[bool], from: usize) -> (r: Option<u32>)
    requires
        from <= path@.len(),
    ensures
        r == ratio_at(*node, path@.subrange(from as int, path@.len() as int)),
    decreases path@.len() - from,
{
    let ghost rest = path@.subrange(from as int, path@.len() as int);
    match node {
        TypedNode::Leaf(_) => None,
        TypedNode::Split { ratio, first, second, .. } => if from == path.len() {
            Some(*ratio)
        } else {
            assert(rest.drop_first() =~= path@.subrange(from + 1, path@.len() as int));
            if path[from] {
                get_ratio(second, path, from + 1)
            } else {
                get_ratio(first, path, from + 1)
            }
        },
    }
}

/// Set the ratio of the split reached along `path[from..]`; whether there is one.
pub fn set_ratio(node: TypedNode, path: &[bool], from: usize, ratio: u32) -> (r: (TypedNode, bool))
    requires
        from <= path@.len(),
    ensures
        r == set_ratio_spec(node, path@.subrange(from as int, path@.len() as int), ratio),
    decreases path@.len() - from,
{
    let ghost rest = path@.subrange(from as int, path@.len() as int);
    match node {
        TypedNode::Leaf(l) => (TypedNode::Leaf(l), false),
        TypedNode::Split { direction, ratio: q, first, second } => if from == path.len() {
            (TypedNode::Split { direction, ratio, first, second }, true)
        } else {
            assert(rest.drop_first() =~= path@.subrange(from + 1, path@.len() as int));
            if path[from] {
                let (s, changed) = set_ratio(*second, path, from + 1, ratio);
                (TypedNode::Split { direction, ratio: q, first, second: Box::new(s) }, changed)
            } else {
                let (f, changed) = set_ratio(*first, path, from + 1, ratio);
                (TypedNode::Split { direction, ratio: q, first: Box::new(f), second }, changed)
            }
        },
    }
}

/// Every split of `n` in preorder with the path that reaches it from the
/// root of the tree, `prefix` being the path to `n`.
pub open spec fn ratio_list(n: TypedNode, prefix: Seq<bool>) -> Seq<(Seq<bool>, u32)>
    decreases n,
{
    match n {
        TypedNode::Leaf(_) => seq![],
        TypedNode::Split { ratio, first, second, .. } => seq![(prefix, ratio)] + ratio_list(*first, prefix.push(false))
            + ratio_list(*second, prefix.push(true)),
    }
}

pub open spec fn ratio_entries(v: Seq<(Vec<bool>, u32)>) -> Seq<(Seq<bool>, u32)> {
    v.map_values(|e: (Vec<bool>, u32)| (e.0@, e.1))
}

fn copy_path(path: &Vec<bool>) -> (r: Vec<bool>)
    ensures
        r@ == path@,
{
    let mut out: Vec<bool> = Vec::new();
    let mut i: usize = 0;
    while i < path.len()
        invariant
            0 <= i <= path@.len(),
            out@ == path@.take(i as int),
        decreases path@.len() - i,
    {
        out.push(path[i]);
        assert(path@.take(i + 1) =~= path@.take(i as int).push(path@[i as int]));
        i = i + 1;
    }
    assert(path@.take(path@.len() as int) =~= path@);
    out
}

fn collect_ratios(node: &TypedNode, path: &mut Vec<bool>, out: &mut Vec<(Vec<bool>, u32)>)
    ensures
        final(path)@ == old(path)@,
        ratio_entries(final(out)@) == ratio_entries(old(out)@) + ratio_list(*node, old(path)@),
    decreases node,
{
    match node {
        TypedNode::Leaf(_) => {
            assert(ratio_entries(out@) =~= ratio_entries(out@) + Seq::<(Seq<bool>, u32)>::empty());
        },
        TypedNode::Split { ratio, first, second, .. } => {
            let ghost start = ratio_entries(out@);
            let ghost prefix = path@;
            let here = copy_path(path);
            out.push((here, *ratio));
            assert(ratio_entries(out@) =~= start + seq![(prefix, *ratio)]);
            path.push(false);
            collect_ratios(first, path, out);
            path.pop();
            assert(path@ =~= prefix);
            path.push(true);
            collect_ratios(second, path, out);
            path.pop();
            assert(path@ =~= prefix);
            assert(ratio_entries(out@) =~= start + ratio_list(*node, prefix));
        },
    }
}

/// Every split of the tree with the path that reaches it, in preorder.
pub fn split_ratios(node: &TypedNode) -> (r: Vec<(Vec<bool>, u32)>)
    ensures
        ratio_entries(r@) == ratio_list(*node, seq![]),
{
    let mut out: Vec<(Vec<bool>, u32)> = Vec::new();
    let mut path: Vec<bool> = Vec::new();
    assert(path@ =~= Seq::<bool>::empty());
    collect_ratios(node, &mut path, &mut out);
    assert(ratio_entries(out@) =~= ratio_list(*node, seq![]));
    out
}

/// The pane-only form of a tiling tree.
#[derive(Debug, PartialEq, Eq)]
pub enum Node {
    Pane(PaneId),
    Split { direction: SplitAxis, ratio: u32, first: Box<Node>, second: Box<Node> },
}

/// The typed tree of a pane-only tree.
pub open spec fn from_legacy_spec(n: Node) -> TypedNode
    decreases n,
{
    match n {
        Node::Pane(p) => TypedNode::Leaf(LayoutLeaf::Pane(p)),
        Node::Split { direction, ratio, first, second } => TypedNode::Split {
            direction,
            ratio,
            first: Box::new(from_legacy_spec(*first)),
            second: Box::new(from_legacy_spec(*second)),
        },
    }
}

/// The typed tree of a pane-only tree.
pub fn typed_from_legacy(node: &Node) -> (r: TypedNode)
    ensures
        r == from_legacy_spec(*node),
    decreases node,
{
    match node {
        Node::Pane(p) => TypedNode::Leaf(LayoutLeaf::Pane(*p)),
        Node::Split { direction, ratio, first, second } => {
            let f = typed_from_legacy(first);
            let s = typed_from_legacy(second);
            TypedNode::Split { direction: *direction, ratio: *ratio, first: Box::new(f), second: Box::new(s) }
        },
    }
}

/// Collection identities occur at most once in `cs`.
pub open spec fn distinct_collections(cs: Seq<PaneCollection>) -> bool {
    forall|i: int, j: int| 0 <= i < cs.len() && 0 <= j < cs.len() && i != j ==> #[trigger] cs[i].identity() != #[trigger] cs[j].identity()
}

/// Some collection of `cs` has identity `id`.
pub open spec fn has_collection(cs: Seq<PaneCollection>, id: CollectionId) -> bool {
    exists|i: int| 0 <= i < cs.len() && #[trigger] cs[i].identity() == id
}

/// The position of the collection with identity `id`.
pub open spec fn collection_index(cs: Seq<PaneCollection>, id: CollectionId) -> int {
    choose|i: int| 0 <= i < cs.len() && #[trigger] cs[i].identity() == id
}

/// The selected member of the collection `id`, if it exists and has one.
pub open spec fn selected_in(cs: Seq<PaneCollection>, id: CollectionId) -> Option<PaneId> {
    if has_collection(cs, id) {
        cs[collection_index(cs, id)].selection()
    } else {
        None
    }
}

/// Where the collection `id` is in `cs`.
pub fn find_collection(cs: &Vec<PaneCollection>, id: CollectionId) -> (r: Option<usize>)
    requires
        distinct_collections(cs@),
    ensures
        match r {
            Some(i) => i < cs@.len() && cs@[i as int].identity() == id && i == collection_index(cs@, id),
            None => !has_collection(cs@, id),
        },
{
    let mut i: usize = 0;
    while i < cs.len()
        invariant
            distinct_collections(cs@),
            0 <= i <= cs@.len(),
            forall|j: int| 0 <= j < i ==> #[trigger] cs@[j].identity() != id,
        decreases cs@.len() - i,
    {
        if cs[i].collection_id() == id {
            assert(has_collection(cs@, id));
            let ghost c = collection_index(cs@, id);
            assert(0 <= c < cs@.len() && cs@[c].identity() == id);
            assert(cs@[i as int].identity() == id);
            assert(c == i);
            return Some(i);
        }
        i = i + 1;
    }
    None
}

/// The pane-only form of a typed tree: a collection stands for its selected
/// member, and a collection without one leaves no trace (a split keeps its
/// other side); `None` when nothing is left.
pub open spec fn legacy_spec(n: TypedNode, cs: Seq<PaneCollection>) -> Option<Node>
    decreases n,
{
    match n {
        TypedNode::Leaf(LayoutLeaf::Pane(p)) => Some(Node::Pane(p)),
        TypedNode::Leaf(LayoutLeaf::Collection(id)) => match selected_in(cs, id) {
            Some(p) => Some(Node::Pane(p)),
            None => None,
        },
        TypedNode::Split { direction, ratio, first, second } => match (legacy_spec(*first, cs), legacy_spec(*second, cs)) {
            (Some(f), Some(s)) => Some(Node::Split { direction, ratio, first: Box::new(f), second: Box::new(s) }),
            (Some(f), None) => Some(f),
            (None, Some(s)) => Some(s),
            (None, None) => None,
        },
    }
}

/// The pane-only form of a typed tree.
pub fn legacy_projection(node: &TypedNode, cs: &Vec<PaneCollection>) -> (r: Option<Node>)
    requires
        distinct_collections(cs@),
    ensures
        r == legacy_spec(*node, cs@),
    decreases node,
{
    match node {
        TypedNode::Leaf(LayoutLeaf::Pane(p)) => Some(Node::Pane(*p)),
        TypedNode::Leaf(LayoutLeaf::Collection(id)) => match find_collection(cs, *id) {
            Some(i) => match cs[i].selected() {
                Some(p) => Some(Node::Pane(p)),
                None => None,
            },
            None => None,
        },
        TypedNode::Split { direction, ratio, first, second } => {
            let f = legacy_projection(first, cs);
            let s = legacy_projection(second, cs);
            match (f, s) {
                (Some(f), Some(s)) => Some(Node::Split { direction: *direction, ratio: *ratio, first: Box::new(f), second: Box::new(s) }),
                (Some(f), None) => Some(f),
                (None, Some(s)) => Some(s),
                (None, None) => None,
            }
        },
    }
}

proof fn lemma_insert_then_filter(s: Seq<LayoutLeaf>, t: LayoutLeaf, x: LayoutLeaf)
    requires
        !s.contains(x),
    ensures
        insert_after(s, t, x).filter(not_leaf(x)) == s,
    decreases s.len(),
{
    if s.len() > 0 {
        let rest = s.drop_first();
        assert(!rest.contains(x)) by {
            if rest.contains(x) {
                let i = choose|i: int| 0 <= i < rest.len() && rest[i] == x;
                assert(s[i + 1] == x);
            }
        }
        lemma_insert_then_filter(rest, t, x);
        let head = if s[0] == t { seq![s[0], x] } else { seq![s[0]] };
        assert(s[0] != x);
        Seq::filter_distributes_over_add(head, insert_after(rest, t, x), not_leaf(x));
        reveal(Seq::filter);
        assert(seq![s[0]].drop_last() =~= Seq::<LayoutLeaf>::empty());
        assert(Seq::<LayoutLeaf>::empty().filter(not_leaf(x)) =~= Seq::<LayoutLeaf>::empty());
        assert(seq![s[0]].filter(not_leaf(x)) =~= seq![s[0]]);
        if s[0] == t {
            assert(seq![s[0], x].drop_last() =~= seq![s[0]]);
            assert(seq![s[0], x].filter(not_leaf(x)) =~= seq![s[0]]);
        }
        assert(seq![s[0]] + rest =~= s);
    }
}

/// Removing the leaf that a split just added gives back the leaves as they
/// were, when that leaf was new to the tree.
pub proof fn lemma_split_then_remove(n: TypedNode, target: LayoutLeaf, direction: SplitAxis, new_leaf: LayoutLeaf, ratio: u32)
    requires
        !leaves_of(n).contains(new_leaf),
    ensures
        opt_leaves(remove_spec(split_at_spec(n, target, direction, new_leaf, ratio), new_leaf)) == leaves_of(n),
{
    let split = split_at_spec(n, target, direction, new_leaf, ratio);
    lemma_split_at_leaves(n, target, direction, new_leaf, ratio);
    lemma_remove_leaves(split, new_leaf);
    lemma_insert_then_filter(leaves_of(n), target, new_leaf);
}

/// Swapping two panes twice gives back the tree.
pub proof fn lemma_swap_twice(n: TypedNode, a: PaneId, b: PaneId)
    ensures
        swap_spec(swap_spec(n, a, b), a, b) == n,
    decreases n,
{
    match n {
        TypedNode::Leaf(l) => {},
        TypedNode::Split { first, second, .. } => {
            lemma_swap_twice(*first, a, b);
            lemma_swap_twice(*second, a, b);
        },
    }
}

/// After setting the ratio of the split along `path`, that split has the
/// new ratio; without such a split nothing changes.
pub proof fn lemma_set_then_get_ratio(n: TypedNode, path: Seq<bool>, ratio: u32)
    ensures
        set_ratio_spec(n, path, ratio).1 <==> ratio_at(n, path) is Some,
        set_ratio_spec(n, path, ratio).1 ==> ratio_at(set_ratio_spec(n, path, ratio).0, path) == Some(ratio),
        !set_ratio_spec(n, path, ratio).1 ==> set_ratio_spec(n, path, ratio).0 == n,
    decreases path.len(),
{
    match n {
        TypedNode::Leaf(_) => {},
        TypedNode::Split { first, second, .. } => if path.len() > 0 {
            lemma_set_then_get_ratio(*first, path.drop_first(), ratio);
            lemma_set_then_get_ratio(*second, path.drop_first(), ratio);
        },
    }
}

/// A split boundary, for resizing by dragging or by key.
pub struct SplitBorder {
    /// Where the divider lies: a column for a horizontal split, a row for a vertical one.
    pub pos: u16,
    pub direction: SplitAxis,
    /// The bit pattern of the ratio of the first child.
    pub ratio: u32,
    /// The area of the split.
    pub area: Rect,
    /// The path from the root to the split (`false` the first child, `true` the second).
    pub path: Vec<bool>,
}

/// How far the divider `pos` lies from the edge of `focused` facing `nav`.
pub open spec fn edge_distance(pos: u16, focused: Rect, nav: NavDirection) -> int {
    let edge: int = match nav {
        NavDirection::Left => focused.x as int,
        NavDirection::Right => focused.x + focused.width,
        NavDirection::Up => focused.y as int,
        NavDirection::Down => focused.y + focused.height,
    };
    if pos >= edge {
        pos - edge
    } else {
        edge - pos
    }
}

/// The distance is measured from the edge of `focused` that faces `nav`:
/// the left column for Left, the column just past the right side for Right,
/// the top row for Up and the row just past the bottom for Down. A divider
/// on that edge is at distance zero, nowhere else is, and each cell further
/// away on either side adds one.
pub proof fn lemma_edge_distance_faces_direction(pos: u16, focused: Rect)
    requires
        rect_fits(focused),
    ensures
        edge_distance(focused.x, focused, NavDirection::Left) == 0,
        edge_distance((focused.x + focused.width) as u16, focused, NavDirection::Right) == 0,
        edge_distance(focused.y, focused, NavDirection::Up) == 0,
        edge_distance((focused.y + focused.height) as u16, focused, NavDirection::Down) == 0,
        edge_distance(pos, focused, NavDirection::Left) == 0 ==> pos == focused.x,
        edge_distance(pos, focused, NavDirection::Right) == 0 ==> pos == focused.x + focused.width,
        edge_distance(pos, focused, NavDirection::Up) == 0 ==> pos == focused.y,
        edge_distance(pos, focused, NavDirection::Down) == 0 ==> pos == focused.y + focused.height,
        forall|nav: NavDirection| #![trigger edge_distance(pos, focused, nav)] edge_distance(pos, focused, nav) >= 0,
        pos < u16::MAX && pos >= focused.y ==> edge_distance((pos + 1) as u16, focused, NavDirection::Up)
            == edge_distance(pos, focused, NavDirection::Up) + 1,
        0 < pos && pos <= focused.y ==> edge_distance((pos - 1) as u16, focused, NavDirection::Up)
            == edge_distance(pos, focused, NavDirection::Up) + 1,
        pos < u16::MAX && pos >= focused.y + focused.height ==> edge_distance((pos + 1) as u16, focused, NavDirection::Down)
            == edge_distance(pos, focused, NavDirection::Down) + 1,
        0 < pos && pos <= focused.y + focused.height ==> edge_distance((pos - 1) as u16, focused, NavDirection::Down)
            == edge_distance(pos, focused, NavDirection::Down) + 1,
        pos < u16::MAX && pos >= focused.x ==> edge_distance((pos + 1) as u16, focused, NavDirection::Left)
            == edge_distance(pos, focused, NavDirection::Left) + 1,
        0 < pos && pos <= focused.x ==> edge_distance((pos - 1) as u16, focused, NavDirection::Left)
            == edge_distance(pos, focused, NavDirection::Left) + 1,
        pos < u16::MAX && pos >= focused.x + focused.width ==> edge_distance((pos + 1) as u16, focused, NavDirection::Right)
            == edge_distance(pos, focused, NavDirection::Right) + 1,
        0 < pos && pos <= focused.x + focused.width ==> edge_distance((pos - 1) as u16, focused, NavDirection::Right)
            == edge_distance(pos, focused, NavDirection::Right) + 1,
{
}

pub fn split_edge_distance(split: &SplitBorder, focused: Rect, nav: NavDirection) -> (r: u32)
    requires
        rect_fits(focused),
    ensures
        r == edge_distance(split.pos, focused, nav),
{
    let edge: u16 = match nav {
        NavDirection::Left => focused.x,
        NavDirection::Right => focused.x + focused.width,
        NavDirection::Up => focused.y,
        NavDirection::Down => focused.y + focused.height,
    };
    if split.pos >= edge {
        (split.pos - edge) as u32
    } else {
        (edge - split.pos) as u32
    }
}

/// The divider lies on the edge of `focused` facing `nav`, give or take a cell.
pub fn split_on_requested_edge(split: &SplitBorder, focused: Rect, nav: NavDirection) -> (r: bool)
    requires
        rect_fits(focused),
    ensures
        r == (edge_distance(split.pos, focused, nav) <= 1),
{
    split_edge_distance(split, focused, nav) <= 1
}

/// The split's area spans the focused pane across the direction of `nav`.
pub open spec fn area_spans(area: Rect, focused: Rect, nav: NavDirection) -> bool {
    match nav {
        NavDirection::Left | NavDirection::Right => overlaps(area.y, area.height, focused.y, focused.height),
        NavDirection::Up | NavDirection::Down => overlaps(area.x, area.width, focused.x, focused.width),
    }
}

pub fn split_area_overlaps_focused_pane(split: &SplitBorder, focused: Rect, nav: NavDirection) -> (r: bool)
    requires
        rect_fits(focused),
        rect_fits(split.area),
    ensures
        r == area_spans(split.area, focused, nav),
{
    match nav {
        NavDirection::Left | NavDirection::Right => ranges_overlap(split.area.y, split.area.height, focused.y, focused.height),
        NavDirection::Up | NavDirection::Down => ranges_overlap(split.area.x, split.area.width, focused.x, focused.width),
    }
}

/// Split `s` can resize `focused` toward `nav` along `axis`.
pub open spec fn resize_candidate(s: SplitBorder, axis: SplitAxis, focused: Rect, nav: NavDirection) -> bool {
    &&& s.direction == axis
    &&& area_spans(s.area, focused, nav)
    &&& edge_distance(s.pos, focused, nav) <= 1
}

/// The first of the candidate splits nearest to the edge: the one a resize moves.
pub fn nearest_resize_split(splits: &[SplitBorder], axis: SplitAxis, focused: Rect, nav: NavDirection) -> (r: Option<usize>)
    requires
        rect_fits(focused),
        forall|i: int| 0 <= i < splits@.len() ==> rect_fits(#[trigger] splits@[i].area),
    ensures
        match r {
            None => forall|j: int| 0 <= j < splits@.len() ==> !resize_candidate(#[trigger] splits@[j], axis, focused, nav),
            Some(i) => {
                &&& i < splits@.len()
                &&& resize_candidate(splits@[i as int], axis, focused, nav)
                &&& forall|j: int| 0 <= j < splits@.len() && resize_candidate(#[trigger] splits@[j], axis, focused, nav)
                    ==> edge_distance(splits@[i as int].pos, focused, nav) <= edge_distance(splits@[j].pos, focused, nav)
                &&& forall|j: int| 0 <= j < i && resize_candidate(#[trigger] splits@[j], axis, focused, nav)
                    ==> edge_distance(splits@[i as int].pos, focused, nav) < edge_distance(splits@[j].pos, focused, nav)
            },
        },
{
    let mut best: Option<usize> = None;
    let mut best_distance: u32 = 0;
    let mut i: usize = 0;
    while i < splits.len()
        invariant
            rect_fits(focused),
            forall|k: int| 0 <= k < splits@.len() ==> rect_fits(#[trigger] splits@[k].area),
            0 <= i <= splits@.len(),
            match best {
                None => forall|j: int| 0 <= j < i ==> !resize_candidate(#[trigger] splits@[j], axis, focused, nav),
                Some(b) => {
                    &&& b < i
                    &&& resize_candidate(splits@[b as int], axis, focused, nav)
                    &&& best_distance == edge_distance(splits@[b as int].pos, focused, nav)
                    &&& forall|j: int| 0 <= j < i && resize_candidate(#[trigger] splits@[j], axis, focused, nav)
                        ==> best_distance <= edge_distance(splits@[j].pos, focused, nav)
                    &&& forall|j: int| 0 <= j < b && resize_candidate(#[trigger] splits@[j], axis, focused, nav)
                        ==> best_distance < edge_distance(splits@[j].pos, focused, nav)
                },
            },
        decreases splits@.len() - i,
    {
        let s = &splits[i];
        if s.direction == axis && split_area_overlaps_focused_pane(s, focused, nav) && split_on_requested_edge(s, focused, nav) {
            let d = split_edge_distance(s, focused, nav);
            match best {
                None => {
                    best = Some(i);
                    best_distance = d;
                },
                Some(_) => if d < best_distance {
                    best = Some(i);
                    best_distance = d;
                },
            }
        }
        i = i + 1;
    }
    best
}

} // verus!
