//! The model of tombstone collection: which records a collection pass
//! removes, and why the forest stays well formed without them.

use vstd::prelude::*;
use vstd::set_lib::{lemma_len_subset, lemma_set_subset_finite};
use crate::ids::lemma_delegation_id_value_injective;
use crate::forest::{
    Forest, acyclic, chain_len, ids_consistent, panes_unique, parent_key, parents_present,
    lemma_chain_len_bound, lemma_chain_len_fuel, lemma_removed_chain,
};

verus! {

broadcast use lemma_delegation_id_value_injective;

/// Whether some record names `k` as its parent.
pub open spec fn has_child(m: Forest, k: u64) -> bool {
    exists|c: u64| #[trigger] m.contains_key(c) && parent_key(m[c]) == Some(k)
}

/// The tombstoned records that no record names as its parent.
pub open spec fn tombstone_leaves(m: Forest) -> Set<u64> {
    m.dom().filter(|k: u64| m[k].tombstone && !has_child(m, k))
}

pub open spec fn increasing(q: Seq<u64>) -> bool {
    forall|a: int, b: int| 0 <= a < b < q.len() ==> #[trigger] q[a] < #[trigger] q[b]
}

/// The members of a finite set, in increasing order.
pub open spec fn ascending(s: Set<u64>) -> Seq<u64> {
    choose|q: Seq<u64>| increasing(q) && q.to_set() == s
}

/// Every structural property of a well formed forest but normalized ranks.
pub open spec fn shaped(m: Forest) -> bool {
    &&& m.dom().finite()
    &&& ids_consistent(m)
    &&& panes_unique(m)
    &&& parents_present(m)
    &&& acyclic(m)
}

/// The numbers of the records that tombstone collection removes: the
/// tombstoned leaves in increasing order, then those of the forest left
/// without them, and so on until no tombstoned leaf remains.
pub open spec fn collected(m: Forest) -> Seq<u64>
    decreases m.dom().len(),
    when m.dom().finite()
{
    let l = tombstone_leaves(m);
    if l.len() == 0 {
        Seq::empty()
    } else {
        proof {
            lemma_leaves_shrink(m);
        }
        ascending(l) + collected(m.remove_keys(l))
    }
}

/// Removing a nonempty set of tombstoned leaves makes the forest smaller.
pub proof fn lemma_leaves_shrink(m: Forest)
    requires
        m.dom().finite(),
        tombstone_leaves(m).len() != 0,
    ensures
        tombstone_leaves(m).finite(),
        m.remove_keys(tombstone_leaves(m)).dom().finite(),
        m.remove_keys(tombstone_leaves(m)).dom().len() < m.dom().len(),
{
    let l = tombstone_leaves(m);
    lemma_set_subset_finite(m.dom(), l);
    assert(l.contains(l.choose()));
    let x = l.choose();
    let rest = m.remove_keys(l).dom();
    assert(rest =~= m.dom().difference(l));
    assert(rest.subset_of(m.dom().remove(x)));
    lemma_len_subset(rest, m.dom().remove(x));
}

/// Two increasing sequences with the same members are equal.
pub proof fn lemma_increasing_unique(a: Seq<u64>, b: Seq<u64>)
    requires
        increasing(a),
        increasing(b),
        a.to_set() == b.to_set(),
    ensures
        a == b,
    decreases a.len(),
{
    if a.len() == 0 {
        if b.len() > 0 {
            assert(b.to_set().contains(b[0]));
        }
        assert(a =~= b);
    } else {
        assert(a.to_set().contains(a[0]));
        assert(b.len() > 0);
        assert(b.to_set().contains(b[0]));
        let ia = choose|i: int| 0 <= i < a.len() && a[i] == b[0];
        let ib = choose|i: int| 0 <= i < b.len() && b[i] == a[0];
        assert(a[0] <= a[ia]);
        assert(b[0] <= b[ib]);
        assert(a[0] == b[0]);
        let a1 = a.drop_first();
        let b1 = b.drop_first();
        assert(a1.to_set() =~= b1.to_set()) by {
            assert forall|x: u64| a1.to_set().contains(x) implies b1.to_set().contains(x) by {
                let i = choose|i: int| 0 <= i < a1.len() && a1[i] == x;
                assert(a[i + 1] == x);
                assert(a.to_set().contains(x));
                let j = choose|j: int| 0 <= j < b.len() && b[j] == x;
                assert(j != 0);
                assert(b1[j - 1] == x);
            }
            assert forall|x: u64| b1.to_set().contains(x) implies a1.to_set().contains(x) by {
                let i = choose|i: int| 0 <= i < b1.len() && b1[i] == x;
                assert(b[i + 1] == x);
                assert(b.to_set().contains(x));
                let j = choose|j: int| 0 <= j < a.len() && a[j] == x;
                assert(j != 0);
                assert(a1[j - 1] == x);
            }
        }
        lemma_increasing_unique(a1, b1);
        assert(a =~= b) by {
            assert forall|i: int| 0 <= i < a.len() implies a[i] == b[i] by {
                if i > 0 {
                    assert(a[i] == a1[i - 1]);
                    assert(b[i] == b1[i - 1]);
                }
            }
        }
    }
}

/// An increasing sequence is the ascending listing of its members.
pub proof fn lemma_ascending(q: Seq<u64>)
    requires
        increasing(q),
    ensures
        ascending(q.to_set()) == q,
{
    let s = q.to_set();
    assert(increasing(q) && q.to_set() == s);
    let p = ascending(s);
    lemma_increasing_unique(p, q);
}

/// Removing records none of which is a parent keeps every structural
/// property of the forest.
pub proof fn lemma_remove_leaves_shaped(m: Forest, l: Set<u64>)
    requires
        shaped(m),
        forall|k: u64| #[trigger] l.contains(k) ==> !has_child(m, k),
    ensures
        shaped(m.remove_keys(l)),
{
    let b = m.remove_keys(l);
    assert(b.dom() =~= m.dom().difference(l));
    lemma_set_subset_finite(m.dom(), b.dom());
    assert(ids_consistent(b)) by {
        assert forall|k: u64| #[trigger] b.contains_key(k) implies b[k].id.value() == k && k != 0 by {
            assert(m.contains_key(k));
        }
    }
    assert(panes_unique(b)) by {
        assert forall|x: u64, y: u64|
            #![trigger b[x].pane_id, b[y].pane_id]
            b.contains_key(x) && b.contains_key(y) && x != y && b[x].pane_id is Some implies b[x].pane_id
                != b[y].pane_id by {
            assert(m[x].pane_id != m[y].pane_id);
        }
    }
    assert(parents_present(b)) by {
        assert forall|k: u64| #[trigger] b.contains_key(k) implies match b[k].parent_id {
            Some(p) => b.contains_key(p.value()),
            None => true,
        } by {
            if let Some(p) = b[k].parent_id {
                assert(m.contains_key(k) && parent_key(m[k]) == Some(p.value()));
                assert(has_child(m, p.value()));
                assert(!l.contains(p.value()));
                assert(m.contains_key(p.value()));
            }
        }
    }
    assert(acyclic(b)) by {
        assert forall|k: u64| b.contains_key(k) implies (#[trigger] chain_len(b, k, b.dom().len())) is Some by {
            let n = m.dom().len();
            assert(m.contains_key(k));
            assert(chain_len(m, k, n) is Some);
            lemma_removed_chain(m, b, k, n);
            lemma_chain_len_bound(b, k, n);
            lemma_chain_len_fuel(b, k, n, b.dom().len());
        }
    }
}

/// Every finite set of numbers has an ascending listing.
pub proof fn lemma_ascending_exists(s: Set<u64>)
    requires
        s.finite(),
    ensures
        increasing(ascending(s)),
        ascending(s).to_set() == s,
    decreases s.len(),
{
    if s.len() == 0 {
        let q = Seq::<u64>::empty();
        assert(q.to_set() =~= s);
        assert(increasing(q) && q.to_set() == s);
    } else {
        crate::repair::lemma_least_key(s);
        let a = choose|x: u64| s.contains(x) && forall|t: u64| s.contains(t) ==> x <= t;
        let rest = s.remove(a);
        lemma_ascending_exists(rest);
        let tail = ascending(rest);
        let q = seq![a] + tail;
        assert(increasing(q)) by {
            assert forall|i: int, j: int| 0 <= i < j < q.len() implies #[trigger] q[i] < #[trigger] q[j] by {
                if i == 0 {
                    assert(q[j] == tail[j - 1]);
                    assert(tail.to_set().contains(tail[j - 1]));
                    assert(rest.contains(q[j]));
                } else {
                    assert(q[i] == tail[i - 1] && q[j] == tail[j - 1]);
                }
            }
        }
        assert(q.to_set() =~= s) by {
            assert forall|x: u64| q.to_set().contains(x) <==> s.contains(x) by {
                if q.to_set().contains(x) {
                    let i = choose|i: int| 0 <= i < q.len() && q[i] == x;
                    if i > 0 {
                        assert(tail[i - 1] == x);
                        assert(tail.to_set().contains(x));
                    }
                }
                if s.contains(x) && x != a {
                    assert(rest.contains(x));
                    assert(tail.to_set().contains(x));
                    let i = choose|i: int| 0 <= i < tail.len() && tail[i] == x;
                    assert(q[i + 1] == x);
                }
                if x == a {
                    assert(q[0] == a);
                }
            }
        }
    }
}

/// Collection removes only tombstones: every collected number names a
/// tombstoned record of the forest.
pub proof fn lemma_collected_were_tombstones(m: Forest)
    requires
        m.dom().finite(),
    ensures
        forall|x: u64| #[trigger] collected(m).contains(x) ==> m.contains_key(x) && m[x].tombstone,
    decreases m.dom().len(),
{
    let l = tombstone_leaves(m);
    if l.len() != 0 {
        lemma_leaves_shrink(m);
        lemma_ascending_exists(l);
        let rest = m.remove_keys(l);
        lemma_collected_were_tombstones(rest);
        assert(collected(m) == ascending(l) + collected(rest));
        assert forall|x: u64| #[trigger] collected(m).contains(x) implies m.contains_key(x) && m[x].tombstone by {
            let i = choose|i: int| 0 <= i < collected(m).len() && collected(m)[i] == x;
            if i < ascending(l).len() {
                assert(ascending(l)[i] == x);
                assert(ascending(l).to_set().contains(x));
            } else {
                assert(collected(rest)[i - ascending(l).len()] == x);
                assert(collected(rest).contains(x));
            }
        }
    }
}

/// Collection stops only when no tombstoned record without children is left.
pub proof fn lemma_collection_exhausts_leaves(m: Forest)
    requires
        m.dom().finite(),
    ensures
        m.remove_keys(collected(m).to_set()).dom().finite(),
        tombstone_leaves(m.remove_keys(collected(m).to_set())).len() == 0,
    decreases m.dom().len(),
{
    let l = tombstone_leaves(m);
    if l.len() == 0 {
        assert(collected(m) == Seq::<u64>::empty());
        assert(m.remove_keys(collected(m).to_set()) =~= m);
    } else {
        lemma_leaves_shrink(m);
        lemma_ascending_exists(l);
        let rest = m.remove_keys(l);
        lemma_collection_exhausts_leaves(rest);
        let c = collected(m);
        assert(c == ascending(l) + collected(rest));
        assert(c.to_set() =~= l.union(collected(rest).to_set())) by {
            assert forall|x: u64| c.to_set().contains(x) <==> l.union(collected(rest).to_set()).contains(x) by {
                if c.to_set().contains(x) {
                    let i = choose|i: int| 0 <= i < c.len() && c[i] == x;
                    if i < ascending(l).len() {
                        assert(ascending(l)[i] == x);
                        assert(ascending(l).to_set().contains(x));
                    } else {
                        assert(collected(rest)[i - ascending(l).len()] == x);
                    }
                }
                if l.contains(x) {
                    assert(ascending(l).to_set().contains(x));
                    let i = choose|i: int| 0 <= i < ascending(l).len() && ascending(l)[i] == x;
                    assert(c[i] == x);
                }
                if collected(rest).to_set().contains(x) {
                    let i = choose|i: int| 0 <= i < collected(rest).len() && collected(rest)[i] == x;
                    assert(c[ascending(l).len() + i] == x);
                }
            }
        }
        assert(m.remove_keys(c.to_set()) =~= rest.remove_keys(collected(rest).to_set()));
    }
}

} // verus!
