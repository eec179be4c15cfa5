//! Crate-level laws of the tree: every well-formed node keeps its keys in
//! sorted order with routing keys equal to the first key of the child to
//! their right, keeps all leaves at one depth, and is therefore of small
//! height; and folding distinct insertions into a map round-trips.

use vstd::arithmetic::power2::lemma2_to64;
use vstd::arithmetic::power2::lemma_pow2_strictly_increases;
use vstd::arithmetic::power2::lemma_pow2_unfold;
use vstd::arithmetic::power2::pow2;
use vstd::prelude::*;

use crate::external::lemma_leaf_kv;
use crate::internal::child;
use crate::internal::child_ok;
use crate::internal::lemma_int_frame;
use crate::internal::lemma_int_kv_char;
use crate::node::Key;
use crate::node::NodeType;
use crate::node::Value;
use crate::node::node_ht;
use crate::node::node_inv;
use crate::node::node_kv;

verus! {

/// Every key of a non-empty well-formed subtree lies in a closed interval
/// whose two endpoints are stored keys, and the interval is at least
/// `pow2(height - 1)` wide: every internal level at least doubles the
/// spread of keys below it.
pub proof fn lemma_kv_interval(n: NodeType) -> (r: (Key, Key))
    requires
        node_inv(n),
        exists|k: Key| node_kv(n).dom().contains(k),
    ensures
        node_kv(n).dom().contains(r.0),
        node_kv(n).dom().contains(r.1),
        r.0 <= r.1,
        forall|k: Key| node_kv(n).dom().contains(k) ==> r.0 <= k <= r.1,
        node_ht(n) >= 1,
        pow2((node_ht(n) - 1) as nat) <= r.1 - r.0 + 1,
    decreases n,
{
    match n {
        NodeType::Ext(l) => {
            lemma_leaf_kv(l);
            let kw = choose|k: Key| node_kv(n).dom().contains(k);
            assert(leaf_kv_of(n, kw));
            assert(l.keys@.len() > 0);
            let last = l.keys@.len() as int - 1;
            let lo = l.keys@[0];
            let hi = l.keys@[last];
            assert forall|k: Key| node_kv(n).dom().contains(k) implies lo <= k <= hi by {
                let i = choose|i: int| 0 <= i < l.keys@.len() && l.keys@[i] == k;
                assert(0 < i ==> l.keys@[0] < l.keys@[i]);
                assert(i < last ==> l.keys@[i] < l.keys@[last]);
            }
            lemma2_to64();
            (lo, hi)
        },
        NodeType::Int(m) => {
            lemma_int_frame(m);
            lemma_int_kv_char(m);
            let nk = m.keys@.len() as int;
            assert(child_ok(m, 0));
            assert(child_ok(m, nk));
            assert(node_kv(child(m, nk)).dom().contains(m.keys@[nk - 1]));
            let p0 = lemma_kv_interval(child(m, 0));
            let pn = lemma_kv_interval(child(m, nk));
            assert(p0.1 < m.keys@[0]);
            assert(pn.0 >= m.keys@[nk - 1]);
            assert(m.keys@[0] <= m.keys@[nk - 1]);
            assert(node_ht(child(m, nk)) == node_ht(child(m, 0)));
            assert(child(m, 0) == *m.pointers@[0]);
            assert(node_ht(n) == 1 + node_ht(child(m, 0)));
            lemma_pow2_unfold((node_ht(n) - 1) as nat);
            assert forall|k: Key| node_kv(n).dom().contains(k) implies p0.0 <= k <= pn.1 by {
                let i = choose|i: int| 0 <= i <= nk && node_kv(child(m, i)).dom().contains(k);
                assert(child_ok(m, i));
                if i > 0 {
                    assert(k >= m.keys@[i - 1]);
                    assert(m.keys@[0] <= m.keys@[i - 1]);
                }
                if i < nk {
                    assert(k < m.keys@[i]);
                    assert(m.keys@[i] <= m.keys@[nk - 1]);
                }
            }
            assert(node_kv(n).dom().contains(p0.0));
            assert(node_kv(n).dom().contains(pn.1));
            assert(pow2((node_ht(n) - 1) as nat) == 2 * pow2((node_ht(child(m, 0)) - 1) as nat));
            assert(pn.1 - p0.0 + 1 >= (p0.1 - p0.0 + 1) + (pn.1 - pn.0 + 1));
            (p0.0, pn.1)
        },
    }
}

/// Helper naming the leaf reading of a node's map, used to drive the
/// choice of a witness index in `lemma_kv_interval`.
spec fn leaf_kv_of(n: NodeType, k: Key) -> bool {
    node_kv(n).dom().contains(k)
}

/// The height of any well-formed node is tiny: a tree of height `h` keeps
/// keys spread over at least `pow2(h - 1)` distinct values, and there are
/// at most `pow2(64)` machine-word keys.
pub proof fn lemma_ht_le(n: NodeType)
    requires
        node_inv(n),
    ensures
        1 <= node_ht(n) <= 65,
{
    match n {
        NodeType::Ext(_) => {
        },
        NodeType::Int(m) => {
            lemma_int_frame(m);
            lemma_int_kv_char(m);
            assert(child_ok(m, 0));
            let k0 = choose|k: Key| node_kv(child(m, 0)).dom().contains(k);
            assert(node_kv(n).dom().contains(k0));
            let p = lemma_kv_interval(n);
            lemma2_to64();
            assert(p.1 - p.0 + 1 <= usize::MAX as int + 1);
            assert(usize::MAX as int + 1 <= pow2(64));
            if node_ht(n) > 65 {
                lemma_pow2_strictly_increases(64, (node_ht(n) - 1) as nat);
                assert(false);
            }
        },
    }
}

/// Every node has height at least 1.
pub proof fn lemma_node_ht_pos(n: NodeType)
    ensures
        node_ht(n) >= 1,
{
    match n {
        NodeType::Ext(_) => {
        },
        NodeType::Int(m) => {
            assert(node_ht(n) == crate::internal::int_ht(m));
        },
    }
}

/// `k` is the first key of `c`: stored under `c` and no stored key is
/// smaller.
pub open spec fn is_first_key(c: NodeType, k: Key) -> bool {
    &&& node_kv(c).dom().contains(k)
    &&& forall|k2: Key| node_kv(c).dom().contains(k2) ==> k <= k2
}

/// Sorted order below the first `j` children of an internal node.
pub open spec fn children_sorted(m: crate::internal::InternalNode, j: int) -> bool
    decreases m, 0int, j,
{
    j <= 0 || (children_sorted(m, j - 1) && sorted_order_ok(child(m, j - 1)))
}

/// Sorted order of a subtree: every leaf keeps strictly increasing keys,
/// and every internal node keeps strictly increasing routing keys, each of
/// which equals the first key of the child to its right.
pub open spec fn sorted_order_ok(n: NodeType) -> bool
    decreases n, 1int, 0int,
{
    match n {
        NodeType::Ext(l) => crate::node::strict_sorted(l.keys@),
        NodeType::Int(m) => {
            &&& crate::node::strict_sorted(m.keys@)
            &&& (forall|i: int| 0 <= i < m.keys@.len()
                ==> is_first_key(#[trigger] child(m, i + 1), m.keys@[i]))
            &&& children_sorted(m, m.keys@.len() as int + 1)
        },
    }
}

/// Balance below the first `j` children of an internal node.
pub open spec fn children_balanced(m: crate::internal::InternalNode, j: int) -> bool
    decreases m, 0int, j,
{
    j <= 0 || (children_balanced(m, j - 1) && balanced(child(m, j - 1)))
}

/// Balance of a subtree: under every internal node, all children are
/// balanced and of equal height, so all leaves lie at the same depth.
pub open spec fn balanced(n: NodeType) -> bool
    decreases n, 1int, 0int,
{
    match n {
        NodeType::Ext(_) => true,
        NodeType::Int(m) => {
            &&& (forall|i: int| 0 <= i <= m.keys@.len()
                ==> #[trigger] node_ht(child(m, i)) == node_ht(child(m, 0)))
            &&& children_balanced(m, m.keys@.len() as int + 1)
        },
    }
}

/// Builds `children_sorted` from sorted order of each child.
proof fn lemma_children_sorted_build(m: crate::internal::InternalNode, j: int)
    requires
        forall|i: int| 0 <= i < j ==> sorted_order_ok(#[trigger] child(m, i)),
    ensures
        children_sorted(m, j),
    decreases (if j >= 0 { j } else { 0int }),
{
    if j > 0 {
        lemma_children_sorted_build(m, j - 1);
        assert(sorted_order_ok(child(m, j - 1)));
    }
}

/// Builds `children_balanced` from balance of each child.
proof fn lemma_children_balanced_build(m: crate::internal::InternalNode, j: int)
    requires
        forall|i: int| 0 <= i < j ==> balanced(#[trigger] child(m, i)),
    ensures
        children_balanced(m, j),
    decreases (if j >= 0 { j } else { 0int }),
{
    if j > 0 {
        lemma_children_balanced_build(m, j - 1);
        assert(balanced(child(m, j - 1)));
    }
}

/// Sorted-order law, node level: well-formedness implies sorted order
/// everywhere in the subtree.
pub proof fn lemma_sorted_order_node(n: NodeType)
    requires
        node_inv(n),
    ensures
        sorted_order_ok(n),
    decreases n,
{
    match n {
        NodeType::Ext(_) => {
        },
        NodeType::Int(m) => {
            lemma_int_frame(m);
            let nk = m.keys@.len() as int;
            assert forall|i: int| 0 <= i <= nk implies
                sorted_order_ok(#[trigger] child(m, i)) by {
                assert(child_ok(m, i));
                lemma_sorted_order_node(child(m, i));
            }
            lemma_children_sorted_build(m, nk + 1);
            assert forall|i: int| 0 <= i < nk implies
                is_first_key(#[trigger] child(m, i + 1), m.keys@[i]) by {
                assert(child_ok(m, i + 1));
            }
            assert(sorted_order_ok(n));
        },
    }
}

/// Balance law, node level: well-formedness implies that all leaves lie
/// at the same depth.
pub proof fn lemma_balanced_node(n: NodeType)
    requires
        node_inv(n),
    ensures
        balanced(n),
    decreases n,
{
    match n {
        NodeType::Ext(_) => {
        },
        NodeType::Int(m) => {
            lemma_int_frame(m);
            let nk = m.keys@.len() as int;
            assert forall|i: int| 0 <= i <= nk implies balanced(#[trigger] child(m, i)) by {
                assert(child_ok(m, i));
                lemma_balanced_node(child(m, i));
            }
            lemma_children_balanced_build(m, nk + 1);
            assert(balanced(n));
        },
    }
}

/// The map described by a sequence of insertions, first pair first.
pub open spec fn map_of_pairs(s: Seq<(Key, Value)>) -> Map<Key, Value>
    decreases s.len(),
{
    if s.len() == 0 {
        Map::empty()
    } else {
        map_of_pairs(s.drop_last()).insert(s.last().0, s.last().1)
    }
}

/// No key occurs twice in the sequence of pairs.
pub open spec fn distinct_keys(s: Seq<(Key, Value)>) -> bool {
    forall|i: int, j: int| 0 <= i < j < s.len() ==> s[i].0 != s[j].0
}

/// Round-trip law: after inserting any sequence of pairs with distinct
/// keys into the empty map, every inserted key is mapped to its value and
/// no other key is present. Because `BPlusTree::insert` turns the tree's
/// map into `view.insert(key, value)` and `BPlusTree::lookup` returns
/// exactly the view's entry for a key, this transfers verbatim to a tree:
/// every inserted key is found with its associated value, and no
/// uninserted key is found.
pub proof fn lemma_round_trip(s: Seq<(Key, Value)>)
    requires
        distinct_keys(s),
    ensures
        forall|i: int| 0 <= i < s.len()
            ==> map_of_pairs(s).dom().contains(#[trigger] s[i].0)
                && map_of_pairs(s)[s[i].0] == s[i].1,
        forall|k: Key| #[trigger] map_of_pairs(s).dom().contains(k)
            ==> exists|i: int| 0 <= i < s.len() && s[i].0 == k,
    decreases s.len(),
{
    if s.len() > 0 {
        let t = s.drop_last();
        lemma_round_trip(t);
        assert forall|i: int| 0 <= i < s.len() implies
            map_of_pairs(s).dom().contains(#[trigger] s[i].0)
            && map_of_pairs(s)[s[i].0] == s[i].1 by {
            if i < s.len() - 1 {
                assert(t[i] == s[i]);
                assert(s[i].0 != s[s.len() - 1].0);
            }
        }
        assert forall|k: Key| #[trigger] map_of_pairs(s).dom().contains(k) implies
            exists|i: int| 0 <= i < s.len() && s[i].0 == k by {
            if k == s.last().0 {
                assert(s[s.len() - 1].0 == k);
            } else {
                assert(map_of_pairs(t).dom().contains(k));
                assert(exists|i: int| 0 <= i < t.len() && t[i].0 == k);
                let i = choose|i: int| 0 <= i < t.len() && t[i].0 == k;
                assert(t[i] == s[i]);
                assert(s[i].0 == k);
            }
        }
    }
}

} // verus!
