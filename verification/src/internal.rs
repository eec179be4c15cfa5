//! Internal (routing) nodes: `keys` holds the routing keys, `pointers` the
//! children that precede them, and `greater` the final child, which holds
//! every key greater than or equal to the last routing key.

use vstd::prelude::*;

use crate::external::copy_range;
use crate::node::InsertResult;
use crate::node::Key;
use crate::node::Node;
use crate::node::NodeType;
use crate::node::Value;
use crate::node::node_at_cap;
use crate::node::node_ht;
use crate::node::node_inv;
use crate::node::node_kv;
use crate::node::node_nsize;
use crate::node::strict_sorted;

verus! {

/// An internal node. Child `i` of `pointers` holds the keys strictly below
/// `keys[i]`; `greater` holds the keys at or above the last routing key, so
/// the children and keys align as
/// `[pointers[0], keys[0], pointers[1], ... keys[N-1], greater]`.
#[derive(Debug)]
pub struct InternalNode {
    pub node_size: usize,
    pub keys: Vec<Key>,
    pub pointers: Vec<Box<NodeType>>,
    pub greater: Box<NodeType>,
}

impl Clone for InternalNode {
    /// A deep copy of the whole subtree. The copy carries the same model:
    /// the same stored map, height and structural soundness.
    fn clone(&self) -> (r: Self)
        ensures
            int_sim(r, *self),
            r.node_size == self.node_size,
            r.keys@ == self.keys@,
            r.pointers@.len() == self.pointers@.len(),
            int_kv(r) == int_kv(*self),
            int_ht(r) == int_ht(*self),
            int_inv(*self) ==> int_inv(r),
        decreases *self, 0int,
    {
        let keys = copy_range(&self.keys, 0, self.keys.len());
        let mut pointers: Vec<Box<NodeType>> = Vec::new();
        let mut i: usize = 0;
        while i < self.pointers.len()
            invariant
                i <= self.pointers@.len(),
                pointers@.len() == i,
                forall|j: int| 0 <= j < i ==> {
                    &&& crate::node::node_sim(*pointers@[j], *self.pointers@[j])
                    &&& node_kv(*pointers@[j]) == node_kv(*self.pointers@[j])
                    &&& node_ht(*pointers@[j]) == node_ht(*self.pointers@[j])
                    &&& node_nsize(*pointers@[j]) == node_nsize(*self.pointers@[j])
                    &&& node_at_cap(*pointers@[j]) == node_at_cap(*self.pointers@[j])
                    &&& (node_inv(*self.pointers@[j]) ==> node_inv(*pointers@[j]))
                },
            decreases self.pointers@.len() - i,
        {
            pointers.push(Box::new((*self.pointers[i]).clone()));
            i = i + 1;
        }
        let greater = Box::new((*self.greater).clone());
        let r = InternalNode { node_size: self.node_size, keys, pointers, greater };
        proof {
            assert(r.keys@ =~= self.keys@);
            assert forall|j: int| 0 <= j <= self.pointers@.len() implies
                node_kv(#[trigger] child(r, j)) == node_kv(child(*self, j))
                && node_ht(child(r, j)) == node_ht(child(*self, j))
                && node_nsize(child(r, j)) == node_nsize(child(*self, j))
                && node_at_cap(child(r, j)) == node_at_cap(child(*self, j))
                && (node_inv(child(*self, j)) ==> node_inv(child(r, j))) by {
            }
            lemma_int_kv_congruence(r, *self, r.pointers@.len() as int + 1);
            assert(int_kv(r) == int_kv_upto(r, r.pointers@.len() as int + 1));
            assert(int_kv(*self) == int_kv_upto(*self, self.pointers@.len() as int + 1));
            if int_inv(*self) {
                lemma_int_frame(*self);
                assert forall|j: int| 0 <= j <= r.keys@.len() implies #[trigger] child_ok(r, j) by {
                    assert(child_ok(*self, j));
                }
                lemma_children_ok_build(r, r.keys@.len() as int + 1);
                assert forall|j: int| 0 <= j <= r.keys@.len() implies
                    #[trigger] node_ht(child(r, j)) == node_ht(child(r, 0)) by {
                    assert(node_ht(child(*self, j)) == node_ht(child(*self, 0)));
                }
                let k0 = choose|k: Key| node_kv(child(*self, 0)).dom().contains(k);
                assert(node_kv(child(r, 0)).dom().contains(k0));
            }
            assert(int_ht(r) == int_ht(*self));
            lemma_children_sim_build(r, *self, r.pointers@.len() as int);
            assert(int_sim(r, *self));
        }
        r
    }
}

/// Two internal nodes whose children hold pairwise equal maps hold equal
/// combined maps.
proof fn lemma_int_kv_congruence(a: InternalNode, b: InternalNode, j: int)
    requires
        0 <= j,
        a.pointers@.len() == b.pointers@.len(),
        forall|i: int| 0 <= i <= a.pointers@.len()
            ==> node_kv(#[trigger] child(a, i)) == node_kv(child(b, i)),
    ensures
        int_kv_upto(a, j) == int_kv_upto(b, j),
    decreases j,
{
    if j > 0 {
        lemma_int_kv_congruence(a, b, j - 1);
        if j - 1 <= a.pointers@.len() {
            assert(node_kv(child(a, j - 1)) == node_kv(child(b, j - 1)));
        } else {
            assert(child(a, j - 1) == *a.greater);
            assert(child(b, j - 1) == *b.greater);
            assert(node_kv(child(a, a.pointers@.len() as int))
                == node_kv(child(b, b.pointers@.len() as int)));
        }
    }
}

/// Child `i` of an internal node, counting `greater` as the last child.
pub open spec fn child(m: InternalNode, i: int) -> NodeType {
    if 0 <= i < m.pointers@.len() {
        *m.pointers@[i]
    } else {
        *m.greater
    }
}

/// What the parent invariant asks of child `i`: a sound subtree strictly
/// below capacity, of the same node size, whose keys lie between the
/// routing keys around it; the routing key `keys[i-1]` itself is the
/// smallest key of child `i`.
pub open spec fn child_ok(m: InternalNode, i: int) -> bool
    decreases m, 0int, 0int,
{
    0 <= i <= m.pointers@.len() && {
        let c = child(m, i);
        &&& node_inv(c)
        &&& !node_at_cap(c)
        &&& node_nsize(c) == m.node_size as nat
        &&& (i < m.keys@.len() ==> forall|k: Key| node_kv(c).dom().contains(k)
            ==> k < m.keys@[i])
        &&& (0 < i ==> forall|k: Key| node_kv(c).dom().contains(k) ==> k >= m.keys@[i - 1])
        &&& (0 < i ==> node_kv(c).dom().contains(m.keys@[i - 1]))
    }
}

/// The first `j` children (counting `greater` as the last one) all meet
/// `child_ok`.
pub open spec fn children_ok(m: InternalNode, j: int) -> bool
    decreases m, 1int, j,
{
    j <= 0 || (children_ok(m, j - 1) && child_ok(m, j - 1))
}

/// The first `j` `pointers` children of `a` and `b` hold pairwise the
/// same data.
pub open spec fn children_sim(a: InternalNode, b: InternalNode, j: int) -> bool
    decreases a, 0int, j,
{
    j <= 0 || (j <= a.pointers@.len() && children_sim(a, b, j - 1) && crate::node::node_sim(
        *a.pointers@[j - 1],
        *b.pointers@[j - 1],
    ))
}

/// Two internal nodes hold the same data, structurally: equal node size
/// and routing keys, and pairwise structurally equal children, `greater`
/// included.
pub open spec fn int_sim(a: InternalNode, b: InternalNode) -> bool
    decreases a, 1int, 0int,
{
    &&& a.node_size == b.node_size
    &&& a.keys@ == b.keys@
    &&& a.pointers@.len() == b.pointers@.len()
    &&& children_sim(a, b, a.pointers@.len() as int)
    &&& crate::node::node_sim(*a.greater, *b.greater)
}

/// Builds `children_sim` from pairwise structural equality of the
/// children.
pub(crate) proof fn lemma_children_sim_build(a: InternalNode, b: InternalNode, j: int)
    requires
        j <= a.pointers@.len() == b.pointers@.len(),
        forall|i: int| 0 <= i < j
            ==> crate::node::node_sim(*a.pointers@[i], *b.pointers@[i]),
    ensures
        children_sim(a, b, j),
    decreases (if j >= 0 { j } else { 0int }),
{
    if j > 0 {
        lemma_children_sim_build(a, b, j - 1);
        assert(crate::node::node_sim(*a.pointers@[j - 1], *b.pointers@[j - 1]));
    }
}

/// Structural invariant of an internal node: between 1 and `node_size - 1`
/// routing keys (the top value only transiently, while a split is
/// pending), one more child than keys, strictly sorted routing keys, all
/// children in order and of equal height, and a non-empty first child.
pub open spec fn int_inv(m: InternalNode) -> bool
    decreases m, 2int, 0int,
{
    let n = m.keys@.len() as int;
    &&& m.node_size >= 4
    &&& 1 <= n
    &&& n + 1 <= m.node_size as int
    &&& m.pointers@.len() == n
    &&& strict_sorted(m.keys@)
    &&& children_ok(m, n + 1)
    &&& (forall|i: int| 0 <= i <= n ==> #[trigger] node_ht(child(m, i)) == node_ht(child(m, 0)))
    &&& (exists|k: Key| node_kv(child(m, 0)).dom().contains(k))
}

/// The key-value pairs of children `0` to `n - 1` combined.
pub open spec fn int_kv_upto(m: InternalNode, n: int) -> Map<Key, Value>
    decreases m, n,
{
    if n <= 0 {
        Map::empty()
    } else {
        int_kv_upto(m, n - 1).union_prefer_right(node_kv(child(m, n - 1)))
    }
}

/// The key-value pairs stored in the subtree of an internal node: the
/// union over all its children, `greater` included.
pub open spec fn int_kv(m: InternalNode) -> Map<Key, Value>
    decreases m, m.pointers@.len() + 2,
{
    int_kv_upto(m, m.pointers@.len() as int + 1)
}

/// Height of an internal node: one more than its first child (all children
/// have the same height).
pub open spec fn int_ht(m: InternalNode) -> nat
    decreases m, 0int,
{
    if m.pointers@.len() > 0 {
        1 + node_ht(*m.pointers@[0])
    } else {
        1
    }
}

/// The child division that holds `key`: the index of the first routing
/// key strictly greater than it, or the number of keys (meaning the
/// "greater" slot) when no routing key exceeds it.
pub open spec fn division_of(keys: Seq<Key>, key: Key) -> int
    decreases keys.len(),
{
    if keys.len() == 0 {
        0
    } else if keys[0] > key {
        0
    } else {
        1 + division_of(keys.drop_first(), key)
    }
}

/// `division_of` is the first index whose key exceeds `key`.
pub proof fn lemma_division_of(keys: Seq<Key>, key: Key)
    ensures
        0 <= division_of(keys, key) <= keys.len(),
        division_of(keys, key) < keys.len() ==> keys[division_of(keys, key)] > key,
        forall|j: int| 0 <= j < division_of(keys, key) ==> keys[j] <= key,
    decreases keys.len(),
{
    if keys.len() > 0 && !(keys[0] > key) {
        let rest = keys.drop_first();
        lemma_division_of(rest, key);
        let d = division_of(rest, key);
        assert forall|j: int| 0 <= j < d + 1 implies keys[j] <= key by {
            if j > 0 {
                assert(rest[j - 1] == keys[j]);
            }
        }
        if d < rest.len() {
            assert(keys[d + 1] == rest[d]);
        }
    }
}

/// The part of the invariant that the combined-map lemmas rest on:
/// aligned lengths, sorted routing keys, and ordered children.
pub open spec fn int_frame(m: InternalNode) -> bool {
    &&& m.pointers@.len() == m.keys@.len()
    &&& strict_sorted(m.keys@)
    &&& forall|i: int| 0 <= i <= m.keys@.len() ==> #[trigger] child_ok(m, i)
}

/// `children_ok` holds of each child it walks over.
pub(crate) proof fn lemma_children_ok_extract(m: InternalNode, j: int, i: int)
    requires
        children_ok(m, j),
        0 <= i < j,
    ensures
        child_ok(m, i),
    decreases j,
{
    if i < j - 1 {
        lemma_children_ok_extract(m, j - 1, i);
    }
}

/// `children_ok` follows from `child_ok` of each child walked over.
pub(crate) proof fn lemma_children_ok_build(m: InternalNode, j: int)
    requires
        forall|i: int| 0 <= i < j ==> #[trigger] child_ok(m, i),
    ensures
        children_ok(m, j),
    decreases (if j >= 0 { j } else { 0int }),
{
    if j > 0 {
        lemma_children_ok_build(m, j - 1);
        assert(child_ok(m, j - 1));
    }
}

/// The invariant of an internal node yields the frame the combined-map
/// lemmas are stated over.
pub(crate) proof fn lemma_int_frame(m: InternalNode)
    requires
        int_inv(m),
    ensures
        int_frame(m),
{
    assert forall|i: int| 0 <= i <= m.keys@.len() implies #[trigger] child_ok(m, i) by {
        lemma_children_ok_extract(m, m.keys@.len() as int + 1, i);
    }
}

/// What `int_kv_upto` contains: a key is present exactly when one of the
/// first `j` children holds it, and it keeps that child's value (the
/// ordering of the children makes the holder unique).
proof fn lemma_int_kv_upto_char(m: InternalNode, j: int)
    requires
        int_frame(m),
        0 <= j <= m.keys@.len() + 1,
    ensures
        forall|k: Key| #[trigger] int_kv_upto(m, j).dom().contains(k)
            ==> exists|i: int| 0 <= i < j && node_kv(child(m, i)).dom().contains(k),
        forall|i: int, k: Key| 0 <= i < j && #[trigger] node_kv(child(m, i)).dom().contains(k)
            ==> int_kv_upto(m, j).dom().contains(k)
                && int_kv_upto(m, j)[k] == node_kv(child(m, i))[k],
    decreases j,
{
    if j > 0 {
        lemma_int_kv_upto_char(m, j - 1);
        let prev = int_kv_upto(m, j - 1);
        let cm = node_kv(child(m, j - 1));
        let cur = int_kv_upto(m, j);
        assert(cur == prev.union_prefer_right(cm));
        assert forall|i: int, k: Key| 0 <= i < j
            && #[trigger] node_kv(child(m, i)).dom().contains(k) implies
            cur.dom().contains(k) && cur[k] == node_kv(child(m, i))[k] by {
            if i < j - 1 {
                assert(child_ok(m, i));
                assert(child_ok(m, j - 1));
                if cm.dom().contains(k) {
                    assert(k < m.keys@[i]);
                    assert(k >= m.keys@[j - 2]);
                    assert(m.keys@[i] <= m.keys@[j - 2]);
                    assert(false);
                }
            }
        }
        assert forall|k: Key| #[trigger] cur.dom().contains(k) implies
            exists|i: int| 0 <= i < j && node_kv(child(m, i)).dom().contains(k) by {
            if cm.dom().contains(k) {
                assert(node_kv(child(m, j - 1)).dom().contains(k));
            } else {
                assert(prev.dom().contains(k));
            }
        }
    }
}

/// The child-level reading of an internal node's combined map.
pub(crate) proof fn lemma_int_kv_char(m: InternalNode)
    requires
        int_frame(m),
    ensures
        forall|k: Key| #[trigger] int_kv(m).dom().contains(k)
            ==> exists|i: int| 0 <= i <= m.keys@.len() && node_kv(child(m, i)).dom().contains(k),
        forall|i: int, k: Key| 0 <= i <= m.keys@.len()
            && #[trigger] node_kv(child(m, i)).dom().contains(k)
            ==> int_kv(m).dom().contains(k) && int_kv(m)[k] == node_kv(child(m, i))[k],
{
    lemma_int_kv_upto_char(m, m.keys@.len() as int + 1);
    assert(int_kv(m) == int_kv_upto(m, m.pointers@.len() as int + 1));
}

/// Routing: when `d` is the division chosen for `key` (the first routing
/// key above it, or the "greater" slot), no other child can hold `key`,
/// so the combined map agrees with child `d` on it.
pub(crate) proof fn lemma_route(m: InternalNode, key: Key, d: int)
    requires
        int_frame(m),
        0 <= d <= m.keys@.len(),
        forall|j: int| 0 <= j < d ==> m.keys@[j] <= key,
        d < m.keys@.len() ==> m.keys@[d] > key,
    ensures
        forall|i: int| 0 <= i <= m.keys@.len() && i != d
            ==> !(#[trigger] node_kv(child(m, i)).dom().contains(key)),
        int_kv(m).dom().contains(key) <==> node_kv(child(m, d)).dom().contains(key),
        node_kv(child(m, d)).dom().contains(key) ==> int_kv(m)[key] == node_kv(child(m, d))[key],
{
    lemma_int_kv_char(m);
    assert forall|i: int| 0 <= i <= m.keys@.len() && i != d implies
        !(#[trigger] node_kv(child(m, i)).dom().contains(key)) by {
        assert(child_ok(m, i));
        if node_kv(child(m, i)).dom().contains(key) {
            if i < d {
                assert(key < m.keys@[i]);
                assert(m.keys@[i] <= key);
            } else {
                assert(key >= m.keys@[i - 1]);
                assert(m.keys@[d] <= m.keys@[i - 1]);
                assert(m.keys@[d] > key);
            }
            assert(false);
        }
    }
    if int_kv(m).dom().contains(key) {
        let i = choose|i: int| 0 <= i <= m.keys@.len() && node_kv(child(m, i)).dom().contains(key);
        assert(i == d);
    }
}

impl InternalNode {
    /// The index of the child division that should hold `key`: the first
    /// routing key strictly greater than it, or `None` for the "greater"
    /// child.
    pub fn get_child_division(&self, key: Key) -> (r: Option<usize>)
        ensures
            match r {
                Option::Some(p) => p < self.keys@.len() && self.keys@[p as int] > key
                    && forall|j: int| 0 <= j < p ==> self.keys@[j] <= key,
                Option::None => forall|j: int| 0 <= j < self.keys@.len() ==> self.keys@[j] <= key,
            },
    {
        let mut i: usize = 0;
        while i < self.keys.len()
            invariant
                i <= self.keys@.len(),
                forall|j: int| 0 <= j < i ==> self.keys@[j] <= key,
            decreases self.keys@.len() - i,
        {
            if self.keys[i] > key {
                return Some(i);
            }
            i = i + 1;
        }
        None
    }

    /// Whether another routing key still fits: an internal node takes new
    /// keys only while it holds at most `node_size - 2` of them, because
    /// the "greater" child occupies the last slot of the parity budget.
    pub fn insertable(&self) -> (r: bool)
        requires
            self.node_size >= 2,
        ensures
            r <==> self.keys@.len() + 2 <= self.node_size,
    {
        self.keys.len() <= self.node_size - 2
    }

    /// A new internal node routing between two children: `node1` below the
    /// separator key and `node2` at or above it.
    pub fn new_by_nodes(
        node_size: usize,
        node1: Box<NodeType>,
        node2: Box<NodeType>,
        separator_key: usize,
    ) -> (r: Self)
        requires
            node_size >= 4,
            node_inv(*node1),
            node_inv(*node2),
            !node_at_cap(*node1),
            !node_at_cap(*node2),
            node_nsize(*node1) == node_size,
            node_nsize(*node2) == node_size,
            node_ht(*node1) == node_ht(*node2),
            forall|k: Key| node_kv(*node1).dom().contains(k) ==> k < separator_key,
            forall|k: Key| node_kv(*node2).dom().contains(k) ==> k >= separator_key,
            node_kv(*node2).dom().contains(separator_key),
            exists|k: Key| node_kv(*node1).dom().contains(k),
        ensures
            int_inv(r),
            r.node_size == node_size,
            r.keys@ == seq![separator_key],
            r.pointers@ == seq![node1],
            r.greater == node2,
            int_kv(r) == node_kv(*node1).union_prefer_right(node_kv(*node2)),
            int_ht(r) == 1 + node_ht(*node1),
    {
        let ghost n1 = *node1;
        let ghost n2 = *node2;
        let mut pointers: Vec<Box<NodeType>> = Vec::new();
        pointers.push(node1);
        let mut keys: Vec<Key> = Vec::new();
        keys.push(separator_key);
        let r = InternalNode { node_size, keys, pointers, greater: node2 };
        proof {
            assert(r.keys@ =~= seq![separator_key]);
            assert(r.pointers@ =~= seq![r.pointers@[0]]);
            assert(child(r, 0) == n1);
            assert(child(r, 1) == n2);
            assert(child_ok(r, 0));
            assert(child_ok(r, 1));
            lemma_children_ok_build(r, 2);
            assert forall|i: int| 0 <= i <= 1 implies
                #[trigger] node_ht(child(r, i)) == node_ht(child(r, 0)) by {
            }
            assert(int_inv(r));
            assert(int_kv_upto(r, 0) == Map::<Key, Value>::empty());
            assert(int_kv_upto(r, 1) == int_kv_upto(r, 0).union_prefer_right(node_kv(n1)));
            assert(int_kv_upto(r, 1) =~= node_kv(n1));
            assert(int_kv(r) == int_kv_upto(r, 2));
            assert(int_kv(r) == int_kv_upto(r, 1).union_prefer_right(node_kv(n2)));
            assert(int_kv(r) == node_kv(n1).union_prefer_right(node_kv(n2)));
        }
        r
    }
}

/// A well-formed node with a key in its map visibly holds a key.
pub(crate) proof fn lemma_node_has_keys(c: NodeType)
    requires
        node_inv(c),
        exists|k: Key| node_kv(c).dom().contains(k),
    ensures
        crate::node::node_has_keys(c),
{
    match c {
        NodeType::Ext(l) => {
            crate::external::lemma_leaf_kv(l);
            let kw = choose|k: Key| node_kv(c).dom().contains(k);
            assert(leaf_kv_contains(l, kw));
        },
        NodeType::Int(_) => {
        },
    }
}

/// Helper naming leaf-map membership, to drive a witness choice.
spec fn leaf_kv_contains(l: crate::external::ExternalNode, k: Key) -> bool {
    crate::external::leaf_kv(l).dom().contains(k)
}

/// After a plain insertion into child `d` (no split), the node invariant
/// holds again and the combined map has gained exactly the new pair.
proof fn lemma_insert_open(m0: InternalNode, m1: InternalNode, d: int, key: Key, value: Value)
    requires
        int_inv(m0),
        m1.node_size == m0.node_size,
        m1.keys@ == m0.keys@,
        m1.pointers@.len() == m0.pointers@.len(),
        0 <= d <= m0.keys@.len(),
        forall|j: int| 0 <= j < d ==> m0.keys@[j] <= key,
        d < m0.keys@.len() ==> m0.keys@[d] > key,
        forall|i: int| 0 <= i <= m0.keys@.len() && i != d
            ==> #[trigger] child(m1, i) == child(m0, i),
        node_inv(child(m1, d)),
        !node_at_cap(child(m1, d)),
        node_nsize(child(m1, d)) == m0.node_size as nat,
        node_kv(child(m1, d)) == node_kv(child(m0, d)).insert(key, value),
        node_ht(child(m1, d)) == node_ht(child(m0, d)),
    ensures
        int_inv(m1),
        int_kv(m1) == int_kv(m0).insert(key, value),
        int_ht(m1) == int_ht(m0),
{
    lemma_int_frame(m0);
    lemma_int_kv_char(m0);
    lemma_route(m0, key, d);
    let n = m0.keys@.len() as int;
    assert forall|i: int| 0 <= i <= n implies #[trigger] child_ok(m1, i) by {
        assert(child_ok(m0, i));
        if i == d {
            assert(node_kv(child(m1, d)).dom() == node_kv(child(m0, d)).dom().insert(key));
        }
    }
    lemma_children_ok_build(m1, n + 1);
    assert forall|i: int| 0 <= i <= n implies
        #[trigger] node_ht(child(m1, i)) == node_ht(child(m1, 0)) by {
        assert(node_ht(child(m0, i)) == node_ht(child(m0, 0)));
    }
    let k0 = choose|k: Key| node_kv(child(m0, 0)).dom().contains(k);
    assert(node_kv(child(m1, 0)).dom().contains(k0));
    assert(int_inv(m1));
    lemma_int_frame(m1);
    lemma_int_kv_char(m1);
    lemma_route(m1, key, d);
    let lhs = int_kv(m1);
    let rhs = int_kv(m0).insert(key, value);
    assert forall|k: Key| #[trigger] lhs.dom().contains(k) implies rhs.dom().contains(k)
        && lhs[k] == rhs[k] by {
        let i = choose|i: int| 0 <= i <= n && node_kv(child(m1, i)).dom().contains(k);
        if i == d {
            if k == key {
                assert(lhs[k] == node_kv(child(m1, d))[k]);
            } else {
                assert(node_kv(child(m0, d)).dom().contains(k));
                assert(lhs[k] == node_kv(child(m1, d))[k]);
                assert(node_kv(child(m1, d))[k] == node_kv(child(m0, d))[k]);
                assert(rhs[k] == int_kv(m0)[k]);
            }
        } else {
            assert(node_kv(child(m0, i)).dom().contains(k));
            assert(k != key);
            assert(lhs[k] == node_kv(child(m1, i))[k]);
            assert(rhs[k] == int_kv(m0)[k]);
        }
    }
    assert forall|k: Key| #[trigger] rhs.dom().contains(k) implies lhs.dom().contains(k) by {
        if k == key {
            assert(node_kv(child(m1, d)).dom().contains(k));
        } else {
            let i = choose|i: int| 0 <= i <= n && node_kv(child(m0, i)).dom().contains(k);
            if i == d {
                assert(node_kv(child(m1, d)).dom().contains(k));
            } else {
                assert(node_kv(child(m1, i)).dom().contains(k));
            }
        }
    }
    assert(lhs =~= rhs);
    assert(child(m1, 0) == *m1.pointers@[0]);
    assert(child(m0, 0) == *m0.pointers@[0]);
}

/// After inserting into child `d` made it split, the node absorbs the two
/// halves and the separator key: the invariant holds again (one key
/// longer) and the combined map has gained exactly the new pair.
proof fn lemma_insert_split(
    m0: InternalNode,
    m1: InternalNode,
    d: int,
    key: Key,
    value: Value,
    fr: NodeType,
    lt: NodeType,
    sep: Key,
)
    requires
        int_inv(m0),
        m0.keys@.len() + 2 <= m0.node_size,
        0 <= d <= m0.keys@.len(),
        forall|j: int| 0 <= j < d ==> m0.keys@[j] <= key,
        d < m0.keys@.len() ==> m0.keys@[d] > key,
        m1.node_size == m0.node_size,
        m1.keys@ == m0.keys@.insert(d, sep),
        m1.pointers@.len() == m0.pointers@.len() + 1,
        child(m1, d) == fr,
        child(m1, d + 1) == lt,
        forall|i: int| 0 <= i < d ==> #[trigger] child(m1, i) == child(m0, i),
        forall|i: int| d + 2 <= i <= m1.keys@.len() ==> #[trigger] child(m1, i) == child(m0, i - 1),
        node_inv(fr),
        node_inv(lt),
        !node_at_cap(fr),
        !node_at_cap(lt),
        node_nsize(fr) == m0.node_size as nat,
        node_nsize(lt) == m0.node_size as nat,
        node_ht(fr) == node_ht(child(m0, d)),
        node_ht(lt) == node_ht(child(m0, d)),
        node_kv(fr).union_prefer_right(node_kv(lt)) == node_kv(child(m0, d)).insert(key, value),
        forall|k: Key| node_kv(fr).dom().contains(k) ==> k < sep,
        forall|k: Key| node_kv(lt).dom().contains(k) ==> k >= sep,
        node_kv(lt).dom().contains(sep),
        exists|k: Key| node_kv(fr).dom().contains(k),
    ensures
        int_inv(m1),
        int_kv(m1) == int_kv(m0).insert(key, value),
        int_ht(m1) == int_ht(m0),
{
    lemma_int_frame(m0);
    lemma_int_kv_char(m0);
    lemma_route(m0, key, d);
    let n = m0.keys@.len() as int;
    let cu = node_kv(child(m0, d)).insert(key, value);
    assert(cu.dom() == node_kv(child(m0, d)).dom().insert(key));
    // Position of the separator among the routing keys.
    assert(child_ok(m0, d));
    if d < n {
        assert(sep < m0.keys@[d]) by {
            assert(node_kv(lt).dom().contains(sep));
            assert(cu.dom().contains(sep));
        }
    }
    if d > 0 {
        let kf = choose|k: Key| node_kv(fr).dom().contains(k);
        assert(cu.dom().contains(kf));
        assert(kf >= m0.keys@[d - 1]);
        assert(m0.keys@[d - 1] < sep);
    }
    assert forall|i: int, j: int| 0 <= i < j < m1.keys@.len() implies m1.keys@[i] < m1.keys@[j] by {
        if i < d {
            assert(m1.keys@[i] == m0.keys@[i]);
        }
        if j < d {
            assert(m1.keys@[j] == m0.keys@[j]);
        }
        if i > d {
            assert(m1.keys@[i] == m0.keys@[i - 1]);
        }
        if j > d {
            assert(m1.keys@[j] == m0.keys@[j - 1]);
        }
    }
    assert forall|i: int| 0 <= i <= n + 1 implies #[trigger] child_ok(m1, i) by {
        if i < d {
            assert(child_ok(m0, i));
            assert(i < d ==> m1.keys@[i] == m0.keys@[i]);
            if i > 0 {
                assert(m1.keys@[i - 1] == m0.keys@[i - 1]);
            }
        } else if i == d {
            if d > 0 {
                assert(child_ok(m0, d));
                assert(node_kv(child(m0, d)).dom().contains(m0.keys@[d - 1]));
                assert(cu.dom().contains(m0.keys@[d - 1]));
                assert(m0.keys@[d - 1] < sep);
                assert(!node_kv(lt).dom().contains(m0.keys@[d - 1]));
                assert(cu.dom() == node_kv(fr).dom().union(node_kv(lt).dom()));
                assert(node_kv(fr).dom().contains(m0.keys@[d - 1]));
                assert(m1.keys@[d - 1] == m0.keys@[d - 1]);
            }
            assert forall|k: Key| node_kv(fr).dom().contains(k) implies k >= m1.keys@[d - 1]
                || d == 0 by {
                assert(cu.dom().contains(k));
            }
            assert(m1.keys@[d] == sep);
        } else if i == d + 1 {
            assert(m1.keys@[d] == sep);
            if d + 1 < m1.keys@.len() {
                assert(m1.keys@[d + 1] == m0.keys@[d]);
                assert forall|k: Key| node_kv(lt).dom().contains(k) implies k < m0.keys@[d] by {
                    assert(cu.dom().contains(k));
                }
            }
        } else {
            assert(child_ok(m0, i - 1));
            assert(child(m1, i) == child(m0, i - 1));
            assert(m1.keys@[i - 1] == m0.keys@[i - 2]);
            if i <= m1.keys@.len() - 1 {
                assert(m1.keys@[i] == m0.keys@[i - 1]);
            }
        }
    }
    lemma_children_ok_build(m1, n + 2);
    assert forall|i: int| 0 <= i <= n + 1 implies
        #[trigger] node_ht(child(m1, i)) == node_ht(child(m1, 0)) by {
        if i < d {
            assert(node_ht(child(m0, i)) == node_ht(child(m0, 0)));
        } else if i > d + 1 {
            assert(node_ht(child(m0, i - 1)) == node_ht(child(m0, 0)));
        }
        assert(node_ht(child(m0, d)) == node_ht(child(m0, 0)));
        if d > 0 {
            assert(child(m1, 0) == child(m0, 0));
        }
    }
    if d == 0 {
        let kf = choose|k: Key| node_kv(fr).dom().contains(k);
        assert(node_kv(child(m1, 0)).dom().contains(kf));
    } else {
        let k0 = choose|k: Key| node_kv(child(m0, 0)).dom().contains(k);
        assert(node_kv(child(m1, 0)).dom().contains(k0));
    }
    assert(int_inv(m1));
    lemma_int_frame(m1);
    lemma_int_kv_char(m1);
    let lhs = int_kv(m1);
    let rhs = int_kv(m0).insert(key, value);
    assert forall|k: Key| #[trigger] lhs.dom().contains(k) implies rhs.dom().contains(k)
        && lhs[k] == rhs[k] by {
        let i = choose|i: int| 0 <= i <= n + 1 && node_kv(child(m1, i)).dom().contains(k);
        if i == d || i == d + 1 {
            assert(cu.dom().contains(k));
            if node_kv(lt).dom().contains(k) {
                assert(lhs[k] == node_kv(lt)[k]);
                assert(node_kv(lt)[k] == cu[k]);
            } else {
                assert(node_kv(fr).dom().contains(k));
                assert(lhs[k] == node_kv(fr)[k]);
                assert(node_kv(fr)[k] == cu[k]);
            }
            if k == key {
                assert(cu[k] == value);
            } else {
                assert(node_kv(child(m0, d)).dom().contains(k));
                assert(cu[k] == node_kv(child(m0, d))[k]);
                assert(int_kv(m0)[k] == node_kv(child(m0, d))[k]);
            }
        } else if i < d {
            assert(node_kv(child(m0, i)).dom().contains(k));
            assert(k != key) by {
                if k == key {
                    assert(!node_kv(child(m0, i)).dom().contains(key));
                }
            }
            assert(lhs[k] == node_kv(child(m1, i))[k]);
            assert(rhs[k] == int_kv(m0)[k]);
        } else {
            assert(node_kv(child(m0, i - 1)).dom().contains(k));
            assert(k != key) by {
                if k == key {
                    assert(!node_kv(child(m0, i - 1)).dom().contains(key));
                }
            }
            assert(lhs[k] == node_kv(child(m1, i))[k]);
            assert(rhs[k] == int_kv(m0)[k]);
        }
    }
    assert forall|k: Key| #[trigger] rhs.dom().contains(k) implies lhs.dom().contains(k) by {
        if k == key || node_kv(child(m0, d)).dom().contains(k) {
            assert(cu.dom().contains(k));
            if node_kv(lt).dom().contains(k) {
                assert(node_kv(child(m1, d + 1)).dom().contains(k));
            } else {
                assert(node_kv(fr).dom().contains(k));
                assert(node_kv(child(m1, d)).dom().contains(k));
            }
        } else {
            let i = choose|i: int| 0 <= i <= n && node_kv(child(m0, i)).dom().contains(k);
            if i < d {
                assert(node_kv(child(m1, i)).dom().contains(k));
            } else {
                assert(i != d);
                assert(child(m1, i + 1) == child(m0, i));
                assert(node_kv(child(m1, i + 1)).dom().contains(k));
            }
        }
    }
    assert(lhs =~= rhs);
    assert(child(m1, 0) == *m1.pointers@[0]);
    assert(child(m0, 0) == *m0.pointers@[0]);
    if d == 0 {
        assert(node_ht(child(m1, 0)) == node_ht(child(m0, 0)));
    }
}

impl Node for InternalNode {
    open spec fn inv(&self) -> bool {
        int_inv(*self)
    }

    open spec fn nsize(&self) -> nat {
        self.node_size as nat
    }

    open spec fn at_cap(&self) -> bool {
        self.keys@.len() + 1 == self.node_size
    }

    open spec fn kv(&self) -> Map<Key, Value> {
        int_kv(*self)
    }

    open spec fn ht(&self) -> nat {
        int_ht(*self)
    }

    open spec fn has_keys(&self) -> bool {
        true
    }

    fn first_key(&self) -> (r: &Key)
        decreases *self, 0int,
    {
        proof {
            lemma_int_frame(*self);
            assert(child_ok(*self, 0));
            assert(child(*self, 0) == *self.pointers@[0]);
            lemma_node_has_keys(child(*self, 0));
        }
        let r = self.pointers[0].first_key();
        proof {
            lemma_int_kv_char(*self);
            assert(int_kv(*self).dom().contains(*r));
            assert forall|k: Key| int_kv(*self).dom().contains(k) implies *r <= k by {
                let i = choose|i: int| 0 <= i <= self.keys@.len()
                    && node_kv(child(*self, i)).dom().contains(k);
                assert(child_ok(*self, i));
                if i > 0 {
                    assert(node_kv(child(*self, 0)).dom().contains(*r));
                    assert(*r < self.keys@[0]);
                    assert(self.keys@[0] <= self.keys@[i - 1]);
                    assert(k >= self.keys@[i - 1]);
                }
            }
        }
        r
    }

    fn lookup(&self, key: Key) -> (r: Option<Value>)
        decreases *self, 0int,
    {
        let div = self.get_child_division(key);
        match div {
            Some(d) => {
                proof {
                    lemma_int_frame(*self);
                    lemma_route(*self, key, d as int);
                    assert(child_ok(*self, d as int));
                    assert(child(*self, d as int) == *self.pointers@[d as int]);
                }
                self.pointers[d].lookup(key)
            },
            None => {
                proof {
                    lemma_int_frame(*self);
                    lemma_route(*self, key, self.keys@.len() as int);
                    assert(child_ok(*self, self.keys@.len() as int));
                    assert(child(*self, self.keys@.len() as int) == *self.greater);
                }
                self.greater.lookup(key)
            },
        }
    }

    #[verifier::rlimit(100)]
    fn insert(&mut self, key: Key, value: Value) -> (r: Result<InsertResult, &'static str>)
        ensures
            ({
                let d = division_of(old(self).keys@, key);
                let n0 = old(self).keys@.len() as int;
                &&& (!old(self).at_cap() ==> final(self).keys@.len() == n0
                    || final(self).keys@.len() == n0 + 1)
                &&& (!old(self).at_cap() && final(self).keys@.len() == n0 ==> {
                    &&& final(self).keys@ == old(self).keys@
                    &&& final(self).pointers@.len() == old(self).pointers@.len()
                    &&& (forall|i: int| 0 <= i <= n0 && i != d
                        ==> child(*final(self), i) == child(*old(self), i))
                })
                &&& (!old(self).at_cap() && final(self).keys@.len() == n0 + 1 ==> {
                    &&& final(self).keys@ == old(self).keys@.insert(d, final(self).keys@[d])
                    &&& final(self).pointers@.len() == old(self).pointers@.len() + 1
                    &&& (forall|i: int| 0 <= i < d
                        ==> child(*final(self), i) == child(*old(self), i))
                    &&& (forall|i: int| d + 2 <= i <= n0 + 1
                        ==> child(*final(self), i) == child(*old(self), i - 1))
                })
            }),
        decreases *old(self), 0int,
    {
        let ghost m0 = *old(self);
        proof {
            lemma_int_frame(m0);
        }
        if !self.insertable() {
            return Err("cannot insert into an internal node that is already full");
        }
        let div = self.get_child_division(key);
        match div {
            Some(pos) => {
                proof {
                    lemma_division_of(m0.keys@, key);
                    assert(pos as int == division_of(m0.keys@, key));
                    assert(child_ok(m0, pos as int));
                    assert(child(m0, pos as int) == *self.pointers@[pos as int]);
                }
                let mut c: Box<NodeType> = self.pointers.remove(pos);
                let cres = c.insert(key, value);
                let ghost c1 = *c;
                match cres {
                    Ok(InsertResult::Open) => {
                        let ghost cb = c;
                        self.pointers.insert(pos, c);
                        proof {
                            assert(self.pointers@ =~= m0.pointers@.update(pos as int, cb));
                            assert forall|i: int| 0 <= i <= m0.keys@.len() && i != pos as int
                                implies #[trigger] child(*self, i) == child(m0, i) by {
                            }
                            assert(child(*self, pos as int) == c1);
                            lemma_insert_open(m0, *self, pos as int, key, value);
                        }
                        Ok(InsertResult::Open)
                    },
                    Ok(InsertResult::Full) => {
                        let (fr, lt, sep) = c.meiosis();
                        let ghost gf = *fr;
                        let ghost gl = *lt;
                        self.keys.insert(pos, sep);
                        let ghost v1 = self.pointers@;
                        self.pointers.insert(pos, lt);
                        self.pointers.insert(pos, fr);
                        proof {
                            assert(self.pointers@ =~= v1.insert(pos as int, Box::new(gl)).insert(
                                pos as int, Box::new(gf)));
                            assert(child(*self, pos as int) == gf);
                            assert(child(*self, pos as int + 1) == gl);
                            assert forall|i: int| 0 <= i < pos as int implies
                                #[trigger] child(*self, i) == child(m0, i) by {
                            }
                            assert forall|i: int| pos as int + 2 <= i <= self.keys@.len() implies
                                #[trigger] child(*self, i) == child(m0, i - 1) by {
                            }
                            lemma_insert_split(m0, *self, pos as int, key, value, gf, gl, sep);
                        }
                        if self.keys.len() + 1 == self.node_size {
                            Ok(InsertResult::Full)
                        } else {
                            Ok(InsertResult::Open)
                        }
                    },
                    Err(_) => {
                        proof {
                            assert(false);
                        }
                        Err("cannot insert into an internal node that is already full")
                    },
                }
            },
            None => {
                let ghost d = m0.keys@.len() as int;
                proof {
                    lemma_division_of(m0.keys@, key);
                    assert(d == division_of(m0.keys@, key));
                    assert(child_ok(m0, d));
                    assert(child(m0, d) == *self.greater);
                }
                let cres = self.greater.insert(key, value);
                match cres {
                    Ok(InsertResult::Open) => {
                        proof {
                            assert(child(*self, d) == *self.greater);
                            assert forall|i: int| 0 <= i <= m0.keys@.len() && i != d implies
                                #[trigger] child(*self, i) == child(m0, i) by {
                            }
                            lemma_insert_open(m0, *self, d, key, value);
                        }
                        Ok(InsertResult::Open)
                    },
                    Ok(InsertResult::Full) => {
                        let (fr, lt, sep) = self.greater.meiosis();
                        let ghost gf = *fr;
                        let ghost gl = *lt;
                        self.keys.push(sep);
                        self.pointers.push(fr);
                        self.greater = lt;
                        proof {
                            assert(self.keys@ =~= m0.keys@.insert(d, sep));
                            assert(child(*self, d) == gf);
                            assert(child(*self, d + 1) == gl);
                            assert forall|i: int| 0 <= i < d implies
                                #[trigger] child(*self, i) == child(m0, i) by {
                            }
                            lemma_insert_split(m0, *self, d, key, value, gf, gl, sep);
                        }
                        if self.keys.len() + 1 == self.node_size {
                            Ok(InsertResult::Full)
                        } else {
                            Ok(InsertResult::Open)
                        }
                    },
                    Err(_) => {
                        proof {
                            assert(false);
                        }
                        Err("cannot insert into an internal node that is already full")
                    },
                }
            },
        }
    }

    fn meiosis(&self) -> (r: (Box<NodeType>, Box<NodeType>, Key))
        ensures
            ({
                let div_at = self.node_size as int / 2 - 1;
                r.2 == self.keys@[div_at]
                    && ((*r.0) matches NodeType::Int(f)
                    && (*r.1) matches NodeType::Int(l)
                    && f.node_size == self.node_size
                    && l.node_size == self.node_size
                    && f.keys@ == self.keys@.subrange(0, div_at)
                    && l.keys@ == self.keys@.subrange(div_at + 1, self.keys@.len() as int)
                    && f.pointers@.len() == div_at
                    && l.pointers@.len() == self.pointers@.len() - div_at - 1
                    && (forall|i: int| 0 <= i < div_at
                        ==> crate::node::node_sim(*f.pointers@[i], *self.pointers@[i]))
                    && crate::node::node_sim(*f.greater, *self.pointers@[div_at])
                    && (forall|t: int| 0 <= t < l.pointers@.len()
                        ==> crate::node::node_sim(*l.pointers@[t], *self.pointers@[div_at + 1 + t]))
                    && crate::node::node_sim(*l.greater, *self.greater))
            }),
    {
        proof {
            lemma_int_frame(*self);
            lemma_int_kv_char(*self);
        }
        let div_at = self.node_size / 2 - 1;
        proof {
            assert(1 <= div_at < self.keys@.len());
        }
        let sep = self.keys[div_at];
        let fk = copy_range(&self.keys, 0, div_at);
        let mut fp: Vec<Box<NodeType>> = Vec::new();
        let mut i: usize = 0;
        while i < div_at
            invariant
                int_frame(*self),
                i <= div_at,
                div_at < self.pointers@.len(),
                fp@.len() == i,
                forall|j: int| 0 <= j < i ==> {
                    &&& crate::node::node_sim(*fp@[j], *self.pointers@[j])
                    &&& node_kv(*fp@[j]) == node_kv(*self.pointers@[j])
                    &&& node_ht(*fp@[j]) == node_ht(*self.pointers@[j])
                    &&& node_nsize(*fp@[j]) == node_nsize(*self.pointers@[j])
                    &&& node_at_cap(*fp@[j]) == node_at_cap(*self.pointers@[j])
                    &&& (node_inv(*self.pointers@[j]) ==> node_inv(*fp@[j]))
                },
            decreases div_at - i,
        {
            fp.push(Box::new((*self.pointers[i]).clone()));
            i = i + 1;
        }
        let fg = Box::new((*self.pointers[div_at]).clone());
        let former = InternalNode { node_size: self.node_size, keys: fk, pointers: fp, greater: fg };
        let lk = copy_range(&self.keys, div_at + 1, self.keys.len());
        let mut lp: Vec<Box<NodeType>> = Vec::new();
        let mut j: usize = div_at + 1;
        while j < self.pointers.len()
            invariant
                int_frame(*self),
                div_at + 1 <= j <= self.pointers@.len(),
                lp@.len() == j - (div_at + 1),
                forall|t: int| 0 <= t < j - (div_at + 1) ==> {
                    &&& crate::node::node_sim(*lp@[t], *self.pointers@[div_at + 1 + t])
                    &&& node_kv(*lp@[t]) == node_kv(*self.pointers@[div_at + 1 + t])
                    &&& node_ht(*lp@[t]) == node_ht(*self.pointers@[div_at + 1 + t])
                    &&& node_nsize(*lp@[t]) == node_nsize(*self.pointers@[div_at + 1 + t])
                    &&& node_at_cap(*lp@[t]) == node_at_cap(*self.pointers@[div_at + 1 + t])
                    &&& (node_inv(*self.pointers@[div_at + 1 + t]) ==> node_inv(*lp@[t]))
                },
            decreases self.pointers@.len() - j,
        {
            lp.push(Box::new((*self.pointers[j]).clone()));
            j = j + 1;
        }
        let lg = Box::new((*self.greater).clone());
        let latter = InternalNode { node_size: self.node_size, keys: lk, pointers: lp, greater: lg };
        proof {
            lemma_int_meiosis(*self, former, latter, div_at as int, sep);
        }
        let fb = Box::new(NodeType::Int(former));
        let lb = Box::new(NodeType::Int(latter));
        proof {
            assert(exists|k: Key| node_kv(*fb).dom().contains(k)) by {
                let kw = choose|k: Key| int_kv(former).dom().contains(k);
                assert(node_kv(*fb).dom().contains(kw));
            }
        }
        (fb, lb, sep)
    }

    fn height(&self) -> (r: usize)
        decreases *self, 0int,
    {
        proof {
            crate::lemmas::lemma_ht_le(NodeType::Int(*self));
            lemma_int_frame(*self);
            assert(child_ok(*self, 0));
            assert(child(*self, 0) == *self.pointers@[0]);
        }
        let h = self.pointers[0].height();
        h + 1
    }
}

/// The split of a full internal node: given the two halves assembled from
/// model-preserving copies of the children, both halves are sound, they
/// partition the stored map at the promoted key, and heights are kept.
#[verifier::rlimit(100)]
proof fn lemma_int_meiosis(
    m: InternalNode,
    former: InternalNode,
    latter: InternalNode,
    div_at: int,
    sep: Key,
)
    requires
        int_inv(m),
        m.keys@.len() + 1 == m.node_size,
        div_at == m.node_size as int / 2 - 1,
        sep == m.keys@[div_at],
        former.node_size == m.node_size,
        latter.node_size == m.node_size,
        former.keys@ == m.keys@.subrange(0, div_at),
        latter.keys@ == m.keys@.subrange(div_at + 1, m.keys@.len() as int),
        former.pointers@.len() == div_at,
        latter.pointers@.len() == m.pointers@.len() - div_at - 1,
        forall|i: int| 0 <= i <= div_at ==> {
            &&& node_kv(#[trigger] child(former, i)) == node_kv(child(m, i))
            &&& node_ht(child(former, i)) == node_ht(child(m, i))
            &&& node_nsize(child(former, i)) == node_nsize(child(m, i))
            &&& node_at_cap(child(former, i)) == node_at_cap(child(m, i))
            &&& (node_inv(child(m, i)) ==> node_inv(child(former, i)))
        },
        forall|t: int| 0 <= t <= latter.pointers@.len() ==> {
            &&& node_kv(#[trigger] child(latter, t)) == node_kv(child(m, div_at + 1 + t))
            &&& node_ht(child(latter, t)) == node_ht(child(m, div_at + 1 + t))
            &&& node_nsize(child(latter, t)) == node_nsize(child(m, div_at + 1 + t))
            &&& node_at_cap(child(latter, t)) == node_at_cap(child(m, div_at + 1 + t))
            &&& (node_inv(child(m, div_at + 1 + t)) ==> node_inv(child(latter, t)))
        },
    ensures
        int_inv(former),
        int_inv(latter),
        !node_at_cap(NodeType::Int(former)),
        !node_at_cap(NodeType::Int(latter)),
        int_ht(former) == int_ht(m),
        int_ht(latter) == int_ht(m),
        int_kv(former).union_prefer_right(int_kv(latter)) == int_kv(m),
        forall|k: Key| int_kv(former).dom().contains(k) ==> k < sep,
        forall|k: Key| int_kv(latter).dom().contains(k) ==> k >= sep,
        int_kv(latter).dom().contains(sep),
        exists|k: Key| int_kv(former).dom().contains(k),
{
    lemma_int_frame(m);
    lemma_int_kv_char(m);
    let n = m.keys@.len() as int;
    // The former half.
    assert forall|i: int| 0 <= i <= former.keys@.len() implies #[trigger] child_ok(former, i) by {
        assert(child_ok(m, i));
    }
    lemma_children_ok_build(former, div_at + 1);
    assert forall|i: int| 0 <= i <= former.keys@.len() implies
        #[trigger] node_ht(child(former, i)) == node_ht(child(former, 0)) by {
        assert(node_ht(child(m, i)) == node_ht(child(m, 0)));
    }
    let k0 = choose|k: Key| node_kv(child(m, 0)).dom().contains(k);
    assert(node_kv(child(former, 0)).dom().contains(k0));
    assert(int_inv(former));
    // The latter half.
    assert forall|t: int| 0 <= t <= latter.keys@.len() implies #[trigger] child_ok(latter, t) by {
        assert(child_ok(m, div_at + 1 + t));
        assert(latter.keys@.len() == n - div_at - 1);
        if t < latter.keys@.len() {
            assert(latter.keys@[t] == m.keys@[div_at + 1 + t]);
        }
        if t > 0 {
            assert(latter.keys@[t - 1] == m.keys@[div_at + t]);
        }
    }
    lemma_children_ok_build(latter, n - div_at);
    assert forall|t: int| 0 <= t <= latter.keys@.len() implies
        #[trigger] node_ht(child(latter, t)) == node_ht(child(latter, 0)) by {
        assert(node_ht(child(m, div_at + 1 + t)) == node_ht(child(m, 0)));
        assert(node_ht(child(m, div_at + 1)) == node_ht(child(m, 0)));
    }
    assert(child_ok(m, div_at + 1));
    assert(node_kv(child(m, div_at + 1)).dom().contains(sep));
    assert(node_kv(child(latter, 0)).dom().contains(sep));
    assert(int_inv(latter));
    lemma_int_frame(former);
    lemma_int_frame(latter);
    lemma_int_kv_char(former);
    lemma_int_kv_char(latter);
    // Partition around the promoted key.
    assert forall|k: Key| #[trigger] int_kv(former).dom().contains(k) implies k < sep by {
        let i = choose|i: int| 0 <= i <= former.keys@.len()
            && node_kv(child(former, i)).dom().contains(k);
        assert(child_ok(m, i));
        assert(k < m.keys@[i]);
        assert(m.keys@[i] <= m.keys@[div_at]);
    }
    assert forall|k: Key| #[trigger] int_kv(latter).dom().contains(k) implies k >= sep by {
        let t = choose|t: int| 0 <= t <= latter.keys@.len()
            && node_kv(child(latter, t)).dom().contains(k);
        assert(child_ok(m, div_at + 1 + t));
        assert(k >= m.keys@[div_at + t]);
        assert(m.keys@[div_at] <= m.keys@[div_at + t]);
    }
    assert(int_kv(latter).dom().contains(sep));
    assert(int_kv(former).dom().contains(k0));
    // The two halves hold exactly the node's map.
    let u = int_kv(former).union_prefer_right(int_kv(latter));
    assert forall|k: Key| #[trigger] int_kv(m).dom().contains(k) implies u.dom().contains(k)
        && u[k] == int_kv(m)[k] by {
        let i = choose|i: int| 0 <= i <= n && node_kv(child(m, i)).dom().contains(k);
        if i <= div_at {
            assert(node_kv(child(former, i)).dom().contains(k));
            assert(int_kv(former).dom().contains(k));
            assert(int_kv(former)[k] == node_kv(child(m, i))[k]);
            assert(k < sep);
            assert(!int_kv(latter).dom().contains(k));
        } else {
            let t = i - div_at - 1;
            assert(node_kv(child(latter, t)).dom().contains(k));
            assert(int_kv(latter).dom().contains(k));
            assert(int_kv(latter)[k] == node_kv(child(m, i))[k]);
        }
    }
    assert forall|k: Key| #[trigger] u.dom().contains(k) implies int_kv(m).dom().contains(k) by {
        if int_kv(former).dom().contains(k) {
            let i = choose|i: int| 0 <= i <= former.keys@.len()
                && node_kv(child(former, i)).dom().contains(k);
            assert(node_kv(child(m, i)).dom().contains(k));
        } else {
            let t = choose|t: int| 0 <= t <= latter.keys@.len()
                && node_kv(child(latter, t)).dom().contains(k);
            assert(node_kv(child(m, div_at + 1 + t)).dom().contains(k));
        }
    }
    assert(u =~= int_kv(m));
    // Heights.
    assert(child(former, 0) == *former.pointers@[0]);
    assert(child(latter, 0) == *latter.pointers@[0]);
    assert(child(m, 0) == *m.pointers@[0]);
    assert(node_ht(child(m, div_at + 1)) == node_ht(child(m, 0)));
}

} // verus!
