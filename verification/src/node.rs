//! The shared node contract of the B+-tree, the polymorphic node type, and
//! the mathematical model (key-value map, height, invariant) that the
//! contracts of every node operation are stated over.

use vstd::prelude::*;

use crate::external::ExternalNode;
use crate::external::leaf_inv;
use crate::external::leaf_kv;
use crate::external::leaf_sim;
use crate::internal::InternalNode;
use crate::internal::int_ht;
use crate::internal::int_inv;
use crate::internal::int_kv;
use crate::internal::int_sim;

verus! {

/// Keys stored in the tree: a totally ordered scalar.
pub type Key = usize;

/// Values associated one-to-one with keys.
pub type Value = usize;

/// Outcome of a successful insertion. `Full` signals that the node has just
/// reached its maximum occupancy and the caller must split it; `Open` means
/// there is still room.
#[derive(Debug, Clone, PartialEq)]
pub enum InsertResult {
    Full,
    Open,
}

/// A node is either an internal (routing) node or an external (leaf) node.
#[derive(Debug)]
pub enum NodeType {
    Int(InternalNode),
    Ext(ExternalNode),
}

impl Clone for NodeType {
    /// A deep copy of the whole subtree. The copy carries the same model:
    /// the same stored map, height, fan-out, capacity state and structural
    /// soundness.
    fn clone(&self) -> (r: Self)
        ensures
            node_sim(r, *self),
            node_kv(r) == node_kv(*self),
            node_ht(r) == node_ht(*self),
            node_nsize(r) == node_nsize(*self),
            node_at_cap(r) == node_at_cap(*self),
            node_inv(*self) ==> node_inv(r),
        decreases *self, 1int,
    {
        match self {
            NodeType::Int(node) => NodeType::Int(node.clone()),
            NodeType::Ext(node) => {
                let copy = node.clone();
                proof {
                    assert(copy.keys@ == node.keys@);
                    assert(leaf_kv(copy) == leaf_kv(*node));
                }
                NodeType::Ext(copy)
            },
        }
    }
}

/// Two nodes hold the same data, structurally: the same variant, and
/// field for field the same keys, values and children (vectors compared
/// by their contents).
pub open spec fn node_sim(a: NodeType, b: NodeType) -> bool
    decreases a, 2int, 0int,
{
    match (a, b) {
        (NodeType::Ext(x), NodeType::Ext(y)) => leaf_sim(x, y),
        (NodeType::Int(x), NodeType::Int(y)) => int_sim(x, y),
        _ => false,
    }
}

/// The keys of `s` are strictly increasing.
pub open spec fn strict_sorted(s: Seq<Key>) -> bool {
    forall|i: int, j: int| 0 <= i < j < s.len() ==> s[i] < s[j]
}

/// The configured fan-out parameter of a node.
pub open spec fn node_nsize(n: NodeType) -> nat {
    match n {
        NodeType::Int(m) => m.node_size as nat,
        NodeType::Ext(l) => l.node_size as nat,
    }
}

/// The node visibly holds at least one key: an internal node always
/// does, a leaf exactly when its key vector is non-empty.
pub open spec fn node_has_keys(n: NodeType) -> bool {
    match n {
        NodeType::Int(_) => true,
        NodeType::Ext(l) => l.keys@.len() > 0,
    }
}

/// A node at maximum occupancy: a leaf holds `node_size` keys, an internal
/// node `node_size - 1` keys (one slot of the key-parity budget is taken by
/// the implicit "greater" child).
pub open spec fn node_at_cap(n: NodeType) -> bool {
    match n {
        NodeType::Int(m) => m.keys@.len() + 1 == m.node_size,
        NodeType::Ext(l) => l.keys@.len() == l.node_size,
    }
}

/// The key-value pairs stored in the subtree rooted at `n`.
pub open spec fn node_kv(n: NodeType) -> Map<Key, Value>
    decreases n, 0int,
{
    match n {
        NodeType::Int(m) => int_kv(m),
        NodeType::Ext(l) => leaf_kv(l),
    }
}

/// The height of a node: a leaf has height 1, an internal node is one more
/// than its children (which all have the same height).
pub open spec fn node_ht(n: NodeType) -> nat
    decreases n, 1int,
{
    match n {
        NodeType::Int(m) => int_ht(m),
        NodeType::Ext(_) => 1,
    }
}

/// Structural invariant of a node. The node itself is allowed to be at
/// capacity (that state occurs transiently, between an insertion that fills
/// it and the split its parent performs), but all strict descendants are
/// below capacity.
pub open spec fn node_inv(n: NodeType) -> bool
    decreases n, 3int, 0int,
{
    match n {
        NodeType::Int(m) => int_inv(m),
        NodeType::Ext(l) => leaf_inv(l),
    }
}

/// The contract every node variant supports. The spec functions give each
/// variant's reading of the shared model: its invariant, fan-out, capacity
/// state, stored key-value map and height. Splitting always hands back two
/// boxed `NodeType` siblings plus the separator key the parent must insert
/// between them.
pub trait Node: Sized {
    /// Structural invariant (the node itself may be at capacity).
    spec fn inv(&self) -> bool;

    /// The configured fan-out parameter.
    spec fn nsize(&self) -> nat;

    /// The node has just reached its maximum occupancy.
    spec fn at_cap(&self) -> bool;

    /// The key-value pairs stored under this node.
    spec fn kv(&self) -> Map<Key, Value>;

    /// Height: 1 for a leaf, one more than the children otherwise.
    spec fn ht(&self) -> nat;

    /// The node visibly holds at least one key.
    spec fn has_keys(&self) -> bool;

    /// The smallest key reachable under this node; defined only when the
    /// subtree is non-empty.
    fn first_key(&self) -> (r: &Key)
        requires
            self.inv(),
            self.has_keys(),
        ensures
            self.kv().dom().contains(*r),
            forall|k: Key| self.kv().dom().contains(k) ==> *r <= k,
    ;

    /// The value stored for `key`, or `None` if the key is absent. Never
    /// mutates and never fails.
    fn lookup(&self, key: Key) -> (r: Option<Value>)
        requires
            self.inv(),
        ensures
            r == (if self.kv().dom().contains(key) {
                Some(self.kv()[key])
            } else {
                None::<Value>
            }),
    ;

    /// Inserts the pair, keeping the keys sorted; inserting a key that is
    /// already present replaces its value. Returns `Full` exactly when the
    /// node has just reached its maximum occupancy (the caller must then
    /// split it), and fails exactly when called on a node already at
    /// capacity, leaving the node unchanged.
    fn insert(&mut self, key: Key, value: Value) -> (r: Result<InsertResult, &'static str>)
        requires
            old(self).inv(),
        ensures
            final(self).nsize() == old(self).nsize(),
            (r matches Err(_)) <==> old(self).at_cap(),
            old(self).at_cap() ==> *final(self) == *old(self),
            !old(self).at_cap() ==> final(self).inv(),
            !old(self).at_cap() ==> final(self).kv() == old(self).kv().insert(key, value),
            !old(self).at_cap() ==> final(self).ht() == old(self).ht(),
            !old(self).at_cap() ==> ((r matches Ok(InsertResult::Full)) <==> final(self).at_cap()),
    ;

    /// Splits a node at capacity into two half-populated siblings of the
    /// same variant, returning them with the separator key that routes
    /// between them: every key of the left sibling is below the separator,
    /// every key of the right one at or above it, and the separator is the
    /// first key of the right sibling.
    fn meiosis(&self) -> (r: (Box<NodeType>, Box<NodeType>, Key))
        requires
            self.inv(),
            self.at_cap(),
        ensures
            node_inv(*r.0),
            node_inv(*r.1),
            !node_at_cap(*r.0),
            !node_at_cap(*r.1),
            node_nsize(*r.0) == self.nsize(),
            node_nsize(*r.1) == self.nsize(),
            node_ht(*r.0) == self.ht(),
            node_ht(*r.1) == self.ht(),
            node_kv(*r.0).union_prefer_right(node_kv(*r.1)) == self.kv(),
            forall|k: Key| node_kv(*r.0).dom().contains(k) ==> k < r.2,
            forall|k: Key| node_kv(*r.1).dom().contains(k) ==> k >= r.2,
            node_kv(*r.1).dom().contains(r.2),
            exists|k: Key| node_kv(*r.0).dom().contains(k),
    ;

    /// The height of the node.
    fn height(&self) -> (r: usize)
        requires
            self.inv(),
        ensures
            r as nat == self.ht(),
    ;
}

impl Node for NodeType {
    open spec fn inv(&self) -> bool {
        node_inv(*self)
    }

    open spec fn nsize(&self) -> nat {
        node_nsize(*self)
    }

    open spec fn at_cap(&self) -> bool {
        node_at_cap(*self)
    }

    open spec fn kv(&self) -> Map<Key, Value> {
        node_kv(*self)
    }

    open spec fn ht(&self) -> nat {
        node_ht(*self)
    }

    open spec fn has_keys(&self) -> bool {
        node_has_keys(*self)
    }

    fn first_key(&self) -> (r: &Key)
        decreases *self, 1int,
    {
        match self {
            NodeType::Int(node) => node.first_key(),
            NodeType::Ext(node) => node.first_key(),
        }
    }

    fn lookup(&self, key: Key) -> (r: Option<Value>)
        decreases *self, 1int,
    {
        match self {
            NodeType::Int(node) => node.lookup(key),
            NodeType::Ext(node) => node.lookup(key),
        }
    }

    fn insert(&mut self, key: Key, value: Value) -> (r: Result<InsertResult, &'static str>)
        decreases *old(self), 1int,
    {
        match self {
            NodeType::Int(node) => node.insert(key, value),
            NodeType::Ext(node) => node.insert(key, value),
        }
    }

    fn meiosis(&self) -> (r: (Box<NodeType>, Box<NodeType>, Key)) {
        match self {
            NodeType::Int(node) => node.meiosis(),
            NodeType::Ext(node) => node.meiosis(),
        }
    }

    fn height(&self) -> (r: usize)
        decreases *self, 1int,
    {
        match self {
            NodeType::Int(node) => node.height(),
            NodeType::Ext(node) => node.height(),
        }
    }
}

} // verus!
