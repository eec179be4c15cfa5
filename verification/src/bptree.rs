//! The B+-tree handle: owns the root node and the configured node size,
//! delegates insert/lookup/height to the root, and grows a new root when
//! the old one splits.

use vstd::prelude::*;

use crate::external::ExternalNode;
use crate::external::leaf_kv;
use crate::external::lemma_leaf_kv;
use crate::internal::InternalNode;
use crate::lemmas::balanced;
use crate::lemmas::lemma_balanced_node;
use crate::lemmas::lemma_sorted_order_node;
use crate::lemmas::sorted_order_ok;
use crate::node::InsertResult;
use crate::node::Key;
use crate::node::Node;
use crate::node::NodeType;
use crate::node::Value;
use crate::node::node_at_cap;
use crate::node::node_ht;
use crate::node::node_inv;
use crate::node::node_kv;
use crate::node::node_nsize;

verus! {

/// An in-memory ordered key-value index. The tree always succeeds in
/// inserting, keeps every leaf at the same depth, and answers lookups
/// exactly according to the map of pairs inserted so far.
#[derive(Debug, Clone)]
pub struct BPlusTree {
    node_size: usize,
    root: NodeType,
}

impl View for BPlusTree {
    type V = Map<Key, Value>;

    /// The key-value map the tree holds.
    closed spec fn view(&self) -> Map<Key, Value> {
        node_kv(self.root)
    }
}

impl BPlusTree {
    /// Well-formedness: a sound root below capacity, with the tree's node
    /// size. Established by `new` and preserved by every operation.
    pub closed spec fn wf(self) -> bool {
        &&& self.node_size >= 4
        &&& node_inv(self.root)
        &&& !node_at_cap(self.root)
        &&& node_nsize(self.root) == self.node_size
    }

    /// The root node (for stating structural laws about the tree).
    pub closed spec fn spec_root(self) -> NodeType {
        self.root
    }

    /// The configured node size.
    pub closed spec fn spec_node_size(self) -> nat {
        self.node_size as nat
    }

    /// The height of the tree: 1 while the root is a leaf.
    pub closed spec fn spec_height(self) -> nat {
        node_ht(self.root)
    }

    /// A fresh tree: an empty root leaf. Node sizes below 4 would leave an
    /// internal node too small to split and are therefore excluded.
    pub fn new(node_size: usize) -> (r: Self)
        requires
            node_size >= 4,
        ensures
            r.wf(),
            r@ == Map::<Key, Value>::empty(),
            r.spec_height() == 1,
            r.spec_node_size() == node_size,
    {
        let r = BPlusTree { node_size, root: NodeType::Ext(ExternalNode::new(node_size)) };
        r
    }

    /// Inserts the pair; an already present key has its value replaced.
    /// Always succeeds on a well-formed tree; the height grows by at most
    /// one, and only when the root itself splits: whenever it grows, the
    /// old root has been replaced by a brand-new internal root with a
    /// single routing key, wrapping the two halves of the split, and that
    /// key is the first key of the right half.
    pub fn insert(&mut self, key: Key, value: Value) -> (r: Result<(), ()>)
        requires
            old(self).wf(),
        ensures
            final(self).wf(),
            final(self)@ == old(self)@.insert(key, value),
            final(self).spec_node_size() == old(self).spec_node_size(),
            old(self).spec_height() <= final(self).spec_height() <= old(self).spec_height() + 1,
            old(self).spec_height() == 1 && old(self)@.dom().len() + 1 < old(self).spec_node_size()
                ==> final(self).spec_height() == 1,
            final(self).spec_height() == old(self).spec_height() + 1
                ==> (final(self).spec_root() matches NodeType::Int(m)
                && m.keys@.len() == 1
                && m.pointers@.len() == 1
                && node_kv(*m.pointers@[0]).union_prefer_right(node_kv(*m.greater))
                    == final(self)@
                && (forall|k: Key| node_kv(*m.pointers@[0]).dom().contains(k)
                    ==> k < m.keys@[0])
                && (forall|k: Key| node_kv(*m.greater).dom().contains(k) ==> k >= m.keys@[0])
                && node_kv(*m.greater).dom().contains(m.keys@[0])
                && node_ht(*m.pointers@[0]) == old(self).spec_height()
                && node_ht(*m.greater) == old(self).spec_height()),
            r == Ok::<(), ()>(()),
    {
        match self.root.insert(key, value) {
            Ok(InsertResult::Open) => Ok(()),
            Ok(InsertResult::Full) => {
                proof {
                    if node_ht(old(self).root) == 1
                        && node_kv(old(self).root).dom().len() + 1 < old(self).node_size {
                        match old(self).root {
                            NodeType::Ext(l) => {
                                lemma_leaf_kv(l);
                                assert(l.keys@.len() + 1 < l.node_size);
                                let ghost rootnow = self.root;
                                match rootnow {
                                    NodeType::Ext(l2) => {
                                        lemma_leaf_kv(l2);
                                        assert(l2.keys@.len() == l2.node_size);
                                        assert(leaf_kv(l2).dom()
                                            == leaf_kv(l).dom().insert(key));
                                        vstd::set::axiom_set_insert_len(
                                            leaf_kv(l).dom(), key);
                                        assert(leaf_kv(l2).dom().len()
                                            <= leaf_kv(l).dom().len() + 1);
                                        assert(false);
                                    },
                                    NodeType::Int(m2) => {
                                        assert(m2.pointers@.len() >= 1);
                                        crate::lemmas::lemma_node_ht_pos(*m2.pointers@[0]);
                                        assert(node_ht(rootnow) >= 2);
                                        assert(false);
                                    },
                                }
                            },
                            NodeType::Int(m) => {
                                crate::lemmas::lemma_node_ht_pos(*m.pointers@[0]);
                                assert(m.pointers@.len() >= 1);
                                assert(false);
                            },
                        }
                    }
                }
                let (node1, node2, k) = self.root.meiosis();
                proof {
                    let kw = choose|kx: Key| node_kv(*node1).dom().contains(kx);
                    assert(node_kv(*node1).dom().contains(kw));
                }
                let new_root = InternalNode::new_by_nodes(self.node_size, node1, node2, k);
                self.root = NodeType::Int(new_root);
                proof {
                    let ghost m = new_root;
                    assert(m.pointers@[0] == node1);
                    assert(m.greater == node2);
                }
                Ok(())
            },
            _ => {
                proof {
                    assert(false);
                }
                Err(())
            },
        }
    }

    /// Looks up the value stored for `key`; `None` exactly when the key
    /// was never inserted. Never mutates, so repeated lookups without an
    /// intervening insert return identical results.
    pub fn lookup(&self, key: Key) -> (r: Option<Value>)
        requires
            self.wf(),
        ensures
            r == (if self@.dom().contains(key) {
                Some(self@[key])
            } else {
                None::<Value>
            }),
    {
        self.root.lookup(key)
    }

    /// The height of the tree: the number of nodes on the path from the
    /// root down to (and including) any leaf.
    pub fn height(&self) -> (r: usize)
        requires
            self.wf(),
        ensures
            r as nat == self.spec_height(),
    {
        self.root.height()
    }

    /// The bracketed, comma-separated rendering of the tree for human
    /// inspection: leaf contents nested per internal level, with each
    /// routing key between the children it separates.
    pub fn render(&self) -> (r: String)
        requires
            self.wf(),
        ensures
            r@ == crate::render::render_node(self.spec_root()),
    {
        crate::render::render_text(&self.root)
    }

    /// Sorted-order law: in every well-formed tree, each leaf keeps its
    /// keys strictly increasing, and each internal node's routing key
    /// equals the first (smallest) key of the child to its right.
    pub proof fn lemma_sorted_order(self)
        requires
            self.wf(),
        ensures
            sorted_order_ok(self.spec_root()),
    {
        lemma_sorted_order_node(self.root);
    }

    /// Balance law: in every well-formed tree, all leaves sit at the same
    /// depth below the root.
    pub proof fn lemma_balanced(self)
        requires
            self.wf(),
        ensures
            balanced(self.spec_root()),
    {
        lemma_balanced_node(self.root);
    }

    /// Height-growth law: a root leaf holds at most `node_size - 1` keys,
    /// so a well-formed tree with more distinct keys than that cannot have
    /// height 1 any more.
    pub proof fn lemma_height_growth(self)
        requires
            self.wf(),
            self@.dom().len() > self.spec_node_size() - 1,
        ensures
            self.spec_height() >= 2,
    {
        match self.root {
            NodeType::Ext(l) => {
                lemma_leaf_kv(l);
                assert(leaf_kv(l).dom().len() == l.keys@.len());
                assert(false);
            },
            NodeType::Int(m) => {
                assert(m.pointers@.len() >= 1);
                crate::lemmas::lemma_node_ht_pos(*m.pointers@[0]);
                assert(self.spec_height() == 1 + node_ht(*m.pointers@[0]));
            },
        }
    }
}

} // verus!
