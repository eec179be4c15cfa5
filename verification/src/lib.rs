//! An in-memory ordered key-value index built as a B+-tree.
//!
//! All values live in leaf (external) nodes, which are linked in sorted
//! order; internal nodes hold only routing keys. Nodes split ("meiosis")
//! when they become full, and the split results propagate upward as return
//! values until the tree handle grows a new root.

mod bptree;
mod external;
mod internal;
mod lemmas;
mod node;
mod render;

pub use crate::bptree::BPlusTree;
pub use crate::external::ExternalNode;
pub use crate::external::leaf_inv;
pub use crate::external::leaf_kv;
pub use crate::external::leaf_sim;
pub use crate::internal::InternalNode;
pub use crate::internal::child;
pub use crate::internal::children_sim;
pub use crate::internal::division_of;
pub use crate::internal::int_inv;
pub use crate::internal::int_kv;
pub use crate::internal::int_sim;
pub use crate::internal::lemma_division_of;
pub use crate::node::InsertResult;
pub use crate::node::Key;
pub use crate::node::NodeType;
pub use crate::node::Value;
pub use crate::lemmas::balanced;
pub use crate::lemmas::distinct_keys;
pub use crate::lemmas::is_first_key;
pub use crate::lemmas::lemma_balanced_node;
pub use crate::lemmas::lemma_ht_le;
pub use crate::lemmas::lemma_kv_interval;
pub use crate::lemmas::lemma_round_trip;
pub use crate::lemmas::lemma_sorted_order_node;
pub use crate::lemmas::map_of_pairs;
pub use crate::lemmas::sorted_order_ok;
pub use crate::node::Node;
pub use crate::render::render_node;
pub use crate::render::dec_rep;
pub use crate::node::node_at_cap;
pub use crate::node::node_has_keys;
pub use crate::node::node_sim;
pub use crate::node::node_nsize;
pub use crate::node::strict_sorted;
pub use crate::node::node_ht;
pub use crate::node::node_inv;
pub use crate::node::node_kv;
