//! External (leaf) nodes: ordered keys with their parallel values, plus the
//! forward link that chains all leaves in ascending key order.

use vstd::prelude::*;

use crate::node::InsertResult;
use crate::node::Key;
use crate::node::Node;
use crate::node::NodeType;
use crate::node::Value;
use crate::node::node_kv;
use crate::node::strict_sorted;

verus! {

/// A leaf node. `keys` is kept strictly increasing and `values` is
/// index-aligned with it; `next` links to (a copy of the state of) the leaf
/// that follows this one in sort order.
#[derive(Debug)]
pub struct ExternalNode {
    pub node_size: usize,
    pub keys: Vec<Key>,
    pub values: Vec<Value>,
    pub next: Option<Box<ExternalNode>>,
}

/// The map holding the first `n` key-value pairs of the parallel sequences.
pub open spec fn kv_upto(keys: Seq<Key>, values: Seq<Value>, n: int) -> Map<Key, Value>
    decreases n,
{
    if n <= 0 {
        Map::empty()
    } else {
        kv_upto(keys, values, n - 1).insert(keys[n - 1], values[n - 1])
    }
}

/// The key-value pairs stored in a leaf.
pub open spec fn leaf_kv(l: ExternalNode) -> Map<Key, Value> {
    kv_upto(l.keys@, l.values@, l.keys@.len() as int)
}

/// Structural invariant of a leaf: strictly sorted keys, values aligned,
/// and at most `node_size` keys (exactly `node_size` only transiently,
/// while a split is pending). A node size of at least 2 is what the
/// leaf's own split needs to hand back two non-empty halves; the shared
/// node contract makes the invariant the split's only precondition, so
/// the bound lives here.
pub open spec fn leaf_inv(l: ExternalNode) -> bool {
    &&& l.node_size >= 2
    &&& l.keys@.len() <= l.node_size
    &&& l.values@.len() == l.keys@.len()
    &&& strict_sorted(l.keys@)
}

/// Two leaves hold the same data: equal keys, values and node size, and
/// forward links that again hold the same data.
pub open spec fn leaf_sim(a: ExternalNode, b: ExternalNode) -> bool
    decreases a,
{
    &&& a.node_size == b.node_size
    &&& a.keys@ == b.keys@
    &&& a.values@ == b.values@
    &&& match (a.next, b.next) {
        (Option::None, Option::None) => true,
        (Option::Some(x), Option::Some(y)) => leaf_sim(*x, *y),
        _ => false,
    }
}

/// What `kv_upto` contains: exactly the first `n` keys, each mapped to the
/// value at the matching index. Distinctness of the keys (here from strict
/// sortedness) makes the index of each key unique.
pub proof fn lemma_kv_upto(keys: Seq<Key>, values: Seq<Value>, n: int)
    requires
        strict_sorted(keys),
        0 <= n <= keys.len(),
        values.len() == keys.len(),
    ensures
        forall|k: Key| #[trigger] kv_upto(keys, values, n).dom().contains(k)
            <==> exists|i: int| 0 <= i < n && keys[i] == k,
        forall|i: int| 0 <= i < n ==> kv_upto(keys, values, n)[keys[i]] == values[i],
        kv_upto(keys, values, n).dom().finite(),
        kv_upto(keys, values, n).dom().len() == n,
    decreases n,
{
    if n > 0 {
        lemma_kv_upto(keys, values, n - 1);
        assert forall|i: int| 0 <= i < n implies kv_upto(keys, values, n)[keys[i]] == values[i] by {
            if i < n - 1 {
                assert(keys[i] != keys[n - 1]);
            }
        }
        assert(!kv_upto(keys, values, n - 1).dom().contains(keys[n - 1])) by {
            if kv_upto(keys, values, n - 1).dom().contains(keys[n - 1]) {
                let i = choose|i: int| 0 <= i < n - 1 && (#[trigger] keys[i]) == keys[n - 1];
                assert(keys[i] < keys[n - 1]);
            }
        }
    }
}

/// The leaf-level form of `lemma_kv_upto`.
pub proof fn lemma_leaf_kv(l: ExternalNode)
    requires
        strict_sorted(l.keys@),
        l.values@.len() == l.keys@.len(),
    ensures
        forall|k: Key| #[trigger] leaf_kv(l).dom().contains(k)
            <==> exists|i: int| 0 <= i < l.keys@.len() && l.keys@[i] == k,
        forall|i: int| 0 <= i < l.keys@.len() ==> leaf_kv(l)[l.keys@[i]] == l.values@[i],
        leaf_kv(l).dom().finite(),
        leaf_kv(l).dom().len() == l.keys@.len(),
{
    lemma_kv_upto(l.keys@, l.values@, l.keys@.len() as int);
}

/// Distinct positions of a strictly sorted sequence hold distinct keys.
pub proof fn lemma_sorted_distinct(s: Seq<Key>)
    requires
        strict_sorted(s),
    ensures
        forall|i: int, j: int| 0 <= i < s.len() && 0 <= j < s.len() && i != j
            ==> s[i] != s[j],
{
}

/// Inserting a fresh key at its sorted position keeps the keys sorted and
/// adds exactly that pair to the leaf's map.
proof fn lemma_leaf_insert_at(keys: Seq<Key>, values: Seq<Value>, pos: int, key: Key, value: Value)
    requires
        strict_sorted(keys),
        values.len() == keys.len(),
        0 <= pos <= keys.len(),
        forall|j: int| 0 <= j < pos ==> keys[j] < key,
        forall|j: int| pos <= j < keys.len() ==> keys[j] > key,
    ensures
        strict_sorted(keys.insert(pos, key)),
        kv_upto(keys.insert(pos, key), values.insert(pos, value), keys.len() as int + 1)
            == kv_upto(keys, values, keys.len() as int).insert(key, value),
{
    let keys2 = keys.insert(pos, key);
    let values2 = values.insert(pos, value);
    assert forall|i: int, j: int| 0 <= i < j < keys2.len() implies keys2[i] < keys2[j] by {
        if i < pos {
            assert(keys2[i] == keys[i]);
        }
        if j < pos {
            assert(keys2[j] == keys[j]);
        }
        if i > pos {
            assert(keys2[i] == keys[i - 1]);
        }
        if j > pos {
            assert(keys2[j] == keys[j - 1]);
        }
    }
    lemma_kv_upto(keys, values, keys.len() as int);
    lemma_kv_upto(keys2, values2, keys2.len() as int);
    let lhs = kv_upto(keys2, values2, keys.len() as int + 1);
    let rhs = kv_upto(keys, values, keys.len() as int).insert(key, value);
    assert forall|k: Key| #[trigger] lhs.dom().contains(k) implies rhs.dom().contains(k)
        && lhs[k] == rhs[k] by {
        let i = choose|i: int| 0 <= i < keys2.len() && keys2[i] == k;
        if i == pos {
            assert(lhs[keys2[pos]] == values2[pos]);
        } else if i < pos {
            assert(keys[i] == k && k < key);
            assert(lhs[keys2[i]] == values2[i]);
        } else {
            assert(keys[i - 1] == k && k > key);
            assert(lhs[keys2[i]] == values2[i]);
        }
    }
    assert forall|k: Key| #[trigger] rhs.dom().contains(k) implies lhs.dom().contains(k) by {
        if k == key {
            assert(keys2[pos] == k);
        } else {
            let i = choose|i: int| 0 <= i < keys.len() && keys[i] == k;
            if i < pos {
                assert(keys2[i] == k);
            } else {
                assert(keys2[i + 1] == k);
            }
        }
    }
    assert(lhs =~= rhs);
}

/// Overwriting the value at one position replaces exactly that key's entry
/// in the leaf's map.
proof fn lemma_leaf_update_at(keys: Seq<Key>, values: Seq<Value>, idx: int, value: Value)
    requires
        strict_sorted(keys),
        values.len() == keys.len(),
        0 <= idx < keys.len(),
    ensures
        kv_upto(keys, values.update(idx, value), keys.len() as int)
            == kv_upto(keys, values, keys.len() as int).insert(keys[idx], value),
{
    let values2 = values.update(idx, value);
    lemma_sorted_distinct(keys);
    lemma_kv_upto(keys, values, keys.len() as int);
    lemma_kv_upto(keys, values2, keys.len() as int);
    let lhs = kv_upto(keys, values2, keys.len() as int);
    let rhs = kv_upto(keys, values, keys.len() as int).insert(keys[idx], value);
    assert forall|k: Key| #[trigger] lhs.dom().contains(k) implies rhs.dom().contains(k)
        && lhs[k] == rhs[k] by {
        let i = choose|i: int| 0 <= i < keys.len() && keys[i] == k;
        assert(lhs[keys[i]] == values2[i]);
        if i != idx {
            assert(keys[i] != keys[idx]);
        }
    }
    assert forall|k: Key| #[trigger] rhs.dom().contains(k) implies lhs.dom().contains(k) by {
    }
    assert(lhs =~= rhs);
}

/// A copy of `v[a..b]` as a fresh vector.
pub(crate) fn copy_range(v: &Vec<usize>, a: usize, b: usize) -> (r: Vec<usize>)
    requires
        a <= b <= v@.len(),
    ensures
        r@ == v@.subrange(a as int, b as int),
{
    let mut r: Vec<usize> = Vec::new();
    let mut i: usize = a;
    while i < b
        invariant
            a <= i <= b <= v@.len(),
            r@ == v@.subrange(a as int, i as int),
        decreases b - i,
    {
        r.push(v[i]);
        proof {
            assert(r@ =~= v@.subrange(a as int, i + 1 as int));
        }
        i = i + 1;
    }
    r
}

impl Clone for ExternalNode {
    /// A deep copy: the leaf's own data and its whole forward chain.
    fn clone(&self) -> (r: Self)
        ensures
            leaf_sim(r, *self),
        decreases *self,
    {
        let ks = copy_range(&self.keys, 0, self.keys.len());
        let vs = copy_range(&self.values, 0, self.values.len());
        let nx: Option<Box<ExternalNode>> = match &self.next {
            None => None,
            Some(b) => Some(Box::new((**b).clone())),
        };
        let r = ExternalNode { node_size: self.node_size, keys: ks, values: vs, next: nx };
        proof {
            assert(r.keys@ =~= self.keys@);
            assert(r.values@ =~= self.values@);
        }
        r
    }
}

impl ExternalNode {
    /// A fresh, empty leaf for the given node size.
    pub fn new(node_size: usize) -> (r: Self)
        ensures
            r.node_size == node_size,
            r.keys@ == Seq::<Key>::empty(),
            r.values@ == Seq::<Value>::empty(),
            r.next is None,
            leaf_kv(r) == Map::<Key, Value>::empty(),
            node_size >= 2 ==> leaf_inv(r),
    {
        let r = Self {
            node_size,
            keys: Vec::new(),
            values: Vec::new(),
            next: None,
        };
        proof {
            assert(leaf_kv(r) =~= Map::<Key, Value>::empty());
        }
        r
    }

    /// The index of the first key strictly greater than `key`, if any:
    /// the position at which a new entry for `key` has to be placed to keep
    /// the keys sorted.
    pub fn get_insert_position(&self, key: Key) -> (r: Option<usize>)
        ensures
            match r {
                Option::Some(p) => p < self.keys@.len() && self.keys@[p as int] > key
                    && forall|j: int| 0 <= j < p ==> self.keys@[j] <= key,
                Option::None => forall|j: int| 0 <= j < self.keys@.len() ==> self.keys@[j] <= key,
            },
    {
        let mut i: usize = 0;
        while i < self.keys.len()
            invariant
                i <= self.keys@.len(),
                forall|j: int| 0 <= j < i ==> self.keys@[j] <= key,
            decreases self.keys@.len() - i,
        {
            if self.keys[i] > key {
                return Some(i);
            }
            i = i + 1;
        }
        None
    }
}

impl Node for ExternalNode {
    open spec fn inv(&self) -> bool {
        leaf_inv(*self)
    }

    open spec fn nsize(&self) -> nat {
        self.node_size as nat
    }

    open spec fn at_cap(&self) -> bool {
        self.keys@.len() == self.node_size
    }

    open spec fn kv(&self) -> Map<Key, Value> {
        leaf_kv(*self)
    }

    open spec fn ht(&self) -> nat {
        1
    }

    open spec fn has_keys(&self) -> bool {
        self.keys@.len() > 0
    }

    fn first_key(&self) -> (r: &Key) {
        proof {
            lemma_leaf_kv(*self);
        }
        &self.keys[0]
    }

    fn lookup(&self, key: Key) -> (r: Option<Value>) {
        let mut i: usize = 0;
        while i < self.keys.len()
            invariant
                leaf_inv(*self),
                i <= self.keys@.len(),
                forall|j: int| 0 <= j < i ==> self.keys@[j] != key,
            decreases self.keys@.len() - i,
        {
            if self.keys[i] == key {
                proof {
                    lemma_leaf_kv(*self);
                }
                return Some(self.values[i]);
            }
            i = i + 1;
        }
        proof {
            lemma_leaf_kv(*self);
        }
        None
    }

    fn insert(&mut self, key: Key, value: Value) -> (r: Result<InsertResult, &'static str>)
        ensures
            final(self).node_size == old(self).node_size,
            final(self).next == old(self).next,
    {
        if self.keys.len() >= self.node_size {
            return Err("cannot insert into a leaf that is already full");
        }
        let pos_opt = self.get_insert_position(key);
        match pos_opt {
            Some(pos) => {
                if pos > 0 && self.keys[pos - 1] == key {
                    proof {
                        lemma_leaf_update_at(self.keys@, self.values@, pos - 1, value);
                    }
                    let slot = &mut self.values[pos - 1];
                    *slot = value;
                } else {
                    proof {
                        lemma_leaf_insert_at(self.keys@, self.values@, pos as int, key, value);
                    }
                    self.keys.insert(pos, key);
                    self.values.insert(pos, value);
                }
            },
            None => {
                let len = self.keys.len();
                if len > 0 && self.keys[len - 1] == key {
                    proof {
                        lemma_leaf_update_at(self.keys@, self.values@, len - 1, value);
                    }
                    let slot = &mut self.values[len - 1];
                    *slot = value;
                } else {
                    proof {
                        lemma_leaf_insert_at(self.keys@, self.values@, len as int, key, value);
                        assert(self.keys@.insert(len as int, key) =~= self.keys@.push(key));
                        assert(self.values@.insert(len as int, value) =~= self.values@.push(value));
                    }
                    self.keys.push(key);
                    self.values.push(value);
                }
            },
        }
        if self.keys.len() == self.node_size {
            Ok(InsertResult::Full)
        } else {
            Ok(InsertResult::Open)
        }
    }

    fn meiosis(&self) -> (r: (Box<NodeType>, Box<NodeType>, Key))
        ensures
            ({
                let cut = ((self.node_size + 1) / 2) as int;
                r.2 == self.keys@[cut]
                    && ((*r.0) matches NodeType::Ext(fmr)
                    && (*r.1) matches NodeType::Ext(lat)
                    && fmr.node_size == self.node_size
                    && lat.node_size == self.node_size
                    && fmr.keys@ == self.keys@.subrange(0, cut)
                    && fmr.values@ == self.values@.subrange(0, cut)
                    && lat.keys@ == self.keys@.subrange(cut, self.keys@.len() as int)
                    && lat.values@ == self.values@.subrange(cut, self.values@.len() as int)
                    && (fmr.next matches Some(b) && leaf_sim(*b, lat))
                    && (match (lat.next, self.next) {
                        (Option::None, Option::None) => true,
                        (Option::Some(x), Option::Some(y)) => leaf_sim(*x, *y),
                        _ => false,
                    }))
            }),
    {
        let cut = self.node_size / 2 + self.node_size % 2;
        proof {
            assert(cut == (self.node_size + 1) / 2);
            assert(1 <= cut < self.keys@.len());
        }
        let lk = copy_range(&self.keys, 0, cut);
        let lv = copy_range(&self.values, 0, cut);
        let rk = copy_range(&self.keys, cut, self.keys.len());
        let rv = copy_range(&self.values, cut, self.values.len());
        let sep = self.keys[cut];
        let rnext: Option<Box<ExternalNode>> = match &self.next {
            None => None,
            Some(b) => Some(Box::new((**b).clone())),
        };
        let latter = ExternalNode { node_size: self.node_size, keys: rk, values: rv, next: rnext };
        let latter_copy = latter.clone();
        let former = ExternalNode {
            node_size: self.node_size,
            keys: lk,
            values: lv,
            next: Some(Box::new(latter_copy)),
        };
        proof {
            lemma_leaf_kv(*self);
            lemma_leaf_kv(former);
            lemma_leaf_kv(latter);
            lemma_sorted_distinct(self.keys@);
            let c = cut as int;
            let lmap = leaf_kv(former);
            let rmap = leaf_kv(latter);
            let smap = leaf_kv(*self);
            assert(former.keys@[0] == self.keys@[0]);
            assert(lmap.dom().contains(self.keys@[0]));
            assert(latter.keys@[0] == self.keys@[c]);
            assert(rmap.dom().contains(sep));
            assert forall|k: Key| #[trigger] lmap.dom().contains(k) implies k < sep by {
                let i = choose|i: int| 0 <= i < former.keys@.len() && former.keys@[i] == k;
                assert(self.keys@[i] == k);
            }
            assert forall|k: Key| #[trigger] rmap.dom().contains(k) implies k >= sep by {
                let j = choose|j: int| 0 <= j < latter.keys@.len() && latter.keys@[j] == k;
                assert(self.keys@[c + j] == k);
            }
            let u = lmap.union_prefer_right(rmap);
            assert forall|k: Key| #[trigger] smap.dom().contains(k) implies u.dom().contains(k)
                && u[k] == smap[k] by {
                let i = choose|i: int| 0 <= i < self.keys@.len() && self.keys@[i] == k;
                if i < c {
                    assert(former.keys@[i] == k);
                    assert(lmap.dom().contains(k));
                    assert(lmap[k] == former.values@[i]);
                    assert(!rmap.dom().contains(k));
                } else {
                    assert(latter.keys@[i - c] == k);
                    assert(rmap.dom().contains(k));
                    assert(rmap[k] == latter.values@[i - c]);
                }
            }
            assert forall|k: Key| #[trigger] u.dom().contains(k) implies smap.dom().contains(k) by {
                if lmap.dom().contains(k) {
                    let i = choose|i: int| 0 <= i < former.keys@.len() && former.keys@[i] == k;
                    assert(self.keys@[i] == k);
                } else {
                    let j = choose|j: int| 0 <= j < latter.keys@.len() && latter.keys@[j] == k;
                    assert(self.keys@[c + j] == k);
                }
            }
            assert(u =~= smap);
            assert(node_kv(NodeType::Ext(former)).dom().contains(self.keys@[0]));
            assert(node_kv(NodeType::Ext(latter)).dom().contains(sep));
        }
        let fb = Box::new(NodeType::Ext(former));
        let lb = Box::new(NodeType::Ext(latter));
        proof {
            assert(node_kv(*fb).dom().contains(self.keys@[0]));
            assert(exists|k: Key| node_kv(*fb).dom().contains(k));
        }
        (fb, lb, sep)
    }

    fn height(&self) -> (r: usize) {
        1
    }
}

} // verus!
