//! Textual rendering of a tree for human inspection: a leaf prints as its
//! keys in brackets, an internal node as its children in brackets with
//! each routing key standing between the two children it separates.

use vstd::prelude::*;
use vstd::string::StringExecFns;

use crate::external::ExternalNode;
use crate::internal::InternalNode;
use crate::internal::child;
use crate::internal::child_ok;
use crate::internal::int_frame;
use crate::internal::lemma_int_frame;
use crate::node::Key;
use crate::node::NodeType;
use crate::node::node_inv;

verus! {

/// The decimal digit character for `d`.
pub open spec fn digit_char(d: nat) -> char {
    if d == 0 {
        '0'
    } else if d == 1 {
        '1'
    } else if d == 2 {
        '2'
    } else if d == 3 {
        '3'
    } else if d == 4 {
        '4'
    } else if d == 5 {
        '5'
    } else if d == 6 {
        '6'
    } else if d == 7 {
        '7'
    } else if d == 8 {
        '8'
    } else {
        '9'
    }
}

/// The decimal representation of `n`, most significant digit first.
pub open spec fn dec_rep(n: nat) -> Seq<char>
    decreases n,
{
    if n < 10 {
        seq![digit_char(n)]
    } else {
        dec_rep(n / 10).push(digit_char(n % 10))
    }
}

/// The keys of a leaf, comma-separated.
pub open spec fn keys_text(ks: Seq<Key>) -> Seq<char>
    decreases ks.len(),
{
    if ks.len() == 0 {
        Seq::empty()
    } else if ks.len() == 1 {
        dec_rep(ks[0] as nat)
    } else {
        keys_text(ks.drop_last()) + seq![',', ' '] + dec_rep(ks.last() as nat)
    }
}

/// A leaf's rendering: its keys in brackets.
pub open spec fn render_leaf(l: ExternalNode) -> Seq<char> {
    seq!['['] + keys_text(l.keys@) + seq![']']
}

/// The renderings of the first `j` children of an internal node, each
/// followed by the routing key to its right (the last child has none).
pub open spec fn render_children(m: InternalNode, j: int) -> Seq<char>
    decreases m, 0int, j,
{
    if j <= 0 {
        Seq::empty()
    } else {
        render_children(m, j - 1) + render_node(child(m, j - 1)) + (if j - 1 < m.keys@.len() {
            dec_rep(m.keys@[j - 1] as nat)
        } else {
            Seq::<char>::empty()
        })
    }
}

/// A node's rendering: nested bracketed leaf contents with the routing
/// keys written between the children they separate.
pub open spec fn render_node(n: NodeType) -> Seq<char>
    decreases n, 1int, 0int,
{
    match n {
        NodeType::Ext(l) => render_leaf(l),
        NodeType::Int(m) => seq!['['] + render_children(m, m.pointers@.len() as int + 1)
            + seq![']'],
    }
}

/// One decimal digit as a string.
fn digit_string(d: usize) -> (r: String)
    requires
        d < 10,
    ensures
        r@ == seq![digit_char(d as nat)],
{
    proof {
        reveal_strlit("0");
        reveal_strlit("1");
        reveal_strlit("2");
        reveal_strlit("3");
        reveal_strlit("4");
        reveal_strlit("5");
        reveal_strlit("6");
        reveal_strlit("7");
        reveal_strlit("8");
        reveal_strlit("9");
    }
    let r = if d == 0 {
        String::from_str("0")
    } else if d == 1 {
        String::from_str("1")
    } else if d == 2 {
        String::from_str("2")
    } else if d == 3 {
        String::from_str("3")
    } else if d == 4 {
        String::from_str("4")
    } else if d == 5 {
        String::from_str("5")
    } else if d == 6 {
        String::from_str("6")
    } else if d == 7 {
        String::from_str("7")
    } else if d == 8 {
        String::from_str("8")
    } else {
        String::from_str("9")
    };
    proof {
        assert(r@ =~= seq![digit_char(d as nat)]);
    }
    r
}

/// The decimal text of `n`.
fn to_decimal(n: usize) -> (r: String)
    ensures
        r@ == dec_rep(n as nat),
    decreases n,
{
    if n < 10 {
        digit_string(n)
    } else {
        let mut s = to_decimal(n / 10);
        let d = digit_string(n % 10);
        s.append(d.as_str());
        proof {
            assert(s@ =~= dec_rep(n as nat));
        }
        s
    }
}

/// Renders one leaf.
fn render_leaf_text(l: &ExternalNode) -> (r: String)
    ensures
        r@ == render_leaf(*l),
{
    proof {
        reveal_strlit("[");
        reveal_strlit("]");
        reveal_strlit(", ");
    }
    let mut s = String::from_str("[");
    proof {
        assert(s@ =~= seq!['['] + keys_text(l.keys@.take(0)));
    }
    let mut i: usize = 0;
    while i < l.keys.len()
        invariant
            i <= l.keys@.len(),
            s@ == seq!['['] + keys_text(l.keys@.take(i as int)),
        decreases l.keys@.len() - i,
    {
        proof {
            reveal_strlit(", ");
        }
        if i > 0 {
            s.append(", ");
        }
        let d = to_decimal(l.keys[i]);
        s.append(d.as_str());
        proof {
            let t = l.keys@.take(i + 1 as int);
            assert(t.drop_last() =~= l.keys@.take(i as int));
            assert(t.last() == l.keys@[i as int]);
            if i == 0 {
                assert(keys_text(t) == dec_rep(l.keys@[0] as nat));
            }
            assert(s@ =~= seq!['['] + keys_text(t));
        }
        i = i + 1;
    }
    s.append("]");
    proof {
        reveal_strlit("]");
        assert(l.keys@.take(l.keys@.len() as int) =~= l.keys@);
        assert(s@ =~= render_leaf(*l));
    }
    s
}

/// Renders a subtree.
pub(crate) fn render_text(n: &NodeType) -> (r: String)
    requires
        node_inv(*n),
    ensures
        r@ == render_node(*n),
    decreases *n,
{
    match n {
        NodeType::Ext(l) => {
            let r = render_leaf_text(l);
            proof {
                assert(r@ == render_node(*n));
            }
            r
        },
        NodeType::Int(m) => {
            proof {
                reveal_strlit("[");
                reveal_strlit("]");
                lemma_int_frame(*m);
                assert(decreases_to!(*n => *m));
            }
            let mut s = String::from_str("[");
            proof {
                assert(s@ =~= seq!['['] + render_children(*m, 0));
            }
            let mut i: usize = 0;
            while i < m.pointers.len()
                invariant
                    *n == NodeType::Int(*m),
                    decreases_to!(*n => *m),
                    int_frame(*m),
                    i <= m.pointers@.len(),
                    m.pointers@.len() == m.keys@.len(),
                    s@ == seq!['['] + render_children(*m, i as int),
                decreases m.pointers@.len() - i,
            {
                proof {
                    assert(child_ok(*m, i as int));
                    assert(child(*m, i as int) == *m.pointers@[i as int]);
                    assert(decreases_to!(*m => m.pointers));
                    assert(decreases_to!(m.pointers => m.pointers@));
                    assert(decreases_to!(m.pointers@ => m.pointers@[i as int]));
                    assert(decreases_to!(*n => *m.pointers@[i as int]));
                }
                let cs = render_text(&m.pointers[i]);
                s.append(cs.as_str());
                let ks = to_decimal(m.keys[i]);
                s.append(ks.as_str());
                proof {
                    assert(s@ =~= seq!['['] + render_children(*m, i + 1 as int));
                }
                i = i + 1;
            }
            proof {
                assert(child_ok(*m, m.pointers@.len() as int));
                assert(child(*m, m.pointers@.len() as int) == *m.greater);
                assert(decreases_to!(*m => *m.greater));
                assert(decreases_to!(*n => *m.greater));
            }
            let gs = render_text(&m.greater);
            s.append(gs.as_str());
            s.append("]");
            proof {
                reveal_strlit("]");
                let len = m.pointers@.len() as int;
                assert(render_children(*m, len + 1) == render_children(*m, len)
                    + render_node(child(*m, len)) + Seq::<char>::empty());
                assert(s@ =~= render_node(*n));
            }
            s
        },
    }
}

} // verus!
