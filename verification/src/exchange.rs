//! Moving symbols about in a tree, and what that does to the cost of the
//! tree: the sum, over its leaves, of a weight times the depth of the leaf.

use crate::tree::Tree;
use vstd::prelude::*;

verus! {

/// No symbol stands at two leaves.
pub open spec fn distinct(t: Tree) -> bool
    decreases t,
{
    match t {
        Tree::Leaf { .. } => true,
        Tree::Branch { left, right, .. } => {
            &&& distinct(*left)
            &&& distinct(*right)
            &&& forall|b: u8| !(left.contains(b) && right.contains(b))
        },
    }
}

/// The weights of the symbols of `t`, added up.
pub open spec fn load(t: Tree, w: spec_fn(u8) -> int) -> int
    decreases t,
{
    match t {
        Tree::Leaf { byte, .. } => w(byte),
        Tree::Branch { left, right, .. } => load(*left, w) + load(*right, w),
    }
}

/// The cost of `t`: each symbol's weight times the depth of its leaf.
pub open spec fn cost(t: Tree, w: spec_fn(u8) -> int) -> int
    decreases t,
{
    match t {
        Tree::Leaf { .. } => 0,
        Tree::Branch { left, right, .. } => cost(*left, w) + cost(*right, w) + load(*left, w)
            + load(*right, w),
    }
}

/// How deep the leaf of `b` lies, where `b` has one.
pub open spec fn depth(t: Tree, b: u8) -> int
    decreases t,
{
    match t {
        Tree::Leaf { .. } => 0,
        Tree::Branch { left, right, .. } => 1 + if left.contains(b) {
            depth(*left, b)
        } else {
            depth(*right, b)
        },
    }
}

/// The depth of the deepest leaf.
pub open spec fn height(t: Tree) -> int
    decreases t,
{
    match t {
        Tree::Leaf { .. } => 0,
        Tree::Branch { left, right, .. } => 1 + if height(*left) >= height(*right) {
            height(*left)
        } else {
            height(*right)
        },
    }
}

/// The left one of two deepest leaves that share a parent.
pub open spec fn deep_left(t: Tree) -> u8
    decreases t,
{
    match t {
        Tree::Leaf { byte, .. } => byte,
        Tree::Branch { left, right, .. } => match (*left, *right) {
            (Tree::Leaf { byte, .. }, Tree::Leaf { .. }) => byte,
            _ => if height(*left) >= height(*right) {
                deep_left(*left)
            } else {
                deep_left(*right)
            },
        },
    }
}

/// The right one of the same two leaves.
pub open spec fn deep_right(t: Tree) -> u8
    decreases t,
{
    match t {
        Tree::Leaf { byte, .. } => byte,
        Tree::Branch { left, right, .. } => match (*left, *right) {
            (Tree::Leaf { .. }, Tree::Leaf { byte, .. }) => byte,
            _ => if height(*left) >= height(*right) {
                deep_right(*left)
            } else {
                deep_right(*right)
            },
        },
    }
}

/// The tree with those two leaves made one, under the left one's symbol.
pub open spec fn collapse(t: Tree) -> Tree
    decreases t,
{
    match t {
        Tree::Leaf { .. } => t,
        Tree::Branch { value, left, right } => match (*left, *right) {
            (Tree::Leaf { byte, .. }, Tree::Leaf { .. }) => Tree::Leaf { value, byte },
            _ => if height(*left) >= height(*right) {
                Tree::Branch { value, left: Box::new(collapse(*left)), right }
            } else {
                Tree::Branch { value, left, right: Box::new(collapse(*right)) }
            },
        },
    }
}

/// `u` for `v`, `v` for `u`, and every other symbol for itself.
pub open spec fn exchanged(u: u8, v: u8, b: u8) -> u8 {
    if b == u {
        v
    } else if b == v {
        u
    } else {
        b
    }
}

/// The tree with the symbols `u` and `v` exchanged.
pub open spec fn rename(t: Tree, u: u8, v: u8) -> Tree
    decreases t,
{
    match t {
        Tree::Leaf { value, byte } => Tree::Leaf { value, byte: exchanged(u, v, byte) },
        Tree::Branch { value, left, right } => Tree::Branch {
            value,
            left: Box::new(rename(*left, u, v)),
            right: Box::new(rename(*right, u, v)),
        },
    }
}

/// The weights with those of `u` and `v` exchanged.
pub open spec fn permuted(w: spec_fn(u8) -> int, u: u8, v: u8) -> spec_fn(u8) -> int {
    |b: u8| w(exchanged(u, v, b))
}

/// A tree is as high as its deepest leaf; only a leaf has height 0.
pub proof fn lemma_depth(t: Tree, b: u8)
    ensures
        0 <= depth(t, b) <= height(t),
        t is Leaf <==> height(t) == 0,
    decreases t,
{
    match t {
        Tree::Leaf { .. } => {},
        Tree::Branch { left, right, .. } => {
            lemma_depth(*left, b);
            lemma_depth(*right, b);
        },
    }
}

/// Changing the weight of one symbol changes the cost by the difference
/// times the depth of the symbol.
pub proof fn lemma_bump(t: Tree, w1: spec_fn(u8) -> int, w2: spec_fn(u8) -> int, u: u8)
    requires
        distinct(t),
        forall|b: u8| t.contains(b) && b != u ==> w1(b) == w2(b),
    ensures
        load(t, w2) == load(t, w1) + if t.contains(u) {
            w2(u) - w1(u)
        } else {
            0
        },
        cost(t, w2) == cost(t, w1) + if t.contains(u) {
            (w2(u) - w1(u)) * depth(t, u)
        } else {
            0
        },
    decreases t,
{
    match t {
        Tree::Leaf { byte, .. } => {
            assert(t.contains(byte));
        },
        Tree::Branch { left, right, .. } => {
            assert forall|b: u8| left.contains(b) && b != u implies w1(b) == w2(b) by {
                assert(t.contains(b));
            }
            assert forall|b: u8| right.contains(b) && b != u implies w1(b) == w2(b) by {
                assert(t.contains(b));
            }
            lemma_bump(*left, w1, w2, u);
            lemma_bump(*right, w1, w2, u);
            let d = w2(u) - w1(u);
            if left.contains(u) {
                assert(!right.contains(u));
                assert(d * (1 + depth(*left, u)) == d + d * depth(*left, u)) by (nonlinear_arith);
            } else if right.contains(u) {
                assert(d * (1 + depth(*right, u)) == d + d * depth(*right, u)) by (nonlinear_arith);
            }
        },
    }
}

/// In a tree of more than one leaf, the two deep leaves are two different
/// leaves of the tree, and none lies deeper.
pub proof fn lemma_deep(t: Tree)
    requires
        t is Branch,
        distinct(t),
    ensures
        t.contains(deep_left(t)),
        t.contains(deep_right(t)),
        deep_left(t) != deep_right(t),
        depth(t, deep_left(t)) == height(t),
        depth(t, deep_right(t)) == height(t),
    decreases t,
{
    match t {
        Tree::Leaf { .. } => {},
        Tree::Branch { left, right, .. } => {
            lemma_depth(*left, 0);
            lemma_depth(*right, 0);
            match (*left, *right) {
                (Tree::Leaf { byte: x, .. }, Tree::Leaf { byte: y, .. }) => {
                    assert(left.contains(x));
                    assert(right.contains(y));
                    assert(!(left.contains(y) && right.contains(y)));
                    assert(deep_left(t) == x && deep_right(t) == y);
                    assert(height(t) == 1);
                    assert(depth(*left, x) == 0 && depth(*right, y) == 0);
                    assert(depth(t, x) == 1 && depth(t, y) == 1);
                },
                _ => {
                    if height(*left) >= height(*right) {
                        lemma_deep(*left);
                        assert(deep_left(t) == deep_left(*left));
                        assert(deep_right(t) == deep_right(*left));
                        assert(height(t) == 1 + height(*left));
                    } else {
                        lemma_deep(*right);
                        assert(!(left.contains(deep_left(*right)) && right.contains(
                            deep_left(*right),
                        )));
                        assert(!(left.contains(deep_right(*right)) && right.contains(
                            deep_right(*right),
                        )));
                        assert(deep_left(t) == deep_left(*right));
                        assert(deep_right(t) == deep_right(*right));
                        assert(height(t) == 1 + height(*right));
                    }
                },
            }
        },
    }
}

/// Making the two deep leaves one, with their weights added, takes both
/// their weights off the cost and the right one's symbol out of the tree.
pub proof fn lemma_collapse(t: Tree, w1: spec_fn(u8) -> int, w2: spec_fn(u8) -> int)
    requires
        t is Branch,
        distinct(t),
        w2(deep_left(t)) == w1(deep_left(t)) + w1(deep_right(t)),
        forall|b: u8|
            t.contains(b) && b != deep_left(t) && b != deep_right(t) ==> w1(b) == w2(b),
    ensures
        distinct(collapse(t)),
        forall|b: u8| collapse(t).contains(b) <==> t.contains(b) && b != deep_right(t),
        load(collapse(t), w2) == load(t, w1),
        cost(collapse(t), w2) == cost(t, w1) - w1(deep_left(t)) - w1(deep_right(t)),
    decreases t,
{
    lemma_deep(t);
    match t {
        Tree::Leaf { .. } => {},
        Tree::Branch { left, right, .. } => {
            lemma_depth(*left, 0);
            lemma_depth(*right, 0);
            match (*left, *right) {
                (Tree::Leaf { byte: x, .. }, Tree::Leaf { byte: y, .. }) => {
                    assert(deep_left(t) == x && deep_right(t) == y);
                    assert(collapse(t) == Tree::Leaf { value: t.weight(), byte: x });
                    assert(load(*left, w1) == w1(x) && load(*right, w1) == w1(y));
                    assert(cost(*left, w1) == 0 && cost(*right, w1) == 0);
                    assert(load(t, w1) == w1(x) + w1(y));
                    assert(cost(t, w1) == w1(x) + w1(y));
                    assert forall|b: u8| collapse(t).contains(b) <==> t.contains(b) && b != y by {
                        assert(left.contains(b) <==> b == x);
                        assert(right.contains(b) <==> b == y);
                    }
                },
                _ => {
                    if height(*left) >= height(*right) {
                        let p = deep_left(*left);
                        let q = deep_right(*left);
                        lemma_deep(*left);
                        assert(deep_left(t) == p && deep_right(t) == q);
                        assert(collapse(t) == Tree::Branch {
                            value: t.weight(),
                            left: Box::new(collapse(*left)),
                            right: Box::new(*right),
                        });
                        assert forall|b: u8|
                            left.contains(b) && b != p && b != q implies w1(b) == w2(b) by {
                            assert(t.contains(b));
                        }
                        lemma_collapse(*left, w1, w2);
                        assert(!(left.contains(p) && right.contains(p)));
                        assert(!(left.contains(q) && right.contains(q)));
                        assert forall|b: u8| right.contains(b) && b != p implies w1(b) == w2(b) by {
                            assert(t.contains(b));
                            assert(!(left.contains(q) && right.contains(q)));
                        }
                        lemma_bump(*right, w1, w2, p);
                        assert forall|b: u8|
                            !(collapse(*left).contains(b) && right.contains(b)) by {
                            assert(!(left.contains(b) && right.contains(b)));
                        }
                        assert forall|b: u8| collapse(t).contains(b) <==> t.contains(b) && b
                            != q by {
                            assert(!(left.contains(b) && right.contains(b)));
                        }
                    } else {
                        let p = deep_left(*right);
                        let q = deep_right(*right);
                        lemma_deep(*right);
                        assert(deep_left(t) == p && deep_right(t) == q);
                        assert(collapse(t) == Tree::Branch {
                            value: t.weight(),
                            left: Box::new(*left),
                            right: Box::new(collapse(*right)),
                        });
                        assert forall|b: u8|
                            right.contains(b) && b != p && b != q implies w1(b) == w2(b) by {
                            assert(t.contains(b));
                        }
                        lemma_collapse(*right, w1, w2);
                        assert(!(left.contains(p) && right.contains(p)));
                        assert(!(left.contains(q) && right.contains(q)));
                        assert forall|b: u8| left.contains(b) && b != p implies w1(b) == w2(b) by {
                            assert(t.contains(b));
                            assert(!(left.contains(q) && right.contains(q)));
                        }
                        lemma_bump(*left, w1, w2, p);
                        assert forall|b: u8|
                            !(left.contains(b) && collapse(*right).contains(b)) by {
                            assert(!(left.contains(b) && right.contains(b)));
                        }
                        assert forall|b: u8| collapse(t).contains(b) <==> t.contains(b) && b
                            != q by {
                            assert(!(left.contains(b) && right.contains(b)));
                            assert(collapse(*right).contains(b) <==> right.contains(b) && b != q);
                            assert(collapse(t).contains(b) == (left.contains(b) || collapse(
                                *right,
                            ).contains(b)));
                        }
                    }
                },
            }
        },
    }
}

/// Exchanging two symbols moves their weights with them and leaves the
/// shape of the tree alone.
pub proof fn lemma_rename(t: Tree, u: u8, v: u8, w: spec_fn(u8) -> int)
    ensures
        forall|b: u8| rename(t, u, v).contains(b) == t.contains(exchanged(u, v, b)),
        distinct(t) ==> distinct(rename(t, u, v)),
        height(rename(t, u, v)) == height(t),
        t is Branch <==> rename(t, u, v) is Branch,
        deep_left(rename(t, u, v)) == exchanged(u, v, deep_left(t)),
        deep_right(rename(t, u, v)) == exchanged(u, v, deep_right(t)),
        load(rename(t, u, v), w) == load(t, permuted(w, u, v)),
        cost(rename(t, u, v), w) == cost(t, permuted(w, u, v)),
    decreases t,
{
    match t {
        Tree::Leaf { byte, .. } => {
            assert forall|b: u8| rename(t, u, v).contains(b) == t.contains(exchanged(u, v, b)) by {
                assert(rename(t, u, v).contains(b) == (exchanged(u, v, byte) == b));
            }
        },
        Tree::Branch { left, right, .. } => {
            lemma_rename(*left, u, v, w);
            lemma_rename(*right, u, v, w);
            assert forall|b: u8| rename(t, u, v).contains(b) == t.contains(exchanged(u, v, b)) by {
                assert(rename(*left, u, v).contains(b) == left.contains(exchanged(u, v, b)));
                assert(rename(*right, u, v).contains(b) == right.contains(exchanged(u, v, b)));
            }
            if distinct(t) {
                assert forall|b: u8|
                    !(rename(*left, u, v).contains(b) && rename(*right, u, v).contains(b)) by {
                    let c = exchanged(u, v, b);
                    assert(!(left.contains(c) && right.contains(c)));
                }
            }
        },
    }
}

/// Giving a deepest leaf to a symbol that weighs no more than the one
/// that had it does not raise the cost.
pub proof fn lemma_swap_cost(t: Tree, w: spec_fn(u8) -> int, u: u8, v: u8)
    requires
        distinct(t),
        t.contains(u),
        t.contains(v),
        depth(t, u) == height(t),
        w(v) <= w(u),
    ensures
        cost(rename(t, u, v), w) <= cost(t, w),
{
    lemma_rename(t, u, v, w);
    let w2 = permuted(w, u, v);
    let wa = |b: u8|
        if b == u {
            w(v)
        } else {
            w(b)
        };
    lemma_bump(t, w, wa, u);
    lemma_bump(t, wa, w2, v);
    lemma_depth(t, v);
    let d = w(v) - w(u);
    let h = height(t);
    let e = depth(t, v);
    if u != v {
        assert(wa(u) - w(u) == d);
        assert(w2(v) - wa(v) == -d);
        assert(cost(t, wa) == cost(t, w) + d * h);
        assert(cost(t, w2) == cost(t, wa) + (-d) * e);
        assert(d * h + (-d) * e <= 0) by (nonlinear_arith)
            requires
                d <= 0,
                0 <= e <= h,
        ;
    } else {
        assert(wa(u) - w(u) == 0);
        assert(w2(v) - wa(v) == 0);
        assert(0 * h == 0) by (nonlinear_arith);
    }
}

/// A tree can be rearranged, at no higher cost, so that its two lightest
/// symbols are the two deep leaves.
pub proof fn lemma_exchange(t: Tree, w: spec_fn(u8) -> int, p: u8, q: u8) -> (r: Tree)
    requires
        t is Branch,
        distinct(t),
        t.contains(p),
        t.contains(q),
        p != q,
        forall|b: u8| t.contains(b) ==> w(p) <= w(b),
        forall|b: u8| t.contains(b) && b != p ==> w(q) <= w(b),
    ensures
        r is Branch,
        distinct(r),
        forall|b: u8| r.contains(b) == t.contains(b),
        deep_left(r) == p,
        deep_right(r) == q,
        cost(r, w) <= cost(t, w),
{
    lemma_deep(t);
    let dl = deep_left(t);
    let t1 = rename(t, dl, p);
    lemma_rename(t, dl, p, w);
    lemma_swap_cost(t, w, dl, p);
    assert forall|b: u8| t1.contains(b) == t.contains(b) by {
        let c = exchanged(dl, p, b);
    }
    lemma_deep(t1);
    let dr = deep_right(t1);
    let t2 = rename(t1, dr, q);
    lemma_rename(t1, dr, q, w);
    lemma_swap_cost(t1, w, dr, q);
    assert forall|b: u8| t2.contains(b) == t.contains(b) by {
        let c = exchanged(dr, q, b);
    }
    t2
}

} // verus!
